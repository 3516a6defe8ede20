//! Mesh files: the hull of their contents.

use vstd::prelude::*;

use crate::model::hull::convex_hull;
#[allow(unused_imports)]
use crate::model::hull::hull_of;
use crate::model::stl::parse_stl;
#[allow(unused_imports)]
use crate::model::stl::stl_vertices;
#[allow(unused_imports)]
use crate::scalar::vec3::vmul;
use crate::scalar::Vec3;

verus! {

/// The vertices, scaled along each axis.
pub open spec fn scaled_points(p: Seq<Vec3>, scale: Option<Vec3>) -> Seq<Vec3> {
    match scale {
        Some(s) => p.map_values(|v: Vec3| vmul(v, s)),
        None => p,
    }
}

/// The hull of an STL; `None` where it cannot be read or has fewer than three points.
pub open spec fn hull_of_mesh(bytes: Seq<u8>, scale: Option<Vec3>) -> Option<Seq<Vec3>> {
    match stl_vertices(bytes) {
        None => None,
        Some(v) => {
            let h = hull_of(scaled_points(v, scale));
            if h.len() >= 3 {
                Some(h)
            } else {
                None
            }
        },
    }
}

/// The hull of an STL.
pub fn mesh_hull(bytes: &[u8], scale: Option<Vec3>) -> (r: Option<Vec<Vec3>>)
    ensures
        match r {
            Some(h) => hull_of_mesh(bytes@, scale) == Some(h@),
            None => hull_of_mesh(bytes@, scale) is None,
        },
{
    let mut v = match parse_stl(bytes) {
        Some(v) => v,
        None => {
            return None;
        },
    };
    let ghost start = v@;
    match scale {
        Some(s) => {
            let mut i: usize = 0;
            while i < v.len()
                invariant
                    i <= v.len(),
                    v@.len() == start.len(),
                    forall|k: int| 0 <= k < i ==> #[trigger] v@[k] == vmul(start[k], s),
                    forall|k: int| i <= k < v@.len() ==> #[trigger] v@[k] == start[k],
                decreases v.len() - i,
            {
                let p = v[i].times(s);
                v.set(i, p);
                i = i + 1;
            }
        },
        None => {},
    }
    assert(v@ =~= scaled_points(start, scale));
    let h = convex_hull(&v);
    if h.len() >= 3 {
        Some(h)
    } else {
        None
    }
}

} // verus!
