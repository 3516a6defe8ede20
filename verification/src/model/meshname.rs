//! Which file a mesh name means: how names are read, and where packages are looked for.

use vstd::prelude::*;

use crate::scalar::decimal::lower_from;
use crate::text::{chars_of, find_text, is_text, part, starts_at, string_of};
#[allow(unused_imports)]
use crate::text::{find_from, looking_at, lowered};

verus! {

/// How many directories a package is looked for in, from the description's upward.
pub const PACKAGE_LEVELS: usize = 7;

/// A mesh name, read.
#[derive(Debug)]
pub enum MeshName {
    /// A file name.
    File(String),
    /// A file of a package.
    InPackage { package: String, rest: String },
}

/// `MeshName` over character sequences.
pub enum MeshNameV {
    File(Seq<char>),
    InPackage(Seq<char>, Seq<char>),
}

impl View for MeshName {
    type V = MeshNameV;

    open spec fn view(&self) -> MeshNameV {
        match *self {
            MeshName::File(s) => MeshNameV::File(s@),
            MeshName::InPackage { package, rest } => MeshNameV::InPackage(package@, rest@),
        }
    }
}

/// A text without a prefix that it may have.
pub open spec fn stripped(s: Seq<char>, prefix: Seq<char>) -> Seq<char> {
    if looking_at(s, 0, prefix) {
        s.subrange(prefix.len() as int, s.len() as int)
    } else {
        s
    }
}

/// What a mesh name means; `None` for a package name without a package or a file.
pub open spec fn named_mesh(raw: Seq<char>) -> Option<MeshNameV> {
    let name = stripped(raw, "file://"@);
    if !looking_at(name, 0, "package://"@) {
        Some(MeshNameV::File(name))
    } else {
        let path = stripped(name, "package://"@);
        match find_from(path, 0, "/"@) {
            None => None,
            Some(i) => if i == 0 || i + 1 >= path.len() {
                None
            } else {
                Some(
                    MeshNameV::InPackage(
                        path.subrange(0, i),
                        path.subrange(i + 1, path.len() as int),
                    ),
                )
            },
        }
    }
}

fn strip(s: &Vec<char>, prefix: &str) -> (r: Vec<char>)
    ensures
        r@ == stripped(s@, prefix@),
{
    let n: usize = chars_of(prefix).len();
    if starts_at(s, 0, prefix) {
        part(s, n, s.len())
    } else {
        part(s, 0, s.len())
    }
}

/// Reads a mesh name.
pub fn mesh_name(raw: &str) -> (r: Option<MeshName>)
    ensures
        match r {
            Some(m) => named_mesh(raw@) == Some(m@),
            None => named_mesh(raw@) is None,
        },
{
    let text = chars_of(raw);
    let name = strip(&text, "file://");
    if !starts_at(&name, 0, "package://") {
        return Some(MeshName::File(string_of(&name)));
    }
    let path = strip(&name, "package://");
    proof {
        reveal_strlit("/");
    }
    match find_text(&path, 0, "/") {
        None => None,
        Some(i) => {
            if i == 0 || i + 1 >= path.len() {
                return None;
            }
            let package = part(&path, 0, i);
            let rest = part(&path, i + 1, path.len());
            Some(MeshName::InPackage { package: string_of(&package), rest: string_of(&rest) })
        },
    }
}

/// The file that a collision mesh is read from: no package is looked for.
pub open spec fn collision_file(raw: Seq<char>) -> Option<Seq<char>> {
    let name = stripped(raw, "file://"@);
    if looking_at(name, 0, "package://"@) {
        None
    } else {
        Some(name)
    }
}

pub fn collision_mesh_file(raw: &str) -> (r: Option<String>)
    ensures
        match r {
            Some(s) => collision_file(raw@) == Some(s@),
            None => collision_file(raw@) is None,
        },
{
    let text = chars_of(raw);
    let name = strip(&text, "file://");
    if starts_at(&name, 0, "package://") {
        return None;
    }
    Some(string_of(&name))
}

/// Only STL meshes become colliders, whatever the case of their extension.
pub open spec fn readable_mesh(extension: Option<Seq<char>>) -> bool {
    extension matches Some(e) && lowered(e) == "stl"@
}

pub fn is_stl(extension: Option<&str>) -> (r: bool)
    ensures
        r == readable_mesh(
            match extension {
                Some(e) => Some(e@),
                None => None,
            },
        ),
{
    match extension {
        None => false,
        Some(e) => {
            let c = chars_of(e);
            let l = lower_from(&c, 0);
            assert(c@.subrange(0, c@.len() as int) =~= c@);
            is_text(&l, "stl")
        },
    }
}

/// A directory that a package is looked for in.
#[derive(Clone, Copy, Debug, PartialEq, Eq, Structural)]
pub enum Base {
    /// That of the description, or so many levels above it.
    Above(usize),
    /// One of the package roots.
    Root(usize),
}

/// A place to look for a file of a package: below a directory, with or without the
/// name of the package between.
#[derive(Clone, Copy, Debug, PartialEq, Eq, Structural)]
pub struct Place {
    pub base: Base,
    pub with_package: bool,
}

/// The two places below a directory.
pub open spec fn places_below(base: Base) -> Seq<Place> {
    seq![Place { base, with_package: true }, Place { base, with_package: false }]
}

/// The places below the first `n` levels.
pub open spec fn level_places(n: nat) -> Seq<Place>
    decreases n,
{
    if n == 0 {
        Seq::empty()
    } else {
        level_places((n - 1) as nat) + places_below(Base::Above((n - 1) as usize))
    }
}

/// The places below the first `n` roots.
pub open spec fn root_places(n: nat) -> Seq<Place>
    decreases n,
{
    if n == 0 {
        Seq::empty()
    } else {
        root_places((n - 1) as nat) + places_below(Base::Root((n - 1) as usize))
    }
}

/// The places in the order in which they are tried: beside the description, then level
/// by level above it, then the package roots.
pub open spec fn places(levels: nat, roots: nat) -> Seq<Place> {
    (if levels == 0 {
        Seq::empty()
    } else {
        seq![Place { base: Base::Above(0), with_package: false }] + level_places(
            if levels < PACKAGE_LEVELS {
                levels
            } else {
                PACKAGE_LEVELS as nat
            },
        )
    }) + root_places(roots)
}

/// Where to look for a file of a package, in order, for a description with `levels`
/// directories from its own upward and so many package roots.
pub fn package_places(levels: usize, roots: usize) -> (r: Vec<Place>)
    ensures
        r@ == places(levels as nat, roots as nat),
{
    let mut out: Vec<Place> = Vec::new();
    if levels > 0 {
        let n: usize = if levels < PACKAGE_LEVELS {
            levels
        } else {
            PACKAGE_LEVELS
        };
        out.push(Place { base: Base::Above(0), with_package: false });
        let ghost head = out@;
        let mut i: usize = 0;
        assert(head + level_places(0) =~= head);
        while i < n
            invariant
                i <= n,
                out@ == head + level_places(i as nat),
            decreases n - i,
        {
            let ghost before = out@;
            out.push(Place { base: Base::Above(i), with_package: true });
            out.push(Place { base: Base::Above(i), with_package: false });
            assert(out@ =~= head + (level_places(i as nat) + places_below(Base::Above(i))));
            i = i + 1;
        }
        assert(head =~= seq![Place { base: Base::Above(0), with_package: false }]);
    }
    let ghost head = out@;
    let mut i: usize = 0;
    assert(head + root_places(0) =~= head);
    while i < roots
        invariant
            i <= roots,
            out@ == head + root_places(i as nat),
        decreases roots - i,
    {
        out.push(Place { base: Base::Root(i), with_package: true });
        out.push(Place { base: Base::Root(i), with_package: false });
        assert(out@ =~= head + (root_places(i as nat) + places_below(Base::Root(i))));
        i = i + 1;
    }
    out
}

/// The parts of a list of directories from position `i` on, without empty ones.
pub open spec fn roots_from(s: Seq<char>, i: int) -> Seq<Seq<char>>
    decreases s.len() - i,
{
    if i < 0 || i >= s.len() {
        Seq::empty()
    } else {
        proof {
            lemma_next_colon(s, i);
        }
        let end = next_colon(s, i);
        let one = if end > i {
            seq![s.subrange(i, end)]
        } else {
            Seq::empty()
        };
        one + (if end < s.len() {
            roots_from(s, end + 1)
        } else {
            Seq::empty()
        })
    }
}

/// The next colon at or after `i`, or the end.
pub open spec fn next_colon(s: Seq<char>, i: int) -> int
    decreases s.len() - i,
{
    if i >= s.len() || s[i] == ':' {
        i
    } else {
        next_colon(s, i + 1)
    }
}

pub proof fn lemma_next_colon(s: Seq<char>, i: int)
    ensures
        next_colon(s, i) >= i,
    decreases s.len() - i,
{
    if i < s.len() && s[i] != ':' {
        lemma_next_colon(s, i + 1);
    }
}

/// The package roots in a list separated by colons.
pub fn package_roots(list: &str) -> (r: Vec<String>)
    ensures
        r@.len() == roots_from(list@, 0).len(),
        forall|k: int| 0 <= k < r@.len() ==> (#[trigger] r@[k])@ == roots_from(list@, 0)[k],
{
    let s = chars_of(list);
    let mut out: Vec<String> = Vec::new();
    let ghost all = roots_from(s@, 0);
    let ghost mut seen: Seq<Seq<char>> = Seq::empty();
    assert(seen + all =~= all);
    let mut i: usize = 0;
    while i < s.len()
        invariant
            i <= s.len(),
            all == seen + roots_from(s@, i as int),
            out@.len() == seen.len(),
            forall|k: int| 0 <= k < out@.len() ==> (#[trigger] out@[k])@ == seen[k],
        decreases s.len() - i,
    {
        let mut end: usize = i;
        while end < s.len() && s[end] != ':'
            invariant
                i <= end <= s.len(),
                next_colon(s@, i as int) == next_colon(s@, end as int),
            decreases s.len() - end,
        {
            end = end + 1;
        }
        let ghost before = seen;
        if end > i {
            let one = part(&s, i, end);
            out.push(string_of(&one));
            proof {
                seen = seen.push(s@.subrange(i as int, end as int));
                assert(seen =~= before + seq![s@.subrange(i as int, end as int)]);
            }
        }
        proof {
            let rest = if end < s@.len() {
                roots_from(s@, end + 1)
            } else {
                Seq::empty()
            };
            assert(before + roots_from(s@, i as int) =~= seen + rest);
        }
        if end == s.len() {
            assert(roots_from(s@, end as int) =~= Seq::empty());
            i = end;
        } else {
            i = end + 1;
        }
    }
    assert(roots_from(s@, i as int) =~= Seq::empty());
    assert(all =~= seen);
    out
}

} // verus!
