//! Poses by name.

use vstd::prelude::*;

use crate::model::tree::same_string;
use crate::scalar::Scalar;
use crate::text::{chars_of, is_text};

verus! {

/// A pose and its name.
#[derive(Debug)]
pub struct NamedPose {
    pub name: String,
    pub q: Vec<Scalar>,
}

/// Poses in the order in which their names came.
#[derive(Debug)]
pub struct PoseLibrary {
    poses: Vec<NamedPose>,
}

pub open spec fn entries(p: Seq<NamedPose>) -> Seq<(Seq<char>, Seq<Scalar>)> {
    Seq::new(p.len(), |i: int| (p[i].name@, p[i].q@))
}

impl View for PoseLibrary {
    type V = Seq<(Seq<char>, Seq<Scalar>)>;

    closed spec fn view(&self) -> Seq<(Seq<char>, Seq<Scalar>)> {
        entries(self.poses@)
    }
}

/// First entry of that name from `i` on.
pub open spec fn first_entry(
    p: Seq<(Seq<char>, Seq<Scalar>)>,
    name: Seq<char>,
    i: int,
) -> Option<int>
    decreases p.len() - i,
{
    if i < 0 || i >= p.len() {
        None
    } else if p[i].0 == name {
        Some(i)
    } else {
        first_entry(p, name, i + 1)
    }
}

/// A pose set: in place where the name is known, at the end where it is new.
pub open spec fn upserted(
    p: Seq<(Seq<char>, Seq<Scalar>)>,
    name: Seq<char>,
    q: Seq<Scalar>,
) -> Seq<(Seq<char>, Seq<Scalar>)> {
    match first_entry(p, name, 0) {
        Some(i) => p.update(i, (name, q)),
        None => p.push((name, q)),
    }
}

/// The entries of other names.
pub open spec fn without(p: Seq<(Seq<char>, Seq<Scalar>)>, name: Seq<char>) -> Seq<
    (Seq<char>, Seq<Scalar>),
>
    decreases p.len(),
{
    if p.len() == 0 {
        Seq::empty()
    } else if p.last().0 == name {
        without(p.drop_last(), name)
    } else {
        without(p.drop_last(), name).push(p.last())
    }
}

impl Default for PoseLibrary {
    fn default() -> (r: PoseLibrary)
        ensures
            r@ == Seq::<(Seq<char>, Seq<Scalar>)>::empty(),
    {
        PoseLibrary::new()
    }
}

impl PoseLibrary {
    pub fn new() -> (r: PoseLibrary)
        ensures
            r@ == Seq::<(Seq<char>, Seq<Scalar>)>::empty(),
    {
        let r = PoseLibrary { poses: Vec::new() };
        assert(r@ =~= Seq::empty());
        r
    }

    fn find(&self, name: &String) -> (r: Option<usize>)
        ensures
            match r {
                Some(i) => first_entry(self@, name@, 0) == Some(i as int) && i < self.poses.len(),
                None => first_entry(self@, name@, 0) is None,
            },
    {
        let mut i: usize = 0;
        while i < self.poses.len()
            invariant
                i <= self.poses.len(),
                first_entry(self@, name@, 0) == first_entry(self@, name@, i as int),
            decreases self.poses.len() - i,
        {
            if same_string(&self.poses[i].name, name) {
                return Some(i);
            }
            i = i + 1;
        }
        None
    }

    /// Sets a pose under a name.
    pub fn upsert(&mut self, name: String, q: Vec<Scalar>)
        ensures
            final(self)@ == upserted(old(self)@, name@, q@),
    {
        let ghost before = self.poses@;
        match self.find(&name) {
            Some(i) => {
                let ghost e = (name@, q@);
                self.poses.set(i, NamedPose { name, q });
                assert(entries(self.poses@) =~= entries(before).update(i as int, e));
            },
            None => {
                let ghost e = (name@, q@);
                self.poses.push(NamedPose { name, q });
                assert(entries(self.poses@) =~= entries(before).push(e));
            },
        }
    }

    /// The pose of a name.
    pub fn get(&self, name: &str) -> (r: Option<&NamedPose>)
        ensures
            match r {
                Some(p) => match first_entry(self@, name@, 0) {
                    Some(i) => (p.name@, p.q@) == self@[i],
                    None => false,
                },
                None => first_entry(self@, name@, 0) is None,
            },
    {
        let mut i: usize = 0;
        while i < self.poses.len()
            invariant
                i <= self.poses.len(),
                first_entry(self@, name@, 0) == first_entry(self@, name@, i as int),
            decreases self.poses.len() - i,
        {
            let own = chars_of(self.poses[i].name.as_str());
            if is_text(&own, name) {
                return Some(&self.poses[i]);
            }
            i = i + 1;
        }
        None
    }

    /// Forgets the poses of a name.
    pub fn remove(&mut self, name: &str)
        ensures
            final(self)@ == without(old(self)@, name@),
    {
        let ghost all = self@;
        let mut i: usize = self.poses.len();
        let mut kept: Vec<NamedPose> = Vec::new();
        let mut rest: Vec<NamedPose> = Vec::new();
        std::mem::swap(&mut rest, &mut self.poses);
        // Walk from the end, then put what is kept back in order.
        assert(all.take(i as int) =~= all);
        let ghost mut tail: Seq<(Seq<char>, Seq<Scalar>)> = Seq::empty();
        assert(entries(kept@).reverse() =~= tail);
        while rest.len() > 0
            invariant
                rest.len() == i,
                i <= all.len(),
                entries(rest@) == all.take(i as int),
                entries(kept@).reverse() == tail,
                without(all, name@) == without(all.take(i as int), name@) + tail,
            decreases rest.len(),
        {
            let ghost rv = rest@;
            match rest.pop() {
                Some(p) => {
                    let own = chars_of(p.name.as_str());
                    i = i - 1;
                    proof {
                        assert(entries(rest@) =~= all.take(i as int)) by {
                            assert(rest@ =~= rv.drop_last());
                            assert forall|k: int| 0 <= k < i implies entries(rest@)[k] == all[k] by {
                                assert(entries(rv)[k] == all.take(i + 1)[k]);
                            }
                        }
                        assert(all.take(i + 1).drop_last() =~= all.take(i as int));
                        assert(entries(rv)[i as int] == all.take(i + 1)[i as int]);
                        assert(all.take(i + 1).last() == (p.name@, p.q@));
                    }
                    if !is_text(&own, name) {
                        let ghost kv = kept@;
                        let ghost e = (p.name@, p.q@);
                        kept.push(p);
                        proof {
                            assert(entries(kept@) =~= entries(kv).push(e));
                            assert(entries(kept@).reverse() =~= seq![e] + tail);
                            assert(without(all.take(i as int), name@).push(e) + tail =~= without(
                                all.take(i as int),
                                name@,
                            ) + (seq![e] + tail));
                            tail = seq![e] + tail;
                        }
                    }
                },
                None => {},
            }
        }
        proof {
            assert(without(all.take(0), name@) =~= Seq::empty());
            assert(without(all, name@) =~= tail);
        }
        let mut out: Vec<NamedPose> = Vec::new();
        let ghost full = entries(kept@);
        while kept.len() > 0
            invariant
                kept.len() <= full.len(),
                entries(kept@) == full.take(kept@.len() as int),
                entries(out@) == full.skip(kept@.len() as int).reverse(),
            decreases kept.len(),
        {
            let ghost kv = kept@;
            let ghost ov = out@;
            match kept.pop() {
                Some(p) => {
                    let ghost e = (p.name@, p.q@);
                    out.push(p);
                    proof {
                        let k = kept@.len() as int;
                        assert(kept@ =~= kv.drop_last());
                        assert(entries(kv)[k] == full.take(k + 1)[k]);
                        assert(full[k] == e);
                        assert(entries(kept@) =~= full.take(k)) by {
                            assert forall|j: int| 0 <= j < k implies entries(kept@)[j]
                                == full[j] by {
                                assert(entries(kv)[j] == full.take(k + 1)[j]);
                            }
                        }
                        assert(entries(out@) =~= entries(ov).push(e));
                        assert(full.skip(k).reverse() =~= full.skip(k + 1).reverse().push(e));
                    }
                },
                None => {},
            }
        }
        proof {
            assert(full.skip(0) =~= full);
            assert(entries(out@) == full.reverse());
        }
        self.poses = out;
    }

    /// All poses, in order.
    pub fn list(&self) -> (r: &[NamedPose])
        ensures
            entries(r@) == self@,
    {
        self.poses.as_slice()
    }

    /// Forgets all poses.
    pub fn clear(&mut self)
        ensures
            final(self)@ == Seq::<(Seq<char>, Seq<Scalar>)>::empty(),
    {
        self.poses = Vec::new();
        assert(self@ =~= Seq::empty());
    }
}

proof fn lemma_first_entry(p: Seq<(Seq<char>, Seq<Scalar>)>, name: Seq<char>, i: int)
    requires
        0 <= i,
    ensures
        match first_entry(p, name, i) {
            Some(k) => i <= k < p.len() && p[k].0 == name && forall|j: int|
                i <= j < k ==> (#[trigger] p[j]).0 != name,
            None => forall|j: int| i <= j < p.len() ==> (#[trigger] p[j]).0 != name,
        },
    decreases p.len() - i,
{
    if i < p.len() && p[i].0 != name {
        lemma_first_entry(p, name, i + 1);
    }
}

/// What is set under a name is what the name gives.
pub proof fn law_get_after_upsert(
    p: Seq<(Seq<char>, Seq<Scalar>)>,
    name: Seq<char>,
    q: Seq<Scalar>,
)
    ensures
        match first_entry(upserted(p, name, q), name, 0) {
            Some(i) => upserted(p, name, q)[i] == (name, q),
            None => false,
        },
{
    lemma_first_entry(p, name, 0);
    lemma_first_entry(upserted(p, name, q), name, 0);
    let u = upserted(p, name, q);
    match first_entry(p, name, 0) {
        Some(i) => {
            assert(u[i].0 == name);
            match first_entry(u, name, 0) {
                Some(k) => {
                    if k < i {
                        assert(u[k] == p[k]);
                    }
                },
                None => {},
            }
        },
        None => {
            assert(u[p.len() as int].0 == name);
            match first_entry(u, name, 0) {
                Some(k) => {
                    if k < p.len() {
                        assert(u[k] == p[k]);
                    }
                },
                None => {},
            }
        },
    }
}

/// A name that was removed gives nothing.
pub proof fn law_removed_name_is_gone(p: Seq<(Seq<char>, Seq<Scalar>)>, name: Seq<char>)
    ensures
        first_entry(without(p, name), name, 0) is None,
{
    lemma_without(p, name);
    lemma_first_entry(without(p, name), name, 0);
}

proof fn lemma_without(p: Seq<(Seq<char>, Seq<Scalar>)>, name: Seq<char>)
    ensures
        forall|i: int|
            0 <= i < without(p, name).len() ==> (#[trigger] without(p, name)[i]).0 != name,
    decreases p.len(),
{
    if p.len() > 0 {
        lemma_without(p.drop_last(), name);
        let w = without(p, name);
        let h = without(p.drop_last(), name);
        assert forall|i: int| 0 <= i < w.len() implies (#[trigger] w[i]).0 != name by {
            if i < h.len() {
                assert(w[i] == h[i]);
            }
        }
    }
}

} // verus!
