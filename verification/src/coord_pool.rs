use vstd::prelude::*;
use std::collections::HashSet;
use crate::utils::{lemma_coord_key_injective, spec_coord_key, coord_key, Coord};

verus! {

broadcast use vstd::std_specs::hash::group_hash_axioms;

/// An insertion-ordered collection of distinct coordinates, paired with a
/// membership set of packed coordinate keys for constant-time membership
/// tests. The two parts always hold exactly the same coordinates.
pub struct CoordPool {
    pub order: Vec<Coord>,
    pub members: HashSet<u64>,
}

impl View for CoordPool {
    type V = Seq<Coord>;

    open spec fn view(&self) -> Seq<Coord> {
        self.order@
    }
}

impl CoordPool {
    /// The invariant tying the ordered sequence to the membership set:
    /// all entries are well formed and distinct, every sequence entry's key is
    /// a member, and every member key is some sequence entry's key.
    pub open spec fn wf(self) -> bool {
        &&& forall|i: int| 0 <= i < self.order@.len() ==> (#[trigger] self.order@[i]).wf()
        &&& forall|i: int, j: int|
            0 <= i < j < self.order@.len() ==> self.order@[i] != self.order@[j]
        &&& forall|i: int| 0 <= i < self.order@.len()
            ==> self.members@.contains(#[trigger] spec_coord_key(self.order@[i]))
        &&& forall|k: u64| self.members@.contains(k)
            ==> exists|i: int| 0 <= i < self.order@.len()
                && spec_coord_key(#[trigger] self.order@[i]) == k
    }

    pub fn new() -> (r: CoordPool)
        ensures
            r.wf(),
            r@ =~= Seq::<Coord>::empty(),
    {
        CoordPool { order: Vec::new(), members: HashSet::new() }
    }

    pub fn len(&self) -> (r: usize)
        ensures
            r == self@.len(),
    {
        self.order.len()
    }

    pub fn is_empty(&self) -> (r: bool)
        ensures
            r == (self@.len() == 0),
    {
        self.order.len() == 0
    }

    pub fn get(&self, i: usize) -> (r: Coord)
        requires
            i < self@.len(),
        ensures
            r == self@[i as int],
    {
        self.order[i]
    }

    /// Membership in the pool, answered from the key set.
    pub fn contains(&self, c: Coord) -> (r: bool)
        requires
            self.wf(),
            c.wf(),
        ensures
            r == self@.contains(c),
    {
        let r = self.members.contains(&coord_key(c));
        proof {
            if r {
                let i = choose|i: int|
                    0 <= i < self.order@.len()
                        && spec_coord_key(self.order@[i]) == spec_coord_key(c);
                lemma_coord_key_injective(self.order@[i], c);
                assert(self@[i] == c);
            } else {
                if self@.contains(c) {
                    let i = choose|i: int| 0 <= i < self@.len() && self@[i] == c;
                    assert(self.members@.contains(spec_coord_key(self.order@[i])));
                }
            }
        }
        r
    }

    /// Adds a coordinate unless it is already present; appending keeps the
    /// recency order the searches rely on.
    pub fn insert(&mut self, c: Coord)
        requires
            old(self).wf(),
            c.wf(),
        ensures
            final(self).wf(),
            old(self)@.contains(c) ==> final(self)@ == old(self)@,
            !old(self)@.contains(c) ==> final(self)@ == old(self)@.push(c),
            final(self)@.contains(c),
            forall|d: Coord| #[trigger] final(self)@.contains(d)
                <==> (old(self)@.contains(d) || d == c),
    {
        if !self.contains(c) {
            self.order.push(c);
            self.members.insert(coord_key(c));
            proof {
                assert(self@[self@.len() - 1] == c);
                assert forall|k: u64| self.members@.contains(k)
                    implies exists|i: int| 0 <= i < self.order@.len()
                        && spec_coord_key(#[trigger] self.order@[i]) == k by {
                    if k == spec_coord_key(c) {
                        assert(spec_coord_key(self.order@[self.order@.len() - 1]) == k);
                    } else {
                        let i = choose|i: int| 0 <= i < old(self).order@.len()
                            && spec_coord_key(old(self).order@[i]) == k;
                        assert(spec_coord_key(self.order@[i]) == k);
                    }
                }
            }
        } else {
            proof {
                assert(self@.contains(c));
            }
        }
        proof {
            assert forall|d: Coord| #[trigger] self@.contains(d)
                implies (old(self)@.contains(d) || d == c) by {
                let i = choose|i: int| 0 <= i < self@.len() && self@[i] == d;
                if i < old(self)@.len() {
                    assert(old(self)@[i] == d);
                }
            }
            assert forall|d: Coord| old(self)@.contains(d) || d == c
                implies #[trigger] self@.contains(d) by {
                if old(self)@.contains(d) {
                    let i = choose|i: int| 0 <= i < old(self)@.len() && old(self)@[i] == d;
                    assert(self@[i] == d);
                }
            }
        }
    }

    /// Removes a coordinate from both parts; the remaining entries keep their
    /// relative order.
    pub fn remove(&mut self, c: Coord)
        requires
            old(self).wf(),
            c.wf(),
        ensures
            final(self).wf(),
            !final(self)@.contains(c),
            !old(self)@.contains(c) ==> final(self)@ == old(self)@,
            old(self)@.contains(c) ==> final(self)@.len() == old(self)@.len() - 1,
            forall|d: Coord| d != c
                ==> (#[trigger] final(self)@.contains(d) <==> old(self)@.contains(d)),
    {
        if !self.contains(c) {
            return;
        }
        let ghost oldseq = self.order@;
        let mut idx: usize = 0;
        while idx < self.order.len() && !(self.order[idx] == c)
            invariant
                self == old(self),
                self.wf(),
                idx <= self.order@.len(),
                self.order@ == oldseq,
                oldseq.contains(c),
                forall|i: int| 0 <= i < idx ==> oldseq[i] != c,
            decreases self.order@.len() - idx,
        {
            idx = idx + 1;
        }
        proof {
            if idx == oldseq.len() {
                let i = choose|i: int| 0 <= i < oldseq.len() && oldseq[i] == c;
                assert(false);
            }
            assert(oldseq[idx as int] == c);
        }
        let ghost i0 = idx as int;
        self.order.remove(idx);
        self.members.remove(&coord_key(c));
        proof {
            let news = self.order@;
            assert(news == oldseq.subrange(0, i0) + oldseq.subrange(i0 + 1, oldseq.len() as int));
            // distinctness and membership of survivors
            assert forall|i: int| 0 <= i < news.len()
                implies self.members@.contains(#[trigger] spec_coord_key(news[i])) by {
                let src = if i < i0 { i } else { i + 1 };
                assert(news[i] == oldseq[src]);
                assert(oldseq[src] != c) by {
                    if oldseq[src] == c {
                        assert(src != i0);
                        assert(oldseq[src] == oldseq[i0]);
                    }
                }
                lemma_coord_key_injective(oldseq[src], oldseq[src]);
                assert(spec_coord_key(oldseq[src]) != spec_coord_key(c)) by {
                    if spec_coord_key(oldseq[src]) == spec_coord_key(c) {
                        lemma_coord_key_injective(oldseq[src], c);
                    }
                }
            }
            assert forall|k: u64| self.members@.contains(k)
                implies exists|i: int| 0 <= i < news.len()
                    && spec_coord_key(#[trigger] news[i]) == k by {
                let i = choose|i: int| 0 <= i < oldseq.len()
                    && spec_coord_key(oldseq[i]) == k;
                assert(oldseq[i] != c) by {
                    if oldseq[i] == c {
                        assert(k == spec_coord_key(c));
                    }
                }
                assert(i != i0);
                let j = if i < i0 { i } else { i - 1 };
                assert(news[j] == oldseq[i]);
            }
            assert(!self@.contains(c)) by {
                if self@.contains(c) {
                    let i = choose|i: int| 0 <= i < news.len() && news[i] == c;
                    let src = if i < i0 { i } else { i + 1 };
                    assert(news[i] == oldseq[src]);
                    assert(oldseq[src] == oldseq[i0]);
                }
            }
            assert forall|d: Coord| d != c && old(self)@.contains(d)
                implies #[trigger] self@.contains(d) by {
                let i = choose|i: int| 0 <= i < oldseq.len() && oldseq[i] == d;
                assert(i != i0);
                let j = if i < i0 { i } else { i - 1 };
                assert(news[j] == oldseq[i]);
            }
            assert forall|d: Coord| d != c && self@.contains(d)
                implies old(self)@.contains(d) by {
                let i = choose|i: int| 0 <= i < news.len() && news[i] == d;
                let src = if i < i0 { i } else { i + 1 };
                assert(oldseq[src] == d);
            }
        }
    }
}

/// The two parts of a well-formed pool agree exactly: a coordinate stands
/// in the ordered sequence precisely when its key stands in the membership
/// set.
pub proof fn lemma_pool_parts_agree(p: &CoordPool, c: Coord)
    requires
        p.wf(),
        c.wf(),
    ensures
        p@.contains(c) <==> p.members@.contains(spec_coord_key(c)),
{
    if p@.contains(c) {
        let i = choose|i: int| 0 <= i < p@.len() && p@[i] == c;
        assert(p.members@.contains(spec_coord_key(p.order@[i])));
    }
    if p.members@.contains(spec_coord_key(c)) {
        let i = choose|i: int|
            0 <= i < p.order@.len() && spec_coord_key(p.order@[i]) == spec_coord_key(c);
        lemma_coord_key_injective(p.order@[i], c);
        assert(p@[i] == c);
    }
}

} // verus!
