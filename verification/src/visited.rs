//! The per-traversal visited set.
//!
//! A membership structure over node identifiers in `[0, capacity)` with
//! amortized constant-time `contains` and `insert`.  The graph may have
//! tens of billions of nodes while one traversal reaches only a handful,
//! so the representation is adaptive: it starts as a small hash-based set
//! and converts to a dense bit table of length `capacity` once occupancy
//! passes a threshold.  The representation is invisible to callers; the
//! contract speaks only of the abstract set of inserted identifiers.

use vstd::prelude::*;

use std::collections::HashSet;

verus! {

broadcast use vstd::std_specs::hash::group_hash_axioms;

/// An adaptive membership set over `[0, capacity)`.
pub struct VisitedSet {
    capacity: usize,
    dense: bool,
    /// Members while sparse.
    members: HashSet<usize>,
    /// Insertion order while sparse; replayed on conversion.
    log: Vec<usize>,
    /// One flag per identifier once dense.
    bits: Vec<bool>,
}

impl View for VisitedSet {
    type V = Set<usize>;

    closed spec fn view(&self) -> Set<usize> {
        if self.dense {
            Set::new(|v: usize| v < self.bits@.len() && self.bits@[v as int])
        } else {
            self.members@
        }
    }
}

impl VisitedSet {
    /// The capacity the set was made with.
    pub closed spec fn cap(self) -> usize {
        self.capacity
    }

    /// The representation's bookkeeping holds together.
    pub closed spec fn wf(self) -> bool {
        if self.dense {
            self.bits@.len() == self.capacity
        } else {
            &&& self.log@.to_set() == self.members@
            &&& forall|v: usize| self.members@.contains(v) ==> v < self.capacity
        }
    }

    /// The set of members is finite and no larger than the capacity.
    pub proof fn lemma_card(self)
        requires
            self.wf(),
        ensures
            self@.finite(),
            self@.len() <= self.cap(),
    {
        let r = Set::<usize>::range(0, self.capacity);
        vstd::set_lib::range_set_properties::<usize>(0, self.capacity);
        assert(self@.subset_of(r));
        vstd::set_lib::lemma_len_subset(self@, r);
    }

    /// Makes an empty set sized to hold identifiers below `capacity`.
    pub fn new(capacity: usize) -> (r: VisitedSet)
        ensures
            r.wf(),
            r.cap() == capacity,
            r@ == Set::<usize>::empty(),
    {
        let r = VisitedSet {
            capacity,
            dense: false,
            members: HashSet::new(),
            log: Vec::new(),
            bits: Vec::new(),
        };
        proof {
            assert(r.log@.to_set() =~= r.members@);
        }
        r
    }

    /// Reports whether `v` has been inserted.
    pub fn contains(&self, v: usize) -> (r: bool)
        requires
            self.wf(),
            v < self.cap(),
        ensures
            r == self@.contains(v),
    {
        if self.dense {
            self.bits[v]
        } else {
            self.members.contains(&v)
        }
    }

    /// Inserts `v`; inserting a member again changes nothing.
    pub fn insert(&mut self, v: usize)
        requires
            old(self).wf(),
            v < old(self).cap(),
        ensures
            final(self).wf(),
            final(self).cap() == old(self).cap(),
            final(self)@ == old(self)@.insert(v),
    {
        if self.dense {
            self.bits[v] = true;
            proof {
                assert(self@ =~= old(self)@.insert(v));
            }
        } else {
            let already = self.members.contains(&v);
            if !already {
                self.members.insert(v);
                self.log.push(v);
                proof {
                    broadcast use vstd::seq_lib::group_seq_properties;

                    assert(self.log@.to_set() =~= old(self).log@.to_set().insert(v));
                }
            } else {
                proof {
                    assert(self@ =~= old(self)@.insert(v));
                }
            }
            if self.members.len() > self.capacity / 64 {
                self.make_dense();
            }
        }
    }

    /// Replays the members into a dense bit table of length `capacity`.
    fn make_dense(&mut self)
        requires
            old(self).wf(),
            !old(self).dense,
        ensures
            final(self).wf(),
            final(self).cap() == old(self).cap(),
            final(self)@ == old(self)@,
    {
        let cap = self.capacity;
        let mut bits: Vec<bool> = Vec::new();
        while bits.len() < cap
            invariant
                bits@.len() <= cap,
                forall|w: int| 0 <= w < bits@.len() ==> !bits@[w],
            decreases cap - bits@.len(),
        {
            bits.push(false);
        }
        let ln = self.log.len();
        let mut j: usize = 0;
        while j < ln
            invariant
                self == old(self),
                old(self).wf(),
                !old(self).dense,
                cap == old(self).capacity,
                ln == self.log@.len(),
                0 <= j <= ln,
                bits@.len() == cap,
                forall|w: usize| w < cap ==> (bits@[w as int] <==> self.log@.take(j as int).contains(w)),
            decreases ln - j,
        {
            let x = self.log[j];
            proof {
                assert(self.log@.contains(self.log@[j as int]));
                assert(self.log@.to_set().contains(x));
            }
            let ghost bits_pre = bits@;
            bits[x] = true;
            proof {
                let t1 = self.log@.take(j as int);
                let t2 = self.log@.take(j + 1);
                assert(t2 =~= t1.push(x));
                assert(bits@ == bits_pre.update(x as int, true));
                assert forall|w: usize| w < cap implies (bits@[w as int] <==> t2.contains(w)) by {
                    if w == x {
                        assert(bits@[x as int]);
                        assert(t2[t1.len() as int] == x);
                        assert(t2.contains(x));
                    } else {
                        assert(bits@[w as int] == bits_pre[w as int]);
                        if t2.contains(w) {
                            let i = choose|i: int| 0 <= i < t2.len() && t2[i] == w;
                            assert(i < t1.len());
                            assert(t1[i] == w);
                            assert(t1.contains(w));
                        }
                        if t1.contains(w) {
                            let i = choose|i: int| 0 <= i < t1.len() && t1[i] == w;
                            assert(t2[i] == w);
                            assert(t2.contains(w));
                        }
                    }
                }
            }
            j += 1;
        }
        self.bits = bits;
        self.dense = true;
        proof {
            assert(self.log@.take(ln as int) =~= self.log@);
            assert forall|w: usize| #![auto] self@.contains(w) <==> old(self)@.contains(w) by {
                assert(self.log@.contains(w) <==> self.log@.to_set().contains(w));
            }
            assert(self@ =~= old(self)@);
        }
    }
}

} // verus!
