//! The traversal engine.
//!
//! A breadth-first forward traversal from a seed node that extends a shared
//! result set with exactly the nodes reachable from the seed.  The result
//! set doubles as a cross-origin pruning device: a popped node that is
//! already in the result set is not expanded, which is sound because the
//! caller only ever passes in a successor-closed result set — the union of
//! the reachable sets of earlier seeds — and anything reachable from such
//! a node is then already present.

use vstd::prelude::*;

use std::collections::HashSet;
use std::collections::VecDeque;

use crate::graph::{
    closed_under_succ, lemma_closed_contains_reachable, lemma_reach_refl, lemma_reach_step,
    reach_set, reachable, Graph,
};
use crate::visited::VisitedSet;

verus! {

broadcast use vstd::std_specs::hash::group_hash_axioms, vstd::std_specs::vecdeque::group_vec_dequeue_axioms;

/// Extends `result` with every node forward-reachable from `seed`.
///
/// The incoming `result` must be successor-closed; the traversal prunes at
/// nodes already present, and closedness is what makes that sound.  The
/// outgoing `result` is the union of the incoming one and the reachable
/// set of `seed`, and is successor-closed again.
pub fn traverse_from(g: &Graph, seed: usize, result: &mut HashSet<usize>)
    requires
        g.wf(),
        seed < g.node_count(),
        closed_under_succ(*g, old(result)@),
    ensures
        final(result)@ == old(result)@.union(reach_set(*g, seed)),
        closed_under_succ(*g, final(result)@),
{
    let ghost r0 = old(result)@;
    let n = g.num_nodes();
    let mut visited = VisitedSet::new(n);
    let mut queue: VecDeque<usize> = VecDeque::new();
    queue.push_back(seed);
    proof {
        lemma_reach_refl(*g, seed);
        visited.lemma_card();
        assert(queue@[0] == seed);
        assert(queue@.contains(seed));
    }
    while queue.len() > 0
        invariant
            g.wf(),
            seed < g.node_count(),
            n == g.node_count(),
            visited.wf(),
            visited.cap() == n,
            visited@.len() <= n,
            closed_under_succ(*g, r0),
            forall|k: int|
                0 <= k < queue@.len() ==> reachable(*g, seed, #[trigger] queue@[k]) && queue@[k]
                    < n,
            forall|v: usize| r0.contains(v) ==> #[trigger] result@.contains(v),
            forall|v: usize|
                #[trigger] result@.contains(v) ==> r0.contains(v) || reachable(*g, seed, v),
            forall|v: usize|
                #[trigger] visited@.contains(v) ==> queue@.contains(v) || result@.contains(v),
            forall|a: usize, b: usize|
                result@.contains(a) && #[trigger] g.edge(a, b) ==> visited@.contains(b)
                    || result@.contains(b),
            queue@.contains(seed) || result@.contains(seed),
        decreases n - visited@.len(), queue@.len(),
    {
        let ghost q0 = queue@;
        let ghost res1 = result@;
        let u = queue.pop_front().unwrap();
        let ghost q1 = queue@;
        let ghost v1 = visited@;
        proof {
            assert(u == q0[0]);
            assert(reachable(*g, seed, u));
        }
        let is_new = result.insert(u);
        proof {
            assert(result@ == res1.insert(u));
            assert forall|w: usize| q0.contains(w) implies w == u || queue@.contains(w) by {
                let i = choose|i: int| 0 <= i < q0.len() && q0[i] == w;
                if i > 0 {
                    assert(queue@[i - 1] == w);
                }
            }
            assert forall|w: usize| #[trigger] visited@.contains(w) implies queue@.contains(w)
                || result@.contains(w) by {
                assert(q0.contains(w) || res1.contains(w));
            }
            assert(queue@.contains(seed) || result@.contains(seed));
        }
        if is_new {
            let row = g.successors(u);
            let rn = row.len();
            let mut k: usize = 0;
            while k < rn
                invariant
                    g.wf(),
                    seed < g.node_count(),
                    n == g.node_count(),
                    visited.wf(),
                    visited.cap() == n,
                    u < n,
                    row@ == g.succs@[u as int]@,
                    rn == row@.len(),
                    0 <= k <= rn,
                    reachable(*g, seed, u),
                    closed_under_succ(*g, r0),
                    result@ == res1.insert(u),
                    forall|j: int|
                        0 <= j < queue@.len() ==> reachable(*g, seed, #[trigger] queue@[j])
                            && queue@[j] < n,
                    forall|v: usize| r0.contains(v) ==> #[trigger] result@.contains(v),
                    forall|v: usize|
                        #[trigger] result@.contains(v) ==> r0.contains(v) || reachable(
                            *g,
                            seed,
                            v,
                        ),
                    forall|v: usize|
                        #[trigger] visited@.contains(v) ==> queue@.contains(v)
                            || result@.contains(v),
                    forall|a: usize, b: usize|
                        result@.contains(a) && a != u && #[trigger] g.edge(a, b)
                            ==> visited@.contains(b) || result@.contains(b),
                    forall|j: int| 0 <= j < k ==> visited@.contains(#[trigger] row@[j]),
                    queue@.contains(seed) || result@.contains(seed),
                    v1.subset_of(visited@),
                    visited@.len() + q1.len() == v1.len() + queue@.len(),
                    queue@.len() >= q1.len(),
                decreases rn - k,
            {
                let v = row[k];
                proof {
                    assert(g.succs@[u as int]@.contains(v));
                    assert(g.edge(u, v));
                    assert(v < n);
                }
                if !visited.contains(v) {
                    proof {
                        visited.lemma_card();
                    }
                    let ghost qp = queue@;
                    let ghost vp = visited@;
                    visited.insert(v);
                    queue.push_back(v);
                    proof {
                        lemma_reach_step(*g, seed, u, v);
                        assert(queue@[queue@.len() - 1] == v);
                        assert(queue@.contains(v));
                        assert forall|w: usize| qp.contains(w) implies queue@.contains(w) by {
                            let i = choose|i: int| 0 <= i < qp.len() && qp[i] == w;
                            assert(queue@[i] == w);
                        }
                        assert forall|w: usize| #[trigger] visited@.contains(w) implies queue@.contains(
                            w,
                        ) || result@.contains(w) by {
                            if w != v {
                                assert(vp.contains(w));
                            }
                        }
                    }
                }
                k += 1;
            }
            proof {
                visited.lemma_card();
                assert forall|a: usize, b: usize|
                    result@.contains(a) && #[trigger] g.edge(a, b) implies visited@.contains(b)
                    || result@.contains(b) by {
                    if a == u {
                        let j = choose|j: int|
                            0 <= j < g.succs@[u as int]@.len() && g.succs@[u as int]@[j] == b;
                        assert(visited@.contains(row@[j]));
                    }
                }
            }
        } else {
            proof {
                assert(result@ == res1);
                assert(queue@.len() < q1.len() + 1);
            }
        }
    }
    proof {
        assert(queue@.len() == 0);
        assert forall|v: usize| #[trigger] visited@.contains(v) implies result@.contains(v) by {
            assert(!queue@.contains(v));
        }
        assert(closed_under_succ(*g, result@));
        assert(result@.contains(seed));
        assert forall|v: usize| reachable(*g, seed, v) implies result@.contains(v) by {
            lemma_closed_contains_reachable(*g, result@, seed, v);
        }
        assert(result@ =~= r0.union(reach_set(*g, seed)));
    }
}

} // verus!
