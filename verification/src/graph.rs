//! The graph as the traversal sees it.
//!
//! The compressed graph engine is an external collaborator; the traversal
//! only ever reads four things out of it: the node count, the forward
//! successors of a node, the identifier of a node, and the node (if any)
//! that carries a given identifier.  [`Graph`] holds exactly those four
//! views as plain values, so everything the traversal does with them is
//! verified; loading them out of an on-disk graph is the caller's business.
//!
//! Node identifiers are dense integers in `[0, node count)`.

use vstd::prelude::*;

use crate::ids::{CanonicalId, IdView};

verus! {

/// A loaded graph: forward successor lists and per-node identifiers.
pub struct Graph {
    /// `succs[u]` lists the forward successors of node `u`.
    pub succs: Vec<Vec<usize>>,
    /// `ids[u]` is the canonical identifier of node `u`.
    pub ids: Vec<CanonicalId>,
}

impl Graph {
    /// The number of nodes.
    pub open spec fn node_count(self) -> int {
        self.succs@.len() as int
    }

    /// Every node has an identifier and every edge ends inside the graph.
    pub open spec fn wf(self) -> bool {
        &&& self.ids@.len() == self.succs@.len()
        &&& forall|u: int, k: int|
            0 <= u < self.succs@.len() && 0 <= k < self.succs@[u]@.len()
                ==> self.succs@[u]@[k] < self.succs@.len()
    }

    /// There is a forward edge from `u` to `v`.
    pub open spec fn edge(self, u: usize, v: usize) -> bool {
        &&& u < self.succs@.len()
        &&& self.succs@[u as int]@.contains(v)
    }

    /// The node carrying identifier `id`, scanning upward from node `i`.
    pub open spec fn lookup_from(self, id: IdView, i: int) -> Option<usize>
        decreases self.ids@.len() - i,
    {
        if i < 0 || i >= self.ids@.len() {
            None
        } else if self.ids@[i]@ == id {
            Some(i as usize)
        } else {
            self.lookup_from(id, i + 1)
        }
    }

    /// The node carrying identifier `id`, if any.
    pub open spec fn lookup_spec(self, id: IdView) -> Option<usize> {
        self.lookup_from(id, 0)
    }

    /// A found node lies inside the graph and carries the identifier asked for.
    pub proof fn lemma_lookup_found(self, id: IdView, i: int)
        requires
            self.lookup_from(id, i) is Some,
        ensures
            0 <= self.lookup_from(id, i)->Some_0 < self.ids@.len(),
            self.ids@[self.lookup_from(id, i)->Some_0 as int]@ == id,
        decreases self.ids@.len() - i,
    {
        if i < 0 || i >= self.ids@.len() {
        } else if self.ids@[i]@ == id {
            assert(self.ids.len() == self.ids@.len());
            assert(i as usize as int == i);
        } else {
            self.lemma_lookup_found(id, i + 1);
            assert(self.lookup_from(id, i) == self.lookup_from(id, i + 1));
        }
    }

    /// Checks the well-formedness of the loaded data: as many identifiers
    /// as nodes, and no edge leaving the graph.
    pub fn check_wf(&self) -> (r: bool)
        ensures
            r == self.wf(),
    {
        let n = self.succs.len();
        if self.ids.len() != n {
            return false;
        }
        let mut u: usize = 0;
        while u < n
            invariant
                n == self.succs@.len(),
                0 <= u <= n,
                forall|x: int, k: int|
                    0 <= x < u && 0 <= k < self.succs@[x]@.len() ==> self.succs@[x]@[k] < n,
            decreases n - u,
        {
            let row = &self.succs[u];
            let rn = row.len();
            let mut k: usize = 0;
            while k < rn
                invariant
                    n == self.succs@.len(),
                    0 <= u < n,
                    rn == row@.len(),
                    row@ == self.succs@[u as int]@,
                    0 <= k <= rn,
                    forall|j: int| 0 <= j < k ==> row@[j] < n,
                decreases rn - k,
            {
                if row[k] >= n {
                    return false;
                }
                k += 1;
            }
            u += 1;
        }
        true
    }

    /// The number of nodes of the loaded graph.
    pub fn num_nodes(&self) -> (r: usize)
        ensures
            r == self.node_count(),
    {
        self.succs.len()
    }

    /// The forward successors of node `u`.
    pub fn successors(&self, u: usize) -> (r: &Vec<usize>)
        requires
            u < self.node_count(),
        ensures
            r@ == self.succs@[u as int]@,
    {
        &self.succs[u]
    }

    /// Finds the node carrying identifier `id`, if any.
    pub fn lookup(&self, id: &CanonicalId) -> (r: Option<usize>)
        ensures
            r == self.lookup_spec(id@),
    {
        let n = self.ids.len();
        let mut i: usize = 0;
        while i < n
            invariant
                n == self.ids@.len(),
                0 <= i <= n,
                self.lookup_from(id@, i as int) == self.lookup_spec(id@),
            decreases n - i,
    {
            if self.ids[i].same_id(id) {
                return Some(i);
            }
            i += 1;
        }
        None
    }
}

/// There is a forward path in `g` along `p`.
pub open spec fn is_path(g: Graph, p: Seq<usize>) -> bool {
    &&& p.len() >= 1
    &&& forall|k: int| 0 <= k < p.len() - 1 ==> g.edge(#[trigger] p[k], p[k + 1])
}

/// Node `v` is forward-reachable from node `s` in `g`.
pub open spec fn reachable(g: Graph, s: usize, v: usize) -> bool {
    exists|p: Seq<usize>|
        {
            &&& #[trigger] is_path(g, p)
            &&& p[0] == s
            &&& p[p.len() - 1] == v
        }
}

/// The set of nodes forward-reachable from `s` in `g`.
pub open spec fn reach_set(g: Graph, s: usize) -> Set<usize> {
    Set::new(|v: usize| reachable(g, s, v))
}

/// Every node reaches itself.
pub proof fn lemma_reach_refl(g: Graph, s: usize)
    ensures
        reachable(g, s, s),
{
    let p = seq![s];
    assert(is_path(g, p));
}

/// Reachability extends along an edge.
pub proof fn lemma_reach_step(g: Graph, s: usize, u: usize, v: usize)
    requires
        reachable(g, s, u),
        g.edge(u, v),
    ensures
        reachable(g, s, v),
{
    let p = choose|p: Seq<usize>|
        {
            &&& #[trigger] is_path(g, p)
            &&& p[0] == s
            &&& p[p.len() - 1] == u
        };
    let q = p.push(v);
    assert forall|k: int| 0 <= k < q.len() - 1 implies g.edge(#[trigger] q[k], q[k + 1]) by {
        if k < p.len() - 1 {
            assert(g.edge(p[k], p[k + 1]));
        }
    }
    assert(is_path(g, q));
    assert(q[0] == s && q[q.len() - 1] == v);
}

/// `r` contains every successor of each of its members.
pub open spec fn closed_under_succ(g: Graph, r: Set<usize>) -> bool {
    forall|u: usize, v: usize| r.contains(u) && #[trigger] g.edge(u, v) ==> r.contains(v)
}

/// Walking a path out of a successor-closed set never leaves it.
proof fn lemma_path_stays_in_closed(g: Graph, r: Set<usize>, p: Seq<usize>)
    requires
        closed_under_succ(g, r),
        is_path(g, p),
        r.contains(p[0]),
    ensures
        r.contains(p[p.len() - 1]),
    decreases p.len(),
{
    if p.len() > 1 {
        assert(g.edge(p[0], p[1]));
        let q = p.drop_first();
        assert(is_path(g, q));
        assert(r.contains(q[0]));
        lemma_path_stays_in_closed(g, r, q);
        assert(q[q.len() - 1] == p[p.len() - 1]);
    }
}

/// A successor-closed set that holds `s` holds everything reachable from `s`.
pub proof fn lemma_closed_contains_reachable(g: Graph, r: Set<usize>, s: usize, v: usize)
    requires
        closed_under_succ(g, r),
        r.contains(s),
        reachable(g, s, v),
    ensures
        r.contains(v),
{
    let p = choose|p: Seq<usize>|
        {
            &&& #[trigger] is_path(g, p)
            &&& p[0] == s
            &&& p[p.len() - 1] == v
        };
    lemma_path_stays_in_closed(g, r, p);
}

} // verus!
