//! Laws of the run as a whole.
//!
//! These proof functions state, over the same specification functions the
//! executable contracts use, the properties a whole run guarantees:
//! completeness and soundness of the accumulated result set, independence
//! of origin order, idempotence of re-processing an origin, symmetry of
//! the protocol fallback, and faithful reporting of unknown origins.

use vstd::prelude::*;

use vstd::multiset::Multiset;

use crate::bytes::alternative_url;
use crate::driver::{contributes, subgraph_spec, unknown_spec};
use crate::graph::{reachable, Graph};
use crate::ids::origin_id;
use crate::resolve::resolve_spec;

verus! {

broadcast use vstd::multiset::group_multiset_axioms;

/// Reachability completeness: when some origin of the list resolves to
/// seed `s`, every node forward-reachable from `s` is in the result set.
pub proof fn lemma_reachability_completeness(
    g: Graph,
    origins: Seq<Seq<u8>>,
    allow: bool,
    i: int,
    s: usize,
    v: usize,
)
    requires
        0 <= i < origins.len(),
        resolve_spec(g, origins[i], allow) == Some(s),
        reachable(g, s, v),
    ensures
        subgraph_spec(g, origins, allow).contains(v),
{
    assert(contributes(g, origins[i], allow, v));
}

/// Reachability soundness: every node of the result set is
/// forward-reachable from the node some origin of the list resolved to.
pub proof fn lemma_reachability_soundness(g: Graph, origins: Seq<Seq<u8>>, allow: bool, v: usize)
    requires
        subgraph_spec(g, origins, allow).contains(v),
    ensures
        exists|i: int|
            0 <= i < origins.len() && (#[trigger] resolve_spec(g, origins[i], allow)) is Some
                && reachable(g, resolve_spec(g, origins[i], allow)->Some_0, v),
{
    let i = choose|i: int| 0 <= i < origins.len() && #[trigger] contributes(g, origins[i], allow, v);
    assert(resolve_spec(g, origins[i], allow) is Some);
    assert(reachable(g, resolve_spec(g, origins[i], allow)->Some_0, v));
}

/// Union independence of order: two origin lists that are permutations of
/// one another accumulate the same result set.
pub proof fn lemma_union_independent_of_order(
    g: Graph,
    a: Seq<Seq<u8>>,
    b: Seq<Seq<u8>>,
    allow: bool,
)
    requires
        a.to_multiset() == b.to_multiset(),
    ensures
        subgraph_spec(g, a, allow) == subgraph_spec(g, b, allow),
{
    a.to_multiset_ensures();
    b.to_multiset_ensures();
    assert forall|v: usize|
        subgraph_spec(g, a, allow).contains(v) implies subgraph_spec(g, b, allow).contains(v) by {
        let i = choose|i: int| 0 <= i < a.len() && #[trigger] contributes(g, a[i], allow, v);
        assert(a.contains(a[i]));
        assert(a.to_multiset().count(a[i]) > 0);
        assert(b.to_multiset().count(a[i]) > 0);
        assert(b.contains(a[i]));
        let j = choose|j: int| 0 <= j < b.len() && b[j] == a[i];
        assert(contributes(g, b[j], allow, v));
    }
    assert forall|v: usize|
        subgraph_spec(g, b, allow).contains(v) implies subgraph_spec(g, a, allow).contains(v) by {
        let i = choose|i: int| 0 <= i < b.len() && #[trigger] contributes(g, b[i], allow, v);
        assert(b.contains(b[i]));
        assert(b.to_multiset().count(b[i]) > 0);
        assert(a.to_multiset().count(b[i]) > 0);
        assert(a.contains(b[i]));
        let j = choose|j: int| 0 <= j < a.len() && a[j] == b[i];
        assert(contributes(g, a[j], allow, v));
    }
    assert(subgraph_spec(g, a, allow) =~= subgraph_spec(g, b, allow));
}

/// Idempotent re-processing: processing an origin of the list once more
/// leaves the result set as it was.
pub proof fn lemma_reprocessing_idempotent(g: Graph, origins: Seq<Seq<u8>>, allow: bool, i: int)
    requires
        0 <= i < origins.len(),
    ensures
        subgraph_spec(g, origins.push(origins[i]), allow) == subgraph_spec(g, origins, allow),
{
    let with_dup = origins.push(origins[i]);
    assert forall|v: usize|
        subgraph_spec(g, with_dup, allow).contains(v) implies subgraph_spec(
        g,
        origins,
        allow,
    ).contains(v) by {
        let j = choose|j: int| 0 <= j < with_dup.len() && #[trigger] contributes(g, with_dup[j], allow, v);
        if j < origins.len() {
            assert(contributes(g, origins[j], allow, v));
        } else {
            assert(with_dup[j] == origins[i]);
            assert(contributes(g, origins[i], allow, v));
        }
    }
    assert forall|v: usize|
        subgraph_spec(g, origins, allow).contains(v) implies subgraph_spec(
        g,
        with_dup,
        allow,
    ).contains(v) by {
        let j = choose|j: int| 0 <= j < origins.len() && #[trigger] contributes(g, origins[j], allow, v);
        assert(contributes(g, with_dup[j], allow, v));
    }
    assert(subgraph_spec(g, with_dup, allow) =~= subgraph_spec(g, origins, allow));
}

/// Protocol fallback symmetry: when `u` resolves to `s` with the fallback
/// enabled and `u`'s protocol-swapped form carries an identifier of the
/// same node `s`, the swapped form resolves to `s` as well, and either URL
/// contributes the same nodes to the result set.
pub proof fn lemma_protocol_fallback_symmetry(g: Graph, u: Seq<u8>, s: usize)
    requires
        resolve_spec(g, u, true) == Some(s),
        g.lookup_spec(origin_id(alternative_url(u))) == Some(s),
    ensures
        resolve_spec(g, alternative_url(u), true) == Some(s),
        forall|v: usize|
            #[trigger] contributes(g, u, true, v) == contributes(g, alternative_url(u), true, v),
{
}

/// Unknown reporting: an origin that resolves to no node appears in the
/// unknown list exactly as often as it appears in the input.
pub proof fn lemma_unknown_once_per_occurrence(
    g: Graph,
    origins: Seq<Seq<u8>>,
    allow: bool,
    u: Seq<u8>,
)
    requires
        resolve_spec(g, u, allow) is None,
    ensures
        unknown_spec(g, origins, allow).to_multiset().count(u) == origins.to_multiset().count(u),
    decreases origins.len(),
{
    if origins.len() == 0 {
        assert(origins =~= Seq::<Seq<u8>>::empty());
        assert(unknown_spec(g, origins, allow) == origins);
    } else {
        let rest = origins.drop_last();
        let last = origins.last();
        lemma_unknown_once_per_occurrence(g, rest, allow, u);
        rest.to_multiset_ensures();
        unknown_spec(g, rest, allow).to_multiset_ensures();
        assert(origins =~= rest.push(last));
        assert(origins.to_multiset() == rest.to_multiset().insert(last));
        let mu = unknown_spec(g, rest, allow).to_multiset();
        let mo = rest.to_multiset();
        let one = if last == u {
            1nat
        } else {
            0nat
        };
        assert(Multiset::<Seq<u8>>::singleton(last).count(u) == one);
        assert(mu.insert(last).count(u) == mu.count(u) + one);
        assert(mo.insert(last).count(u) == mo.count(u) + one);
        if resolve_spec(g, last, allow) is None {
            assert(unknown_spec(g, origins, allow) == unknown_spec(g, rest, allow).push(last));
            assert(unknown_spec(g, origins, allow).to_multiset() == mu.insert(last));
        } else {
            assert(unknown_spec(g, origins, allow) == unknown_spec(g, rest, allow));
            assert(last != u);
        }
    }
}

} // verus!
