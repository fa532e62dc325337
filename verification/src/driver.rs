//! Processing a list of origins.
//!
//! The driver walks the origin list in input order.  Each origin is
//! resolved; a resolved origin seeds a traversal that extends the shared
//! result set, and an unresolved one is appended — verbatim, in input
//! order, once per occurrence — to the list of unknown origins.

use vstd::prelude::*;

use std::collections::HashSet;

use crate::bytes::push_all;
use crate::graph::{closed_under_succ, reach_set, reachable, Graph};
use crate::resolve::{resolve_origin, resolve_spec};
use crate::traverse::traverse_from;

verus! {

broadcast use vstd::std_specs::hash::group_hash_axioms;

/// Processing origin `url` puts node `v` into the result set: the URL
/// resolves to some seed from which `v` is forward-reachable.
pub open spec fn contributes(g: Graph, url: Seq<u8>, allow: bool, v: usize) -> bool {
    match resolve_spec(g, url, allow) {
        Some(s) => reachable(g, s, v),
        None => false,
    }
}

/// The nodes a run over `origins` accumulates: the union over the list of
/// each origin's contribution.
pub open spec fn subgraph_spec(g: Graph, origins: Seq<Seq<u8>>, allow: bool) -> Set<usize> {
    Set::new(
        |v: usize|
            exists|i: int| 0 <= i < origins.len() && #[trigger] contributes(g, origins[i], allow, v),
    )
}

/// The origins of the list that resolve to no node, kept verbatim and in
/// input order.
pub open spec fn unknown_spec(g: Graph, origins: Seq<Seq<u8>>, allow: bool) -> Seq<Seq<u8>>
    decreases origins.len(),
{
    if origins.len() == 0 {
        Seq::empty()
    } else {
        let rest = unknown_spec(g, origins.drop_last(), allow);
        if resolve_spec(g, origins.last(), allow) is None {
            rest.push(origins.last())
        } else {
            rest
        }
    }
}

/// A view indexing helper: the deep view of an element is the element's view.
proof fn lemma_deep_view_index(v: &Vec<Vec<u8>>, i: int)
    requires
        0 <= i < v@.len(),
    ensures
        v.deep_view().len() == v@.len(),
        v.deep_view()[i] == v@[i]@,
{
    assert(v.deep_view()[i] =~= v@[i]@);
}

/// Resolves every origin of `origins` in input order and returns the union
/// of the nodes reachable from the resolved ones, together with the
/// origins that resolved to no node — verbatim, in input order, once per
/// occurrence.
pub fn process_origins_and_build_subgraph(
    g: &Graph,
    origins: &Vec<Vec<u8>>,
    allow_protocol_variations: bool,
) -> (r: (HashSet<usize>, Vec<Vec<u8>>))
    requires
        g.wf(),
    ensures
        r.0@ == subgraph_spec(*g, origins.deep_view(), allow_protocol_variations),
        r.1.deep_view() == unknown_spec(*g, origins.deep_view(), allow_protocol_variations),
        closed_under_succ(*g, r.0@),
{
    let ghost dv = origins.deep_view();
    let ghost allow = allow_protocol_variations;
    let mut result: HashSet<usize> = HashSet::new();
    let mut unknown: Vec<Vec<u8>> = Vec::new();
    let on = origins.len();
    proof {
        assert(dv.len() == origins@.len()) by {
            assert(dv.len() == origins@.len());
        }
        assert(unknown.deep_view() =~= unknown_spec(*g, dv.take(0), allow));
    }
    let mut i: usize = 0;
    while i < on
        invariant
            g.wf(),
            on == origins@.len(),
            dv == origins.deep_view(),
            dv.len() == on,
            allow == allow_protocol_variations,
            0 <= i <= on,
            closed_under_succ(*g, result@),
            forall|v: usize|
                #[trigger] result@.contains(v) <==> exists|j: int|
                    0 <= j < i && #[trigger] contributes(*g, dv[j], allow, v),
            unknown.deep_view() == unknown_spec(*g, dv.take(i as int), allow),
        decreases on - i,
    {
        let url = &origins[i];
        proof {
            lemma_deep_view_index(origins, i as int);
            assert(url@ == dv[i as int]);
        }
        let ghost taken = dv.take(i as int);
        let ghost taken1 = dv.take(i + 1);
        proof {
            assert(taken1.drop_last() =~= taken);
            assert(taken1.last() == dv[i as int]);
        }
        let r = resolve_origin(g, url, allow_protocol_variations);
        match r {
            Some(seed) => {
                let ghost res_before = result@;
                traverse_from(g, seed, &mut result);
                proof {
                    assert(resolve_spec(*g, dv[i as int], allow) == Some(seed));
                    assert forall|v: usize| #[trigger] result@.contains(v) implies exists|j: int|
                        0 <= j < i + 1 && #[trigger] contributes(*g, dv[j], allow, v) by {
                        if res_before.contains(v) {
                            let j = choose|j: int|
                                0 <= j < i && #[trigger] contributes(*g, dv[j], allow, v);
                            assert(contributes(*g, dv[j], allow, v));
                        } else {
                            assert(reach_set(*g, seed).contains(v));
                            assert(contributes(*g, dv[i as int], allow, v));
                        }
                    }
                    assert forall|v: usize|
                        (exists|j: int| 0 <= j < i + 1 && #[trigger] contributes(*g, dv[j], allow, v))
                        implies #[trigger] result@.contains(v) by {
                        let j = choose|j: int|
                            0 <= j < i + 1 && #[trigger] contributes(*g, dv[j], allow, v);
                        if j < i {
                            assert(res_before.contains(v));
                        } else {
                            assert(reachable(*g, seed, v));
                            assert(reach_set(*g, seed).contains(v));
                        }
                        assert(result@ == res_before.union(reach_set(*g, seed)));
                    }
                    assert(unknown_spec(*g, taken1, allow) == unknown_spec(*g, taken, allow));
                }
            },
            None => {
                let mut copy: Vec<u8> = Vec::new();
                push_all(&mut copy, url);
                proof {
                    assert(copy@ =~= url@);
                }
                unknown.push(copy);
                proof {
                    assert(resolve_spec(*g, dv[i as int], allow) is None);
                    assert(unknown_spec(*g, taken1, allow) == unknown_spec(*g, taken, allow).push(
                        dv[i as int],
                    ));
                    assert(unknown.deep_view() =~= unknown_spec(*g, taken1, allow));
                }
            },
        }
        i += 1;
    }
    proof {
        assert(dv.take(on as int) =~= dv);
        assert(result@ =~= subgraph_spec(*g, dv, allow));
    }
    (result, unknown)
}

} // verus!
