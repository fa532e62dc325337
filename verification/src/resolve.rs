//! Resolution of origin URLs to nodes.
//!
//! An origin URL names a node through its canonical identifier.  When the
//! identifier is not in the graph and the caller allows protocol
//! variations, the resolver retries once with the protocol-swapped URL
//! (`git://` for `https://` or the other way round).  A URL that resolves
//! through neither is unknown; the caller reports the original URL, never
//! the alternative.

use vstd::prelude::*;

use crate::bytes::{
    alternative_url, alternative_url_bytes, contains_bytes, git_marker_bytes, has_protocol_marker,
    https_marker_bytes,
};
use crate::graph::Graph;
use crate::ids::{origin_id, CanonicalId};

verus! {

/// The node `url` resolves to: by its own origin identifier, or, failing
/// that and when allowed and a protocol marker is present, by the
/// identifier of the protocol-swapped URL.
pub open spec fn resolve_spec(g: Graph, url: Seq<u8>, allow_protocol_variations: bool) -> Option<
    usize,
> {
    match g.lookup_spec(origin_id(url)) {
        Some(n) => Some(n),
        None => {
            if allow_protocol_variations && has_protocol_marker(url) {
                g.lookup_spec(origin_id(alternative_url(url)))
            } else {
                None
            }
        },
    }
}

/// Resolves `url` to a node of `g`, or reports it unknown.
pub fn resolve_origin(g: &Graph, url: &Vec<u8>, allow_protocol_variations: bool) -> (r: Option<
    usize,
>)
    requires
        g.wf(),
    ensures
        r == resolve_spec(*g, url@, allow_protocol_variations),
        r is Some ==> r->Some_0 < g.node_count(),
{
    let id = CanonicalId::from_origin_url(url);
    let direct = g.lookup(&id);
    let r = match direct {
        Some(n) => Some(n),
        None => {
            if allow_protocol_variations {
                let git = git_marker_bytes();
                let https = https_marker_bytes();
                if contains_bytes(url, &git) || contains_bytes(url, &https) {
                    let alt = alternative_url_bytes(url);
                    let alt_id = CanonicalId::from_origin_url(&alt);
                    g.lookup(&alt_id)
                } else {
                    None
                }
            } else {
                None
            }
        },
    };
    proof {
        if g.lookup_spec(origin_id(url@)) is Some {
            g.lemma_lookup_found(origin_id(url@), 0);
        } else if allow_protocol_variations && has_protocol_marker(url@) && g.lookup_spec(
            origin_id(alternative_url(url@)),
        ) is Some {
            g.lemma_lookup_found(origin_id(alternative_url(url@)), 0);
        }
    }
    r
}

} // verus!
