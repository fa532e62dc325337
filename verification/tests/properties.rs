//! Concrete checks of the library's stated properties.

use std::collections::HashSet;

use swhids_subgrapher::bytes::{alternative_url_bytes, contains_bytes, replace_bytes};
use swhids_subgrapher::driver::process_origins_and_build_subgraph;
use swhids_subgrapher::graph::Graph;
use swhids_subgrapher::ids::{CanonicalId, NodeKind};
use swhids_subgrapher::visited::VisitedSet;

fn origin_id_of(url: &str) -> CanonicalId {
    CanonicalId::from_origin_url(&url.as_bytes().to_vec())
}

fn plain_id(kind: NodeKind, last_byte: u8) -> CanonicalId {
    let mut digest = [0u8; 20];
    digest[19] = last_byte;
    CanonicalId { version: 1, kind, digest }
}

fn urls(list: &[&str]) -> Vec<Vec<u8>> {
    list.iter().map(|s| s.as_bytes().to_vec()).collect()
}

/// A chain 0 -> 1 -> 2 rooted at an origin, plus a node 3 nothing reaches.
fn chain_graph() -> Graph {
    let graph = Graph {
        succs: vec![vec![1], vec![2], vec![], vec![]],
        ids: vec![
            origin_id_of("https://example.org/chain"),
            plain_id(NodeKind::Snapshot, 1),
            plain_id(NodeKind::Revision, 2),
            plain_id(NodeKind::Revision, 3),
        ],
    };
    assert!(graph.check_wf());
    graph
}

#[test]
fn completeness_every_reachable_node_is_present() {
    let graph = chain_graph();
    let (nodes, _) =
        process_origins_and_build_subgraph(&graph, &urls(&["https://example.org/chain"]), false);
    assert!(nodes.contains(&0));
    assert!(nodes.contains(&1));
    assert!(nodes.contains(&2));
}

#[test]
fn soundness_only_reachable_nodes_are_present() {
    let graph = chain_graph();
    let (nodes, _) =
        process_origins_and_build_subgraph(&graph, &urls(&["https://example.org/chain"]), false);
    assert!(!nodes.contains(&3));
    assert_eq!(nodes.len(), 3);
}

#[test]
fn order_of_origins_does_not_change_the_result() {
    let graph = two_origin_graph();
    let a = urls(&["https://example.org/left", "https://example.org/right"]);
    let b = urls(&["https://example.org/right", "https://example.org/left"]);
    let (nodes_a, _) = process_origins_and_build_subgraph(&graph, &a, false);
    let (nodes_b, _) = process_origins_and_build_subgraph(&graph, &b, false);
    assert_eq!(nodes_a, nodes_b);
    assert_eq!(nodes_a.len(), 4);
}

/// Two origins whose reachable sets overlap in one shared node.
///
/// ```text
/// 0 -> 2 <- 1
///      |
///      v
///      3
/// ```
fn two_origin_graph() -> Graph {
    let graph = Graph {
        succs: vec![vec![2], vec![2], vec![3], vec![]],
        ids: vec![
            origin_id_of("https://example.org/left"),
            origin_id_of("https://example.org/right"),
            plain_id(NodeKind::Snapshot, 2),
            plain_id(NodeKind::Revision, 3),
        ],
    };
    assert!(graph.check_wf());
    graph
}

#[test]
fn processing_an_origin_twice_changes_nothing() {
    let graph = chain_graph();
    let once = urls(&["https://example.org/chain"]);
    let twice = urls(&["https://example.org/chain", "https://example.org/chain"]);
    let (nodes_once, unknown_once) = process_origins_and_build_subgraph(&graph, &once, false);
    let (nodes_twice, unknown_twice) = process_origins_and_build_subgraph(&graph, &twice, false);
    assert_eq!(nodes_once, nodes_twice);
    assert!(unknown_once.is_empty());
    assert!(unknown_twice.is_empty());
}

#[test]
fn either_protocol_form_contributes_the_same_nodes() {
    // The node's identifier is derived from the https:// form; the git://
    // form only resolves through the fallback.
    let graph = Graph {
        succs: vec![vec![1], vec![]],
        ids: vec![
            origin_id_of("https://example.org/repo"),
            plain_id(NodeKind::Snapshot, 1),
        ],
    };
    assert!(graph.check_wf());
    let (via_https, unknown_https) =
        process_origins_and_build_subgraph(&graph, &urls(&["https://example.org/repo"]), true);
    let (via_git, unknown_git) =
        process_origins_and_build_subgraph(&graph, &urls(&["git://example.org/repo"]), true);
    assert_eq!(via_https, via_git);
    let expected: HashSet<usize> = [0, 1].into_iter().collect();
    assert_eq!(via_https, expected);
    assert!(unknown_https.is_empty());
    assert!(unknown_git.is_empty());
}

#[test]
fn the_unknown_list_keeps_the_input_form_of_the_url() {
    let graph = chain_graph();
    let (nodes, unknown) =
        process_origins_and_build_subgraph(&graph, &urls(&["git://nowhere.example/x"]), true);
    assert!(nodes.is_empty());
    // The fallback tried https://nowhere.example/x too, but the reported
    // URL is the one that was read from the input.
    assert_eq!(unknown, vec![b"git://nowhere.example/x".to_vec()]);
}

#[test]
fn unknown_origins_appear_once_per_occurrence() {
    let graph = chain_graph();
    let origins = urls(&[
        "https://missing.example/a",
        "https://example.org/chain",
        "https://missing.example/a",
    ]);
    let (_, unknown) = process_origins_and_build_subgraph(&graph, &origins, false);
    assert_eq!(
        unknown,
        vec![
            b"https://missing.example/a".to_vec(),
            b"https://missing.example/a".to_vec(),
        ]
    );
}

#[test]
fn origin_identifier_is_version_one_origin_sha1() {
    let id = CanonicalId::from_origin_url(&b"abc".to_vec());
    assert_eq!(id.version, 1);
    assert_eq!(id.kind, NodeKind::Origin);
    // SHA-1("abc")
    let expected: [u8; 20] = [
        0xa9, 0x99, 0x3e, 0x36, 0x47, 0x06, 0x81, 0x6a, 0xba, 0x3e, 0x25, 0x71, 0x78, 0x50, 0xc2,
        0x6c, 0x9c, 0xd0, 0xd8, 0x9d,
    ];
    assert_eq!(id.digest, expected);
}

#[test]
fn protocol_marker_search_and_replacement() {
    let git = b"git://".to_vec();
    let https = b"https://".to_vec();
    assert!(contains_bytes(&b"git://example.org/x".to_vec(), &git));
    assert!(!contains_bytes(&b"https://example.org/x".to_vec(), &git));
    assert_eq!(
        replace_bytes(&b"git://example.org/x".to_vec(), &git, &https),
        b"https://example.org/x".to_vec()
    );
    assert_eq!(
        alternative_url_bytes(&b"https://example.org/x".to_vec()),
        b"git://example.org/x".to_vec()
    );
    assert_eq!(
        alternative_url_bytes(&b"git://example.org/x".to_vec()),
        b"https://example.org/x".to_vec()
    );
    // A URL with neither marker comes back unchanged.
    assert_eq!(
        alternative_url_bytes(&b"ssh://example.org/x".to_vec()),
        b"ssh://example.org/x".to_vec()
    );
    // When both markers occur, git:// is swapped first.
    assert_eq!(
        alternative_url_bytes(&b"git://a/https://b".to_vec()),
        b"https://a/https://b".to_vec()
    );
}

#[test]
fn visited_set_stays_correct_across_the_dense_conversion() {
    let mut set = VisitedSet::new(1000);
    for v in 0..400usize {
        assert!(!set.contains(v * 2));
        set.insert(v * 2);
        assert!(set.contains(v * 2));
    }
    for v in 0..400usize {
        assert!(set.contains(v * 2));
        assert!(!set.contains(v * 2 + 1));
    }
}

#[test]
fn visited_set_with_tiny_capacity() {
    let mut set = VisitedSet::new(3);
    set.insert(0);
    set.insert(2);
    set.insert(0);
    assert!(set.contains(0));
    assert!(!set.contains(1));
    assert!(set.contains(2));
}

#[test]
fn a_graph_with_an_edge_leaving_it_is_rejected() {
    let graph = Graph {
        succs: vec![vec![1], vec![7]],
        ids: vec![
            origin_id_of("https://example.org/chain"),
            plain_id(NodeKind::Snapshot, 1),
        ],
    };
    assert!(!graph.check_wf());
    let short_of_ids = Graph {
        succs: vec![vec![1], vec![]],
        ids: vec![origin_id_of("https://example.org/chain")],
    };
    assert!(!short_of_ids.check_wf());
}

#[test]
fn a_long_chain_is_traversed_to_the_end() {
    let n = 200usize;
    let mut succs: Vec<Vec<usize>> = Vec::new();
    let mut ids: Vec<CanonicalId> = Vec::new();
    for u in 0..n {
        if u + 1 < n {
            succs.push(vec![u + 1]);
        } else {
            succs.push(vec![]);
        }
        if u == 0 {
            ids.push(origin_id_of("https://example.org/long"));
        } else {
            ids.push(plain_id(NodeKind::Revision, (u % 250) as u8));
        }
    }
    let graph = Graph { succs, ids };
    assert!(graph.check_wf());
    let (nodes, unknown) =
        process_origins_and_build_subgraph(&graph, &urls(&["https://example.org/long"]), false);
    assert!(unknown.is_empty());
    assert_eq!(nodes.len(), n);
}
