//! End-to-end tests of origin processing over a small in-memory graph.

use std::collections::HashSet;

use swhids_subgrapher::driver::process_origins_and_build_subgraph;
use swhids_subgrapher::graph::Graph;
use swhids_subgrapher::ids::{CanonicalId, NodeKind};

fn plain_id(kind: NodeKind, last_byte: u8) -> CanonicalId {
    let mut digest = [0u8; 20];
    digest[19] = last_byte;
    CanonicalId { version: 1, kind, digest }
}

fn origin_id_of(url: &str) -> CanonicalId {
    CanonicalId::from_origin_url(&url.as_bytes().to_vec())
}

/// The graph of the reference scenario:
///
/// ```text
/// ori0 -->  snp2 -->  rev4
///          ^    \
///         /      \
///        /        \
/// ori1 -+          -> rev5 -> rev6
///     \           /
///      \         /
///       \       /
///        -> snp3
///
/// ori7 --> rev8
///  (disjoint graph)
/// ```
fn build_graph() -> Graph {
    let succs: Vec<Vec<usize>> = vec![
        vec![2, 2, 3],
        vec![2],
        vec![4, 5],
        vec![5, 5],
        vec![],
        vec![6],
        vec![],
        vec![8],
        vec![],
    ];
    let ids: Vec<CanonicalId> = vec![
        origin_id_of("https://example.com/repo1"),
        origin_id_of("https://example.com/repo2"),
        plain_id(NodeKind::Snapshot, 2),
        plain_id(NodeKind::Snapshot, 3),
        plain_id(NodeKind::Revision, 4),
        plain_id(NodeKind::Revision, 5),
        plain_id(NodeKind::Revision, 6),
        origin_id_of("https://example.com/discinnected"),
        plain_id(NodeKind::Revision, 8),
    ];
    let graph = Graph { succs, ids };
    assert!(graph.check_wf());
    graph
}

fn urls(list: &[&str]) -> Vec<Vec<u8>> {
    list.iter().map(|s| s.as_bytes().to_vec()).collect()
}

#[test]
fn test_process_origins_and_build_subgraph() {
    let graph = build_graph();

    let origins = urls(&[
        "https://example.com/repo1",
        // this one should be found with allow_protocol_variations
        "git://example.com/repo2",
        "https://unknown.com/repo",
    ]);
    let (subgraph_nodes, unknown_origins) =
        process_origins_and_build_subgraph(&graph, &origins, true);

    // Check that we found the expected nodes
    assert_eq!(subgraph_nodes.len(), 7); // should contain both origins and the revision
    assert_eq!(unknown_origins.len(), 1); // the unknown origin
    assert_eq!(unknown_origins[0], b"https://unknown.com/repo".to_vec());

    // Test with empty input
    let (empty_nodes, empty_unknown) =
        process_origins_and_build_subgraph(&graph, &Vec::new(), false);
    assert!(empty_nodes.is_empty());
    assert!(empty_unknown.is_empty());

    // Test with only invalid origins
    let invalid_origins = urls(&["https://invalid1.com", "https://invalid2.com"]);
    let (invalid_nodes, invalid_unknown) =
        process_origins_and_build_subgraph(&graph, &invalid_origins, false);
    assert!(invalid_nodes.is_empty());
    assert_eq!(invalid_unknown.len(), 2);

    // Test with only invalid origins
    let disjoint_origins = urls(&["https://example.com/discinnected"]);
    let (disjoint_nodes, disjoint_unknown) =
        process_origins_and_build_subgraph(&graph, &disjoint_origins, false);
    assert!(disjoint_unknown.is_empty());
    assert_eq!(disjoint_nodes.len(), 2);
}

#[test]
fn exact_nodes_of_the_reference_scenario() {
    let graph = build_graph();
    let origins = urls(&[
        "https://example.com/repo1",
        "git://example.com/repo2",
        "https://unknown.com/repo",
    ]);
    let (nodes, unknown) = process_origins_and_build_subgraph(&graph, &origins, true);
    let expected: HashSet<usize> = [0, 1, 2, 3, 4, 5, 6].into_iter().collect();
    assert_eq!(nodes, expected);
    assert_eq!(unknown, vec![b"https://unknown.com/repo".to_vec()]);

    // With the fallback disabled the repo2 variant is unknown and its
    // origin node drops out of the result.
    let (nodes_off, unknown_off) = process_origins_and_build_subgraph(&graph, &origins, false);
    let expected_off: HashSet<usize> = [0, 2, 3, 4, 5, 6].into_iter().collect();
    assert_eq!(nodes_off, expected_off);
    assert_eq!(
        unknown_off,
        vec![
            b"git://example.com/repo2".to_vec(),
            b"https://unknown.com/repo".to_vec(),
        ]
    );

    let (disjoint, _) =
        process_origins_and_build_subgraph(&graph, &urls(&["https://example.com/discinnected"]), false);
    let expected_disjoint: HashSet<usize> = [7, 8].into_iter().collect();
    assert_eq!(disjoint, expected_disjoint);
}

#[test]
fn all_unknown_origins_are_reported_in_order() {
    let graph = build_graph();
    let origins = urls(&["https://a.example", "https://b.example", "https://a.example"]);
    let (nodes, unknown) = process_origins_and_build_subgraph(&graph, &origins, true);
    assert!(nodes.is_empty());
    assert_eq!(unknown, origins);
}
