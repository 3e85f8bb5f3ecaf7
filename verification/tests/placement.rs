//! End-to-end placement scenarios on clusters and tables.

use asura::{Cluster, Node, Searcher, SegmentTable, SegmentTableBuilder, UNIT};

fn whole(node_id: u64, slots: u64) -> Node {
    Node { node_id, cap: slots * UNIT }
}

#[test]
fn test_add_huge_node() {
    let mut seg = SegmentTable::new();
    // 1EB
    seg.add_nodes(&vec![whole(0, 1000000)]);
}

#[test]
fn test_add_many_nodes() {
    let mut seg = SegmentTable::new();
    let mut nodes = vec![];
    // 1EB
    for id in 0..1000000 {
        nodes.push(whole(id, 1));
    }
    seg.add_nodes(&nodes);
}

#[test]
fn test_replica_order() {
    let mut cluster = Cluster::new();
    cluster.add_nodes(&vec![whole(0, 1), whole(1, 1), whole(2, 1)]);
    assert_eq!(cluster.calc_candidates(111, 2), Some(vec![2, 1]));
    assert_eq!(cluster.calc_candidates(111, 3), Some(vec![2, 1, 0]));
    assert_eq!(cluster.calc_candidates(111, 4), Some(vec![2, 1, 0]));
}

#[test]
fn test_empty_cluster() {
    let cluster = Cluster::new();
    assert_eq!(cluster.calc_candidates(100, 1), None);
}

#[test]
fn test_remove_then_search() {
    let mut cluster = Cluster::new();
    cluster.add_nodes(&vec![whole(0, 10), whole(1, 5), whole(2, 8)]);
    cluster.remove_node(1);
    let got = cluster.calc_candidates(43287642786, 1).unwrap();
    assert_eq!(got.len(), 1);
    assert!(got[0] == 0 || got[0] == 2);

    let assign_node_id = cluster.search(43287642786);
    assert!(assign_node_id < 3);
    assert_ne!(assign_node_id, 1);
}

#[test]
fn test_single_node() {
    let mut cluster = Cluster::new();
    cluster.add_nodes(&vec![whole(0, 1000000)]);
    for k in [0u64, 1, 2, 999, 123456789, 43287642786] {
        assert_eq!(cluster.calc_candidates(k, 1), Some(vec![0]));
    }
}

#[test]
fn test_million_nodes() {
    let mut cluster = Cluster::new();
    let mut nodes = vec![];
    for id in 0..1000000 {
        nodes.push(whole(id, 1));
    }
    cluster.add_nodes(&nodes);
    for k in [5u64, 77, 424242] {
        let got = cluster.calc_candidates(k, 3).unwrap();
        assert_eq!(got.len(), 3);
        assert!(got[0] != got[1] && got[0] != got[2] && got[1] != got[2]);
        for id in got {
            assert!(id < 1000000);
        }
    }
}

#[test]
fn test_placement_deterministic() {
    let mut cluster = Cluster::new();
    cluster.add_nodes(&vec![whole(0, 3), whole(1, 1), whole(2, 2)]);
    for k in [0u64, 7, 111, 43287642786] {
        for n in 1..5usize {
            assert_eq!(cluster.calc_candidates(k, n), cluster.calc_candidates(k, n));
        }
        assert_eq!(cluster.search(k), cluster.search(k));
    }
}

#[test]
fn test_distinctness() {
    let mut cluster = Cluster::new();
    cluster.add_nodes(&vec![whole(0, 3), whole(1, 1), whole(2, 2)]);
    // Asking for more candidates than nodes clamps to the node count.
    let got = cluster.calc_candidates(7, 5).unwrap();
    assert_eq!(got, vec![2, 1, 0]);
    let got = cluster.calc_candidates(7, 2).unwrap();
    assert_eq!(got, vec![2, 1]);
}

#[test]
fn test_builder_and_searcher() {
    let mut builder = SegmentTableBuilder::new();
    builder.add_segment(0, 10 * UNIT);
    builder.add_segment(1, 5 * UNIT);
    builder.add_segment(2, 8 * UNIT);

    let seg = builder.build();
    let searcher = Searcher::new(&seg);
    let data_key = 43287642786;
    let assign_node_id = searcher.search(data_key);
    assert!(assign_node_id < 3);
    assert_eq!(assign_node_id, 1);
}

/// Adding one node of weight `w` to a cluster of total weight `W` moves
/// about `w / (W + w)` of the keys, and every moved key moves to the new
/// node.
#[test]
fn test_minimal_movement() {
    let mut before = Cluster::new();
    before.add_nodes(&vec![whole(0, 9), whole(1, 8)]);
    let mut after = Cluster::new();
    after.add_nodes(&vec![whole(0, 9), whole(1, 8), whole(2, 4)]);

    let samples = 10000u64;
    let mut moved = 0u64;
    for k in 0..samples {
        let a = before.search(k);
        let b = after.search(k);
        if a != b {
            moved += 1;
            assert_eq!(b, 2);
        }
    }
    // Expected fraction 4/21 of 10000, within 20%.
    let expected = samples * 4 / 21;
    assert!(moved >= expected * 8 / 10);
    assert!(moved <= expected * 12 / 10);
}
