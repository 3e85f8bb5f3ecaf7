//! Dump, restore and conservation tests.

use asura::{Cluster, Node, Row, Table, UNIT};

fn whole(node_id: u64, slots: u64) -> Node {
    Node { node_id, cap: slots * UNIT }
}

#[test]
fn test_dump_round_trip() {
    let mut cluster = Cluster::new();
    cluster.add_nodes(&vec![whole(0, 10), whole(1, 5), whole(2, 8)]);
    cluster.remove_node(1);
    cluster.add_nodes(&vec![whole(3, 7)]);

    let dump = cluster.dump_table();
    let restored = Cluster::from_table(&dump).unwrap();
    for k in [0u64, 1, 7, 111, 999999, 43287642786] {
        for n in 1..5usize {
            assert_eq!(cluster.calc_candidates(k, n), restored.calc_candidates(k, n));
        }
    }
    // The restored cluster dumps to the identical row list.
    let dump2 = restored.dump_table();
    assert!(dump.rows == dump2.rows);
}

/// After any mix of additions and removals, the dumped segment lengths of
/// each present node sum to exactly its added capacity.
#[test]
fn test_mass_conservation() {
    let mut cluster = Cluster::new();
    // Fractional capacities: 2.5 and 1.25 slots.
    cluster.add_nodes(&vec![
        whole(0, 4),
        Node { node_id: 1, cap: 2 * UNIT + UNIT / 2 },
        Node { node_id: 2, cap: UNIT + UNIT / 4 },
    ]);
    cluster.remove_node(0);
    cluster.add_nodes(&vec![whole(3, 3)]);

    let dump = cluster.dump_table();
    let mut sum1 = 0u64;
    let mut sum2 = 0u64;
    let mut sum3 = 0u64;
    for row in &dump.rows {
        assert!(row.len > 0 && row.len <= UNIT);
        match row.node_id {
            1 => sum1 += row.len,
            2 => sum2 += row.len,
            3 => sum3 += row.len,
            _ => panic!("unexpected node id in dump"),
        }
    }
    assert_eq!(sum1, 2 * UNIT + UNIT / 2);
    assert_eq!(sum2, UNIT + UNIT / 4);
    assert_eq!(sum3, 3 * UNIT);
}

#[test]
fn test_restore_rejects_overlap() {
    let t = Table {
        rows: vec![
            Row { node_id: 0, l: 0, len: UNIT },
            Row { node_id: 1, l: 0, len: UNIT },
        ],
    };
    assert!(Cluster::from_table(&t).is_none());
}

#[test]
fn test_restore_rejects_zero_length() {
    let t = Table { rows: vec![Row { node_id: 0, l: 0, len: 0 }] };
    assert!(Cluster::from_table(&t).is_none());
}

#[test]
fn test_restore_rejects_oversized_length() {
    let t = Table { rows: vec![Row { node_id: 0, l: 0, len: UNIT + 1 }] };
    assert!(Cluster::from_table(&t).is_none());
}

#[test]
fn test_restore_accepts_holes() {
    // A dump of a table whose middle slot was vacated.
    let t = Table {
        rows: vec![
            Row { node_id: 0, l: 0, len: UNIT },
            Row { node_id: 2, l: 2, len: UNIT / 2 },
        ],
    };
    let cluster = Cluster::from_table(&t).unwrap();
    let got = cluster.calc_candidates(5, 2).unwrap();
    assert_eq!(got.len(), 2);
    assert!(got.contains(&0) && got.contains(&2));
}
