use knightdag::dag::DAG;
use knightdag::score::compute_confidence;
use knightdag::types::{Block, Edge, Node, NodeStatus};
use knightdag::{map_db_error, Error};

fn block(id: &str, parents: Vec<String>, height: u64) -> Block {
    Block::new(id.to_string(), format!("hash_{}", id), parents, height, 0)
}

fn edge_weighted(from: &str, to: &str, weight: u64) -> Edge {
    Edge { from: from.to_string(), to: to.to_string(), weight: Some(weight), created_at: 0 }
}

// A freshly inserted graph relation can be walked back from the query
// facade: one stored relation gives exactly one simple path.
#[test]
fn find_paths_single_path() {
    let mut dag = DAG::new(80);
    dag.add_block(block("genesis", vec![], 0)).unwrap();
    dag.add_block(block("child", vec!["genesis".to_string()], 1)).unwrap();
    dag.add_edge(edge_weighted("genesis", "child", 1000)).unwrap();

    let paths = dag.find_paths(&"genesis".to_string(), &"child".to_string()).unwrap();
    assert_eq!(paths, vec![vec!["genesis".to_string(), "child".to_string()]]);
}

#[test]
fn find_paths_diamond() {
    let mut dag = DAG::new(80);
    for id in ["A", "B", "C", "D"] {
        dag.add_block(block(id, vec![], 0)).unwrap();
    }
    dag.add_edge(edge_weighted("A", "B", 1000)).unwrap();
    dag.add_edge(edge_weighted("A", "C", 1000)).unwrap();
    dag.add_edge(edge_weighted("B", "D", 1000)).unwrap();
    dag.add_edge(edge_weighted("C", "D", 1000)).unwrap();

    let mut paths = dag.find_paths(&"A".to_string(), &"D".to_string()).unwrap();
    paths.sort();
    assert_eq!(
        paths,
        vec![
            vec!["A".to_string(), "B".to_string(), "D".to_string()],
            vec!["A".to_string(), "C".to_string(), "D".to_string()],
        ]
    );
}

#[test]
fn find_paths_missing_endpoint() {
    let mut dag = DAG::new(80);
    dag.add_block(block("A", vec![], 0)).unwrap();
    let r = dag.find_paths(&"A".to_string(), &"Z".to_string());
    assert!(matches!(r, Err(Error::NodeNotFound(id)) if id == "Z"));
    let r2 = dag.find_paths(&"Y".to_string(), &"A".to_string());
    assert!(matches!(r2, Err(Error::NodeNotFound(id)) if id == "Y"));
}

// A relation refused by the cycle gate leaves the earlier relation intact
// and queryable.
#[test]
fn rejected_cycle_leaves_store_unchanged() {
    let mut dag = DAG::new(80);
    dag.add_block(block("A", vec![], 0)).unwrap();
    dag.add_block(block("B", vec![], 0)).unwrap();
    dag.add_edge(edge_weighted("A", "B", 1000)).unwrap();

    let r = dag.add_edge(edge_weighted("B", "A", 1000));
    assert!(matches!(r, Err(Error::CycleDetected { from, to }) if from == "B" && to == "A"));

    let kept = dag.get_edge(&"A".to_string(), &"B".to_string()).unwrap();
    assert_eq!(kept.weight, Some(1000));
    assert_eq!(dag.edges().len(), 1);
}

// Re-inserting the same relation with another weight overwrites in place:
// the latest weight is retrievable and no duplicate entry appears.
#[test]
fn relation_overwrite_latest_wins() {
    let mut dag = DAG::new(80);
    dag.add_block(block("A", vec![], 0)).unwrap();
    dag.add_block(block("B", vec![], 0)).unwrap();

    dag.add_edge(edge_weighted("A", "B", 1000)).unwrap();
    dag.add_edge(edge_weighted("A", "B", 2500)).unwrap();

    let stored = dag.get_edge(&"A".to_string(), &"B".to_string()).unwrap();
    assert_eq!(stored.weight, Some(2500));
    assert_eq!(dag.edges().len(), 1);
}

// The one active node measures a delay of 1.5 seconds, so one insertion
// grows the cluster size parameter from 10 to 12 (a fifth more, truncated).
#[test]
fn resize_grows_on_high_delay() {
    let mut dag = DAG::new(80);
    assert_eq!(dag.k_cluster_size(), 10);
    dag.add_node(Node::new("peer".to_string(), "addr".to_string(), 0)).unwrap();
    dag.update_node_delay(&"peer".to_string(), 1500, 0).unwrap();

    dag.add_block(block("b0", vec![], 0)).unwrap();
    assert_eq!(dag.k_cluster_size(), 12);
}

// With no peer registered at all, the mean delay counts as low and the
// parameter shrinks: the empty directory is a defined edge case.
#[test]
fn resize_with_no_peers_shrinks() {
    let mut dag = DAG::new(80);
    assert_eq!(dag.k_cluster_size(), 10);
    dag.add_block(block("solo", vec![], 0)).unwrap();
    assert_eq!(dag.k_cluster_size(), 8);
}

// The cluster size parameter never leaves [5, 50], however often it is
// resized in either direction.
#[test]
fn resize_stays_within_bounds() {
    let mut dag = DAG::new(80);
    dag.add_node(Node::new("slow".to_string(), "addr".to_string(), 0)).unwrap();
    dag.update_node_delay(&"slow".to_string(), 5000, 0).unwrap();
    for i in 0..30u64 {
        dag.add_block(block(&format!("up{}", i), vec![], i)).unwrap();
        let k = dag.k_cluster_size();
        assert!((5..=50).contains(&k));
    }
    assert_eq!(dag.k_cluster_size(), 50);

    dag.update_node_delay(&"slow".to_string(), 100, 0).unwrap();
    for i in 0..30u64 {
        dag.add_block(block(&format!("down{}", i), vec![], i)).unwrap();
        let k = dag.k_cluster_size();
        assert!((5..=50).contains(&k));
    }
    assert_eq!(dag.k_cluster_size(), 5);
}

// After a reselect the member count is the smaller of the cluster size and
// the block count.
#[test]
fn cluster_membership_size_is_min() {
    let mut dag = DAG::new(80);
    // low delay: the parameter shrinks to its floor of 5
    dag.add_node(Node::new("peer".to_string(), "addr".to_string(), 0)).unwrap();
    dag.update_node_delay(&"peer".to_string(), 100, 0).unwrap();

    for i in 0..3u64 {
        dag.add_block(block(&format!("b{}", i), vec![], i)).unwrap();
        // fewer blocks than the parameter: every block is a member
        assert_eq!(dag.get_k_cluster().unwrap().len(), (i + 1) as usize);
    }
    for i in 3..20u64 {
        dag.add_block(block(&format!("b{}", i), vec![], i)).unwrap();
    }
    let k = dag.k_cluster_size();
    assert_eq!(k, 5);
    assert_eq!(dag.get_k_cluster().unwrap().len(), k);
}

// Twenty blocks with equal scores: the documented tie-break (insertion
// order) keeps the first ones, so the top of the ranking is preserved.
#[test]
fn cluster_keeps_top_ranked_blocks() {
    let mut dag = DAG::new(80);
    dag.add_node(Node::new("peer".to_string(), "addr".to_string(), 0)).unwrap();
    dag.update_node_delay(&"peer".to_string(), 100, 0).unwrap();

    for i in 0..20u64 {
        dag.add_block(block(&format!("block{}", i), vec![], i)).unwrap();
    }
    for i in 0..20u64 {
        dag.validate_block(&format!("block{}", i), &"peer".to_string(), 0).unwrap();
    }

    let members = dag.get_k_cluster().unwrap();
    let k = dag.k_cluster_size();
    assert!(members.len() <= k);
    // all scores are equal here, so insertion order decides membership
    let ids: Vec<String> = members.iter().map(|b| b.id.clone()).collect();
    let expected: Vec<String> = (0..k as u64).map(|i| format!("block{}", i)).collect();
    assert_eq!(ids, expected);
}

// Exact values of the confidence formula: zero parents and zero delay give
// 20; a perfect parent with zero delay gives the full 100; one second of
// delay halves the delay-driven term.
#[test]
fn confidence_formula_exact_values() {
    assert_eq!(compute_confidence(0, 0), 20);
    assert_eq!(compute_confidence(100, 0), 100);
    assert_eq!(compute_confidence(50, 1000), 50);
    // rounding is to the nearest integer, half up
    assert_eq!(compute_confidence(1, 1002), 11);
}

// Confidence stays within [0, 100] whatever the inputs allow, and a
// measured delay never raises it above its zero-delay value.
#[test]
fn confidence_stays_bounded() {
    for pc in [0u8, 1, 50, 99, 100] {
        let ceiling = compute_confidence(pc, 0);
        for d in [0u64, 1, 999, 1000, 1001, 1_000_000, u64::MAX] {
            let c = compute_confidence(pc, d);
            assert!(c <= 100);
            assert!(c <= ceiling);
        }
    }
}

// A validation event recomputes the block's confidence from its parents and
// refreshes the node.
#[test]
fn validation_updates_confidence_and_node() {
    let mut dag = DAG::new(80);
    dag.add_node(Node::new("peer".to_string(), "addr".to_string(), 7)).unwrap();
    dag.add_block(block("genesis", vec![], 0)).unwrap();

    dag.validate_block(&"genesis".to_string(), &"peer".to_string(), 99).unwrap();

    // no parents and no measured delay: 0.8 * 0 + 0.2 * 100 = 20
    let g = dag.get_block(&"genesis".to_string()).unwrap();
    assert_eq!(g.confidence, 20);

    let peer = dag.get_node(&"peer".to_string()).unwrap();
    assert_eq!(peer.status, NodeStatus::Active);
    assert_eq!(peer.blocks_validated, 1);
    assert_eq!(peer.last_seen, 99);
}

// Confidence is pulled down to the weakest parent: a child of a weak and a
// strong parent inherits from the weak one.
#[test]
fn confidence_follows_weakest_parent() {
    let mut dag = DAG::new(80);
    dag.add_node(Node::new("peer".to_string(), "addr".to_string(), 0)).unwrap();
    dag.add_block(block("weak", vec![], 0)).unwrap();
    dag.add_block(block("strong", vec![], 0)).unwrap();
    dag.validate_block(&"strong".to_string(), &"peer".to_string(), 0).unwrap();
    // weak stays at 0, strong is now 20
    dag.add_block(block("child", vec!["weak".to_string(), "strong".to_string()], 1)).unwrap();
    dag.validate_block(&"child".to_string(), &"peer".to_string(), 0).unwrap();

    // 0.8 * min(0, 20) + 0.2 * 100 = 20
    let c = dag.get_block(&"child".to_string()).unwrap();
    assert_eq!(c.confidence, 20);
}

// Overwriting a stored block may not give it a parent set that reaches
// back to itself: a block listing its own id is refused outright.
#[test]
fn overwrite_rejects_self_parent() {
    let mut dag = DAG::new(80);
    dag.add_block(block("A", vec![], 0)).unwrap();

    let r = dag.add_block(block("A", vec!["A".to_string()], 1));
    assert!(matches!(r, Err(Error::CycleDetected { from, to }) if from == "A" && to == "A"));

    // the stored record is untouched
    let a = dag.get_block(&"A".to_string()).unwrap();
    assert_eq!(a.height, 0);
}

// Overwriting a block with a parent that descends from it would close a
// loop of parent links; the insertion is refused and the store unchanged.
#[test]
fn overwrite_rejects_mutual_parents() {
    let mut dag = DAG::new(80);
    dag.add_block(block("A", vec![], 0)).unwrap();
    dag.add_block(block("B", vec!["A".to_string()], 1)).unwrap();

    let r = dag.add_block(block("A", vec!["B".to_string()], 2));
    assert!(matches!(r, Err(Error::CycleDetected { from, to }) if from == "A" && to == "B"));

    let a = dag.get_block(&"A".to_string()).unwrap();
    assert_eq!(a.height, 0);
    assert_eq!(a.parents.len(), 0);
}

// Overwriting with an acyclic parent set is still allowed and keeps the
// store at the same size.
#[test]
fn overwrite_with_valid_parents_succeeds() {
    let mut dag = DAG::new(80);
    dag.add_block(block("root", vec![], 0)).unwrap();
    dag.add_block(block("A", vec![], 0)).unwrap();

    dag.add_block(block("A", vec!["root".to_string()], 1)).unwrap();

    assert_eq!(dag.blocks().len(), 2);
    let a = dag.get_block(&"A".to_string()).unwrap();
    assert_eq!(a.height, 1);
    assert_eq!(a.parents, vec!["root".to_string()]);
}

// Confirmed blocks are exactly those at or above the threshold.
#[test]
fn confirmed_blocks_respect_threshold() {
    let mut dag = DAG::new(20);
    dag.add_node(Node::new("peer".to_string(), "addr".to_string(), 0)).unwrap();
    dag.add_block(block("seen", vec![], 0)).unwrap();
    dag.add_block(block("unseen", vec![], 0)).unwrap();
    dag.validate_block(&"seen".to_string(), &"peer".to_string(), 0).unwrap();

    let confirmed = dag.get_confirmed_blocks().unwrap();
    assert_eq!(confirmed.len(), 1);
    assert_eq!(confirmed[0].id, "seen");
}

#[test]
fn active_nodes_listing() {
    let mut dag = DAG::new(80);
    dag.add_node(Node::new("p1".to_string(), "a1".to_string(), 0)).unwrap();
    dag.add_node(Node::new("p2".to_string(), "a2".to_string(), 0)).unwrap();
    let active = dag.get_active_nodes().unwrap();
    assert_eq!(active.len(), 2);
    assert_eq!(active[0].id, "p1");
    assert_eq!(active[1].id, "p2");
}

// Each failure variant comes on exactly the inputs that call for it.
#[test]
fn error_variants() {
    let mut dag = DAG::new(80);
    dag.add_block(block("A", vec![], 0)).unwrap();

    let r = dag.add_block(block("orphan", vec!["missing".to_string()], 1));
    assert!(matches!(r, Err(Error::ParentNotFound(p)) if p == "missing"));

    let r = dag.add_edge(edge_weighted("A", "nowhere", 1000));
    assert!(matches!(r, Err(Error::NodeNotFound(id)) if id == "nowhere"));

    let r = dag.get_edge(&"A".to_string(), &"A".to_string());
    assert!(matches!(r, Err(Error::EdgeNotFound { from, to }) if from == "A" && to == "A"));

    let r = dag.validate_block(&"A".to_string(), &"ghost".to_string(), 0);
    assert!(matches!(r, Err(Error::PeerNotFound(p)) if p == "ghost"));

    let r = dag.outgoing_edges(&"missing".to_string());
    assert!(matches!(r, Err(Error::NodeNotFound(id)) if id == "missing"));

    let e = map_db_error("disk on fire".to_string());
    assert!(matches!(e, Error::Database(d) if d == "disk on fire"));
}

// A refused insertion leaves every projection unchanged.
#[test]
fn failed_operations_leave_state_unchanged() {
    let mut dag = DAG::new(80);
    dag.add_block(block("A", vec![], 0)).unwrap();
    dag.add_block(block("B", vec![], 0)).unwrap();
    dag.add_edge(edge_weighted("A", "B", 1000)).unwrap();

    let blocks_before = dag.blocks().len();
    let edges_before = dag.edges().len();

    let _ = dag.add_block(block("orphan", vec!["missing".to_string()], 1));
    let _ = dag.add_edge(edge_weighted("B", "A", 1000));

    assert_eq!(dag.blocks().len(), blocks_before);
    assert_eq!(dag.edges().len(), edges_before);
}
