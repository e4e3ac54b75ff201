use knightdag::dag::DAG;
use knightdag::types::{Block, Edge, Node};
use knightdag::Error;

fn block(id: &str, hash: &str, parents: Vec<String>, height: u64) -> Block {
    Block::new(id.to_string(), hash.to_string(), parents, height, 0)
}

fn simple_block(id: &str) -> Block {
    block(id, "hash", vec![], 0)
}

fn edge(from: &str, to: &str) -> Edge {
    Edge { from: from.to_string(), to: to.to_string(), weight: Some(1000), created_at: 0 }
}

#[test]
fn test_add_block() {
    let mut dag = DAG::new(80);

    // genesis block, with no parents
    let genesis = block("genesis", "genesis_hash", vec![], 0);
    dag.add_block(genesis).unwrap();

    // child block referencing the genesis block
    let child = block("child", "child_hash", vec!["genesis".to_string()], 1);
    dag.add_block(child).unwrap();

    assert_eq!(dag.blocks().len(), 2);
}

#[test]
fn test_k_cluster() {
    let mut dag = DAG::new(80);

    // two nodes with different measured delays (milliseconds)
    let node1 = Node::new("node1".to_string(), "addr1".to_string(), 0);
    let node2 = Node::new("node2".to_string(), "addr2".to_string(), 0);
    dag.add_node(node1).unwrap();
    dag.add_node(node2).unwrap();
    dag.update_node_delay(&"node1".to_string(), 500, 0).unwrap();
    dag.update_node_delay(&"node2".to_string(), 1500, 0).unwrap();

    // twenty blocks
    for i in 0..20u64 {
        let b = block(&format!("block{}", i), &format!("hash{}", i), vec![], i);
        dag.add_block(b).unwrap();
    }

    // all validated by the faster node
    for i in 0..20u64 {
        dag.validate_block(&format!("block{}", i), &"node1".to_string(), 0).unwrap();
    }

    let k_cluster = dag.get_k_cluster().unwrap();
    assert!(k_cluster.len() <= 10);
}

#[test]
fn test_add_get_node() {
    let mut dag = DAG::new(80);
    dag.add_block(simple_block("A")).unwrap();

    let retrieved = dag.get_block(&"A".to_string()).unwrap();
    assert_eq!(retrieved.id, "A");
    assert_eq!(retrieved.hash, "hash");

    let all_blocks = dag.blocks();
    assert_eq!(all_blocks.len(), 1);
    assert_eq!(all_blocks[0].id, "A");
}

#[test]
fn test_get_non_existent_node() {
    let dag = DAG::new(80);
    let result = dag.get_block(&"Z".to_string());
    assert!(matches!(result, Err(Error::NodeNotFound(_))));
}

#[test]
fn test_add_get_edge() {
    let mut dag = DAG::new(80);
    dag.add_block(simple_block("A")).unwrap();
    dag.add_block(simple_block("B")).unwrap();

    dag.add_edge(edge("A", "B")).unwrap();

    let all_edges = dag.edges();
    assert_eq!(all_edges.len(), 1);
    assert_eq!(all_edges[0].from, "A");
    assert_eq!(all_edges[0].to, "B");

    let outgoing_a = dag.outgoing_edges(&"A".to_string()).unwrap();
    assert_eq!(outgoing_a.len(), 1);
    assert_eq!(outgoing_a[0].to, "B");

    let outgoing_b = dag.outgoing_edges(&"B".to_string()).unwrap();
    assert_eq!(outgoing_b.len(), 0);
}

#[test]
fn test_cycle_detection_simple() {
    let mut dag = DAG::new(80);
    dag.add_block(simple_block("A")).unwrap();

    let result = dag.add_edge(edge("A", "A"));
    assert!(matches!(result, Err(Error::CycleDetected { from, to }) if from == "A" && to == "A"));

    dag.add_block(simple_block("B")).unwrap();
    dag.add_edge(edge("A", "B")).unwrap();

    let result_ba = dag.add_edge(edge("B", "A"));
    assert!(
        matches!(result_ba, Err(Error::CycleDetected { from, to }) if from == "B" && to == "A")
    );
}

#[test]
fn test_cycle_detection_complex() {
    let mut dag = DAG::new(80);
    for id in ["A", "B", "C", "D"] {
        dag.add_block(simple_block(id)).unwrap();
    }

    dag.add_edge(edge("A", "B")).unwrap();
    dag.add_edge(edge("B", "C")).unwrap();
    dag.add_edge(edge("C", "D")).unwrap();

    let result = dag.add_edge(edge("D", "A"));
    assert!(matches!(result, Err(Error::CycleDetected { from, to }) if from == "D" && to == "A"));
}

#[test]
fn test_add_valid_edges_no_cycle() {
    let mut dag = DAG::new(80);
    for id in ["A", "B", "C"] {
        dag.add_block(simple_block(id)).unwrap();
    }

    dag.add_edge(edge("A", "B")).unwrap();
    dag.add_edge(edge("A", "C")).unwrap();
    dag.add_edge(edge("B", "C")).unwrap();

    assert_eq!(dag.edges().len(), 3);
}
