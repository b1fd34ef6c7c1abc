use snowcap::dag::{Dag, Node};
use snowcap::types::DagError;

#[test]
fn dag_test_node_init() {
    let mut node1 = Node::new(0);
    let mut node2 = Node::new(1);
    node1.add_next(node2.get_id());
    node2.add_prev(node1.get_id());
    assert_eq!(node1.get_next(), vec![1]);
    assert_eq!(node2.get_prev(), vec![0]);
}

#[test]
fn dag_test_node_add() {
    let mut nodes: Vec<Node> = (0..10).map(|x| Node::new(x)).collect();
    for nid in 0..(nodes.len() - 1) {
        let current_id = nodes[nid].get_id();
        let next_id = nodes[nid + 1].get_id();
        assert_eq!(nodes[nid].add_next(next_id), None);
        assert_eq!(nodes[nid + 1].add_prev(current_id), None);
    }
}

#[test]
fn dag_test_parallel_executor_init() {
    let mut executor = Dag::new();
    for i in 0..10 {
        assert_eq!(executor.insert_node(i as usize), None);
    }
    for i in 0..9 {
        assert_eq!(executor.add_dependency(i, i + 1).is_ok(), true);
    }
}

#[test]
fn dag_test_no_cycle() {
    let mut executor = Dag::new();
    for i in 0..10 {
        assert_eq!(executor.insert_node(i as usize), None);
    }
    for i in 0..9 {
        assert_eq!(executor.add_dependency(i, i + 1).is_ok(), true);
    }
    assert_eq!(executor.check_cycle().is_ok(), true);
}

#[test]
fn dag_test_has_cycle_1() {
    let mut executor = Dag::new();
    for i in 0..10 {
        assert_eq!(executor.insert_node(i as usize), None);
    }
    for i in 0..10 {
        assert_eq!(executor.add_dependency(i, (i + 1) % 10).is_ok(), true);
    }
    assert_eq!(executor.check_cycle().is_ok(), false);
}

#[test]
fn dag_test_has_cycle_2() {
    let mut executor = Dag::new();
    for i in 0..10 {
        assert_eq!(executor.insert_node(i as usize), None);
    }
    for i in 0..9 {
        assert_eq!(executor.add_dependency(i, (i + 1) % 10).is_ok(), true);
    }
    assert_eq!(executor.add_dependency(4, 3).is_ok(), true);
    assert!(executor.check_cycle().is_err());
}

#[test]
fn test_dag_init() {
    let dag = Dag::new();
    assert_eq!(dag.get_starter_nodes(), None);
    assert!(dag.check_cycle().is_ok());
}

#[test]
fn test_dag_node_add() {
    let mut node1 = Node::new(1);
    let mut node2 = Node::new(2);
    let mut node3 = Node::new(3);
    let mut node4 = Node::new(4);
    assert_eq!(node1.add_next(2), None);
    assert_eq!(node2.add_prev(1), None);
    assert_eq!(node1.add_next(2), Some(2));
    assert_eq!(node1.add_next(3), None);
    assert_eq!(node3.add_next(1), None);
    assert_eq!(node2.add_next(4), None);
    assert_eq!(node4.add_prev(2), None);
    assert_eq!(node1.get_next(), vec![2, 3]);
    assert_eq!(node2.get_prev(), vec![1]);
}

#[test]
fn insert_node_twice_reports_existing() {
    let mut dag = Dag::new();
    assert_eq!(dag.insert_node(7), None);
    assert_eq!(dag.insert_node(8), None);
    assert!(dag.add_dependency(7, 8).is_ok());
    assert_eq!(dag.insert_node(7), Some(7));
    assert_eq!(dag.get_next_of_node(7), Ok(vec![8]));
    assert_eq!(dag.get_next_of_node(8), Ok(vec![]));
    assert_eq!(dag.get_starter_nodes(), Some(vec![7]));
}

#[test]
fn add_dependency_names_missing_node() {
    let mut dag = Dag::new();
    dag.insert_node(1);
    assert_eq!(dag.add_dependency(5, 1), Err(DagError::NodeDoesNotExist(5)));
    assert_eq!(dag.add_dependency(1, 6), Err(DagError::NodeDoesNotExist(6)));
    assert_eq!(dag.add_dependency(5, 6), Err(DagError::NodeDoesNotExist(5)));
    assert_eq!(dag.get_next_of_node(9), Err(DagError::NodeDoesNotExist(9)));
    assert!(dag.has_node(1));
    assert!(!dag.has_node(5));
}

#[test]
fn cycle_away_from_starter_nodes_is_found() {
    let mut dag = Dag::new();
    for i in 0..4 {
        dag.insert_node(i);
    }
    dag.add_dependency(0, 1).unwrap();
    dag.add_dependency(2, 3).unwrap();
    dag.add_dependency(3, 2).unwrap();
    assert_eq!(dag.get_starter_nodes(), Some(vec![0]));
    assert_eq!(dag.check_cycle(), Err(DagError::DagHasCycle));
    assert_eq!(dag.topological_order(), None);
}

#[test]
fn self_loop_is_a_cycle() {
    let mut dag = Dag::new();
    dag.insert_node(3);
    dag.add_dependency(3, 3).unwrap();
    assert_eq!(dag.check_cycle(), Err(DagError::DagHasCycle));
    assert_eq!(dag.get_starter_nodes(), None);
}

#[test]
fn topological_order_respects_edges() {
    let mut dag = Dag::new();
    for i in [5, 3, 9, 1] {
        dag.insert_node(i);
    }
    dag.add_dependency(9, 3).unwrap();
    dag.add_dependency(3, 1).unwrap();
    dag.add_dependency(5, 1).unwrap();
    let order = dag.topological_order().unwrap();
    let pos = |x: usize| order.iter().position(|y| *y == x).unwrap();
    assert_eq!(order.len(), 4);
    assert!(pos(9) < pos(3));
    assert!(pos(3) < pos(1));
    assert!(pos(5) < pos(1));
}

#[test]
fn node_marks_predecessors_complete() {
    let mut node = Node::new(0);
    node.add_prev(1);
    node.add_prev(2);
    assert!(!node.get_status());
    assert_eq!(node.mark_prev_complete(1), Some(false));
    assert_eq!(node.mark_prev_complete(7), None);
    assert_eq!(node.mark_prev_complete(2), Some(true));
    assert!(node.get_status());
}
