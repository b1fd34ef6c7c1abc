use snowcap::parallel_executor::{ParallelError, ParallelExecutor, ParallelNode};

#[test]
fn parallel_executor_test_node_init() {
    let mut node1 = ParallelNode::new(0);
    let mut node2 = ParallelNode::new(1);
    node1.add_next(node2.get_id());
    node2.add_prev(node1.get_id());
    assert_eq!(node1.get_next(), vec![1]);
}

#[test]
fn parallel_executor_test_node_add() {
    let mut nodes: Vec<ParallelNode> = (0..10).map(|x| ParallelNode::new(x)).collect();
    for nid in 0..(nodes.len() - 1) {
        let current_id = nodes[nid].get_id();
        let next_id = nodes[nid + 1].get_id();
        assert_eq!(nodes[nid].add_next(next_id), None);
        assert_eq!(nodes[nid + 1].add_prev(current_id), None);
    }
}

#[test]
fn parallel_executor_test_parallel_executor_init() {
    let mut executor = ParallelExecutor::new();
    for i in 0..10 {
        assert_eq!(executor.insert_node(i as usize), None);
    }
    for i in 0..9 {
        assert_eq!(executor.add_dependency(i, i + 1).is_ok(), true);
    }
}

#[test]
fn parallel_executor_test_no_cycle() {
    let mut executor = ParallelExecutor::new();
    for i in 0..10 {
        assert_eq!(executor.insert_node(i as usize), None);
    }
    for i in 0..9 {
        assert_eq!(executor.add_dependency(i, i + 1).is_ok(), true);
    }
    assert_eq!(executor.check_cycle().is_ok(), true);
}

#[test]
fn test_has_cycle() {
    let mut executor = ParallelExecutor::new();
    for i in 0..10 {
        assert_eq!(executor.insert_node(i as usize), None);
    }
    for i in 0..10 {
        assert_eq!(executor.add_dependency(i, (i + 1) % 10).is_ok(), true);
    }
    assert_eq!(executor.check_cycle().is_ok(), false);
}

#[test]
fn parallel_executor_test_has_cycle_1() {
    let mut executor = ParallelExecutor::new();
    for i in 0..10 {
        assert_eq!(executor.insert_node(i as usize), None);
    }
    for i in 0..10 {
        assert_eq!(executor.add_dependency(i, (i + 1) % 10).is_ok(), true);
    }
    assert_eq!(executor.check_cycle().is_ok(), false);
}

#[test]
fn parallel_executor_test_has_cycle_2() {
    let mut executor = ParallelExecutor::new();
    for i in 0..10 {
        assert_eq!(executor.insert_node(i as usize), None);
    }
    for i in 0..9 {
        assert_eq!(executor.add_dependency(i, (i + 1) % 10).is_ok(), true);
    }
    assert_eq!(executor.add_dependency(4, 3).is_ok(), true);
    assert!(executor.check_cycle().is_err());
}

#[test]
fn parallel_executor_missing_node() {
    let mut executor = ParallelExecutor::new();
    executor.insert_node(0);
    assert_eq!(executor.add_dependency(0, 1), Err(ParallelError::NodeDoesNotExist));
    assert_eq!(executor.get_initial_tasks(), Some(vec![0]));
}

#[test]
fn parallel_executor_execute_maximum_depth() {
    let mut executor = ParallelExecutor::new();
    assert_eq!(executor.execute_maximum_depth(&vec![]), Err(ParallelError::ExecutionFailed));
    for i in 0..4 {
        executor.insert_node(i);
    }
    executor.add_dependency(0, 1).unwrap();
    executor.add_dependency(0, 2).unwrap();
    executor.add_dependency(2, 3).unwrap();
    assert_eq!(executor.execute_maximum_depth(&vec![1, 10, 2, 3]), Ok(11));
    executor.add_dependency(3, 0).unwrap();
    assert_eq!(executor.execute_maximum_depth(&vec![1, 10, 2, 3]), Err(ParallelError::ExecutionFailed));
}

#[test]
fn test_node_init() {
    let mut node1 = ParallelNode::new(0);
    let mut node2 = ParallelNode::new(1);
    node1.add_next(node2.get_id());
    node2.add_prev(node1.get_id());
    assert_eq!(node2.get_prev(), vec![0]);
}

#[test]
fn test_node_add() {
    let mut nodes: Vec<ParallelNode> = (0..10).map(|x| ParallelNode::new(x)).collect();
    for nid in 0..(nodes.len() - 1) {
        let current_id = nodes[nid].get_id();
        let next_id = nodes[nid + 1].get_id();
        assert_eq!(nodes[nid].add_next(next_id), None);
        assert_eq!(nodes[nid + 1].add_prev(current_id), None);
    }
}

#[test]
fn test_parallel_executor_init() {
    let mut executor = ParallelExecutor::new();
    for i in 0..10 {
        assert_eq!(executor.insert_node(i as usize), None);
    }
    for i in 0..9 {
        assert_eq!(executor.add_dependency(i, i + 1).is_ok(), true);
    }
}

#[test]
fn test_no_cycle() {
    let mut executor = ParallelExecutor::new();
    for i in 0..10 {
        assert_eq!(executor.insert_node(i as usize), None);
    }
    for i in 0..9 {
        assert_eq!(executor.add_dependency(i, i + 1).is_ok(), true);
    }
    assert_eq!(executor.check_cycle().is_ok(), true);
}

#[test]
fn single_threaded_order_follows_dependencies() {
    let mut executor = ParallelExecutor::new();
    for i in [3, 1, 2] {
        executor.insert_node(i);
    }
    executor.add_dependency(2, 1).unwrap();
    executor.add_dependency(1, 3).unwrap();
    assert_eq!(executor.execute_single_threaded(), Ok(vec![2, 1, 3]));
    executor.add_dependency(3, 2).unwrap();
    assert_eq!(executor.execute_single_threaded(), Err(ParallelError::DagHasCycle));
}
