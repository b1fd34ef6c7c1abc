use snowcap::dag::Dag;
use snowcap::executor::{Executor, MaxDepthExec};
use snowcap::types::{DagError, ExecutorError};

fn chain(n: usize) -> Dag {
    let mut dag = Dag::new();
    for i in 0..(n - 1) {
        dag.insert_node(i);
        dag.insert_node(i + 1);
        dag.add_dependency(i, i + 1).unwrap();
    }
    dag
}

#[test]
fn test_linear_traversal() {
    let dag = chain(10);
    let costs: Vec<u64> = (1..=10).collect();
    assert_eq!(MaxDepthExec::execute(&dag, &costs), Ok(55));
}

#[test]
fn test_dfs_traversal() {
    let mut dag = Dag::new();
    for i in 0..6 {
        dag.insert_node(i);
    }
    dag.add_dependency(0, 1).unwrap();
    dag.add_dependency(1, 2).unwrap();
    dag.add_dependency(0, 3).unwrap();
    dag.add_dependency(3, 4).unwrap();
    dag.add_dependency(4, 2).unwrap();
    let costs = vec![2, 9, 1, 3, 3, 4];
    assert_eq!(MaxDepthExec::execute(&dag, &costs), Ok(12));
}

#[test]
fn critical_path_sums_a_linear_chain() {
    let t = 7;
    let dag = chain(3);
    assert_eq!(MaxDepthExec::execute(&dag, &vec![t, t, t]), Ok(3 * t));
}

#[test]
fn executor_rejects_cycles_and_empty_graphs() {
    let mut dag = chain(3);
    assert_eq!(MaxDepthExec::execute(&Dag::new(), &vec![]), Err(ExecutorError::ExecutionFailed));
    dag.add_dependency(2, 0).unwrap();
    assert_eq!(MaxDepthExec::execute(&dag, &vec![1, 1, 1]), Err(ExecutorError::DagError(DagError::DagHasCycle)));
}

#[test]
fn critical_path_saturates() {
    let dag = chain(2);
    assert_eq!(MaxDepthExec::execute(&dag, &vec![u64::MAX, 5]), Ok(u64::MAX));
}
