use snowcap::netsim::Prefix;
use snowcap::solution_builder::{DependencyBuilder, SolutionBuilder};
use snowcap::types::ConfigId;

#[test]
fn test_init() {
    let builder = SolutionBuilder::new();
    assert_eq!(builder.get_config_dependency().get_starter_nodes(), None);
    let _ = DependencyBuilder::new();
}

#[test]
fn test_add_dependency_graph() {
    let mut builder = SolutionBuilder::new();
    builder.add_node_dependency(0, 1).unwrap();
    builder.add_node_dependency(1, 2).unwrap();
    builder.add_node_dependency(2, 3).unwrap();
    assert_eq!(builder.get_node_dependency().get_starter_nodes(), Some(vec![0]));
}

#[test]
fn test_add_array_of_configs() {
    let configs: Vec<(ConfigId, Vec<(usize, Prefix)>)> = (0..10).map(|x| (x as ConfigId, vec![])).collect();
    let mut builder = SolutionBuilder::new();
    builder.insert_config_ordering(&configs).unwrap();
    assert_eq!(builder.get_config_dependency().topological_order(), Some((0..10).collect::<Vec<usize>>()));
}

#[test]
fn router_dependencies_become_config_edges() {
    let mut builder = SolutionBuilder::new();
    builder.insert_config_ordering(&vec![(0, vec![(5, Prefix(0))]), (1, vec![(5, Prefix(0))])]).unwrap();
    builder.insert_config_ordering(&vec![(2, vec![(6, Prefix(0))])]).unwrap();
    builder.add_node_dependency(6, 5).unwrap();
    builder.construct_config_dependency().unwrap();
    assert_eq!(builder.get_config_dependency().get_next_of_node(2), Ok(vec![0]));
    assert_eq!(builder.get_config_dependency().get_starter_nodes(), Some(vec![2]));
}
