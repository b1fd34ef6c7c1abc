//! Synthesis of dependency graphs for network-wide configuration migrations: a forwarding-state
//! engine with cached path queries, zone decomposition with invariant splitting, and the
//! dependency graph that orders configuration changes, with its executor.
pub mod types;
pub mod dag;
pub mod netsim;
pub mod forwarding_state;
pub mod executor;
pub mod parallel_executor;
pub mod solution_builder;
pub mod zone;
pub mod strategy_zone;
pub mod example_networks;
pub mod ospf_zone;
