use snowcap::example_networks::Sigcomm;
use snowcap::executor::{Executor, MaxDepthExec};
use snowcap::forwarding_state::ForwardingState;
use snowcap::netsim::{BgpSessionType, Condition, ConfigExpr, ConfigModifier, Prefix};
use snowcap::solution_builder::SolutionBuilder;
use snowcap::strategy_zone::{
    bgp_zone_extractor, bind_config_to_zone, can_anchor, is_client_or_boundary, is_self_client, partition_zone,
    segment_path, split_invariance_add_to_zones, StrategyZone,
};
use snowcap::types::{ConfigId, Error, RouterId};
use snowcap::zone::Zone;

const T1: RouterId = 0;
const T2: RouterId = 1;
const R1: RouterId = 2;
const R2: RouterId = 3;
const B1: RouterId = 4;
const B2: RouterId = 5;

fn sorted(mut v: Vec<RouterId>) -> Vec<RouterId> {
    v.sort();
    v
}

fn sigcomm_strategy() -> StrategyZone {
    let net = Sigcomm::net();
    let before = ForwardingState::from_net(&net);
    let after = ForwardingState::from_net(&Sigcomm::after_net());
    StrategyZone::new(net, Sigcomm::modifiers(), Sigcomm::get_policy(), before, after)
}

/// Stands in for the per-zone solver: the zone's changes in index order, none of them moving a
/// next hop.
fn index_orderings(strategy: &StrategyZone) -> Vec<Vec<(ConfigId, Vec<(RouterId, Prefix)>)>> {
    strategy.get_zones().iter().map(|z| z.get_configs().into_iter().map(|c| (c, vec![])).collect()).collect()
}

#[test]
fn test_bgp_dfs() {
    let net = Sigcomm::net();
    let set1 = bgp_zone_extractor(T1, &net);
    let set2 = bgp_zone_extractor(T2, &net);
    assert_eq!(sorted(set1), sorted(vec![B1, B2, R1, T1]));
    assert_eq!(sorted(set2), sorted(vec![B2, R2, T2]));
}

#[test]
fn test_sigcomm_init_zones() {
    let mut strategy = sigcomm_strategy();
    strategy.init_zones();
    let zones = strategy.get_zones();
    assert_eq!(zones.len(), 2);
    assert_eq!(zones[0].get_id(), T1);
    assert_eq!(zones[1].get_id(), T2);
    assert_eq!(sorted(zones[0].get_routers()), vec![T1, R1, B1, B2]);
    assert_eq!(sorted(zones[1].get_routers()), vec![T2, R2, B2]);
}

#[test]
fn test_sigcomm_net_synthesize() {
    let mut strategy = sigcomm_strategy();
    strategy.init_zones();
    let mut builder = SolutionBuilder::new();
    assert_eq!(strategy.split_invariance(&mut builder), Ok(()));
    let orderings = index_orderings(&strategy);
    let dag = strategy.assemble_zone_orderings(&mut builder, &orderings).unwrap();
    assert!(dag.check_cycle().is_ok());
    let order = dag.topological_order().unwrap();
    for zone in orderings {
        let ids: Vec<ConfigId> = zone.iter().map(|(c, _)| *c).collect();
        let projected: Vec<ConfigId> = order.iter().copied().filter(|c| ids.contains(c)).collect();
        assert_eq!(projected, ids);
    }
    let costs = vec![1, 1, 1, 1];
    assert!(MaxDepthExec::execute(&dag, &costs).is_ok());
}

#[test]
fn anchors_are_the_top_tier_routers() {
    let net = Sigcomm::net();
    let anchors: Vec<RouterId> = (0..8).filter(|r| can_anchor(&net, *r)).collect();
    assert_eq!(anchors, vec![T1, T2]);
    assert!(is_self_client(&net, R1, T1));
    assert!(!is_self_client(&net, T1, R1));
    assert!(is_client_or_boundary(&net, B1));
    assert!(is_client_or_boundary(&net, T1));
    let zones = partition_zone(&net);
    assert_eq!(zones.iter().map(|z| z.get_id()).collect::<Vec<_>>(), vec![T1, T2]);
}

#[test]
fn changes_bind_to_zones() {
    let net = Sigcomm::net();
    let mut zones = partition_zone(&net);
    bind_config_to_zone(&net, &mut zones, &Sigcomm::modifiers());
    assert_eq!(zones[0].get_configs(), vec![0, 2]);
    assert_eq!(zones[1].get_configs(), vec![1, 3]);
    let outside = vec![ConfigModifier::Insert(ConfigExpr::BgpSession { source: 6, target: 7, session_type: BgpSessionType::EBgp })];
    let mut zones = partition_zone(&net);
    bind_config_to_zone(&net, &mut zones, &outside);
    assert_eq!(zones[0].get_configs(), Vec::<ConfigId>::new());
}

#[test]
fn paths_split_into_zone_segments() {
    let net = Sigcomm::net();
    let zones = partition_zone(&net);
    let segs = segment_path(&zones, &vec![R2, R1, B2, 7]);
    assert_eq!(segs, vec![vec![R2], vec![R1, B2], vec![7]]);
    let mut zones = zones;
    split_invariance_add_to_zones(&mut zones, Prefix(0), &segs);
    assert_eq!(zones[0].get_policy(), vec![Condition::Reachable(R1, Prefix(0))]);
    assert_eq!(zones[1].get_policy(), vec![Condition::Reachable(R2, Prefix(0))]);
}

#[test]
fn unsupported_condition_is_refused() {
    let net = Sigcomm::net();
    let before = ForwardingState::from_net(&net);
    let after = ForwardingState::from_net(&Sigcomm::after_net());
    let mut strategy = StrategyZone::new(net, Sigcomm::modifiers(), vec![Condition::NotReachable(R1, Prefix(0))], before, after);
    strategy.init_zones();
    let mut builder = SolutionBuilder::new();
    assert_eq!(strategy.split_invariance(&mut builder), Err(Error::NotImplemented));
}

#[test]
fn unreachable_source_is_invalid() {
    let net = Sigcomm::net();
    let before = ForwardingState::from_net(&net);
    let after = ForwardingState::from_net(&Sigcomm::after_net());
    let mut strategy = StrategyZone::new(net, Sigcomm::modifiers(), vec![Condition::Reachable(R1, Prefix(3))], before, after);
    strategy.init_zones();
    let mut builder = SolutionBuilder::new();
    assert_eq!(strategy.split_invariance(&mut builder), Err(Error::InvalidInitialState));
}

#[test]
fn wrong_number_of_orderings() {
    let mut strategy = sigcomm_strategy();
    strategy.init_zones();
    let mut builder = SolutionBuilder::new();
    assert!(strategy.assemble_zone_orderings(&mut builder, &vec![]).is_err());
    assert_eq!(strategy.assemble_zone_orderings(&mut builder, &vec![]).err(), Some(Error::ZoneSegmentationFailed));
}

#[test]
fn contradicting_orderings_give_a_cycle() {
    let mut strategy = sigcomm_strategy();
    strategy.init_zones();
    let mut builder = SolutionBuilder::new();
    let orderings = vec![vec![(0, vec![]), (2, vec![])], vec![(2, vec![]), (0, vec![])]];
    let r = strategy.assemble_zone_orderings(&mut builder, &orderings);
    assert_eq!(r.err(), Some(Error::Dag(snowcap::types::DagError::DagHasCycle)));
}

#[test]
fn zone_keeps_members_and_conditions_once() {
    let mut zone = Zone::new(3);
    zone.set_routers(vec![3, 4, 3]);
    zone.add_router(4);
    assert_eq!(zone.get_routers(), vec![3, 4]);
    assert!(zone.contains_router(4));
    zone.add_hard_policy(Condition::Reachable(3, Prefix(0)));
    zone.add_hard_policy(Condition::Reachable(3, Prefix(0)));
    assert_eq!(zone.get_policy().len(), 1);
    zone.add_config(2);
    assert_eq!(zone.map_idx_to_config(&vec![]), Err(Error::ZoneSegmentationFailed));
    let m = Sigcomm::modifiers();
    assert_eq!(zone.map_idx_to_config(&m), Ok(vec![m[2]]));
    assert_eq!(zone.get_ordering(), None);
    zone.set_ordering(vec![2]);
    assert_eq!(zone.get_ordering(), Some(vec![2]));
}

#[test]
fn emulated_boundary_links() {
    let mut strategy = sigcomm_strategy();
    strategy.init_zones();
    assert!(strategy.emulate_zones().is_ok());
    let zone = &strategy.get_zones()[0];
    assert_eq!(sorted(zone.get_virtual_boundary_routers()), vec![R1, B1, B2]);
    let mut links = zone.get_virtual_links();
    links.sort();
    links.dedup();
    assert_eq!(links, vec![(R1, R2, 6), (B1, 6, 6), (B2, 7, 7)]);
}

#[test]
fn sigcomm_router_dependencies() {
    let mut strategy = sigcomm_strategy();
    strategy.init_zones();
    let mut builder = SolutionBuilder::new();
    assert_eq!(strategy.split_invariance(&mut builder), Ok(()));
    let deps = builder.get_node_dependency();
    assert_eq!(deps.get_next_of_node(R2), Ok(vec![R1]));
    assert_eq!(deps.get_next_of_node(R1), Ok(vec![]));
    assert_eq!(deps.get_starter_nodes(), Some(vec![R2]));
    let zone = &strategy.get_zones()[1];
    assert!(zone.get_policy().contains(&Condition::Reachable(T2, Prefix(0))));
    assert!(!zone.get_policy().contains(&Condition::Reachable(T1, Prefix(0))));
}

#[test]
fn igp_zone_keeps_inner_link_weights() {
    let mut zone = Zone::new(0);
    zone.set_routers(vec![0, 1]);
    let inner = ConfigModifier::Insert(ConfigExpr::IgpLinkWeight { source: 0, target: 1 });
    let outer = ConfigModifier::Update {
        from: ConfigExpr::IgpLinkWeight { source: 1, target: 2 },
        to: ConfigExpr::IgpLinkWeight { source: 1, target: 2 },
    };
    let other = ConfigModifier::Remove(ConfigExpr::StaticRoute { router: 5 });
    assert_eq!(zone.igp_relevant_configs(&vec![outer, inner, other]), vec![inner, other]);
}
