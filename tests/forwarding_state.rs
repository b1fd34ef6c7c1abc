use snowcap::forwarding_state::{CacheResult, ForwardingState};
use snowcap::netsim::{AclMode, Destination, Device, Network, NetworkError, Prefix};

/// Six devices with one prefix: `external` marks external routers, which advertise the prefix
/// when their entry in `hops` points to themselves.
fn state_of(hops: Vec<Option<usize>>, external: Vec<bool>) -> ForwardingState {
    let mut devices = Vec::new();
    for (r, hop) in hops.iter().enumerate() {
        if external[r] {
            let advertised = if *hop == Some(r) { vec![Prefix(0)] } else { vec![] };
            devices.push(Device { external: true, bgp_sessions: vec![], next_hops: vec![], advertised, igp_next_hops: vec![], acl: None });
        } else {
            devices.push(Device { external: false, bgp_sessions: vec![], next_hops: vec![*hop], advertised: vec![], igp_next_hops: vec![], acl: None });
        }
    }
    ForwardingState::from_net(&Network { devices, prefixes: vec![Prefix(0)] })
}

fn ext() -> Vec<bool> {
    vec![true, false, false, false, false, true]
}

#[test]
fn test_route() {
    let (r0, r1, r2, r3, r4, r5) = (0, 1, 2, 3, 4, 5);
    let mut state = state_of(vec![Some(r0), Some(r0), Some(r1), Some(r1), Some(r2), None], ext());
    assert_eq!(state.get_route(r0, Prefix(0)), Ok(vec![r0]));
    assert_eq!(state.get_route(r1, Prefix(0)), Ok(vec![r1, r0]));
    assert_eq!(state.get_route(r2, Prefix(0)), Ok(vec![r2, r1, r0]));
    assert_eq!(state.get_route(r3, Prefix(0)), Ok(vec![r3, r1, r0]));
    assert_eq!(state.get_route(r4, Prefix(0)), Ok(vec![r4, r2, r1, r0]));
    assert_eq!(state.get_route(r5, Prefix(0)), Err(NetworkError::ForwardingBlackHole(vec![r5])));
}

#[test]
fn test_caching() {
    let (r0, r1, r2, r4) = (0, 1, 2, 4);
    let mut state = state_of(vec![Some(r0), Some(r0), Some(r1), Some(r1), Some(r2), None], ext());
    assert_eq!(state.get_route(r4, Prefix(0)), Ok(vec![r4, r2, r1, r0]));
    assert_eq!(state.get_cache(5, Prefix(0)), None);
    assert_eq!(state.get_cache(4, Prefix(0)), Some((CacheResult::ValidPath, vec![r4, r2, r1, r0])));
    assert_eq!(state.get_cache(3, Prefix(0)), None);
    assert_eq!(state.get_cache(2, Prefix(0)), Some((CacheResult::ValidPath, vec![r2, r1, r0])));
    assert_eq!(state.get_cache(1, Prefix(0)), Some((CacheResult::ValidPath, vec![r1, r0])));
    assert_eq!(state.get_cache(0, Prefix(0)), Some((CacheResult::ValidPath, vec![r0])));
}

fn loop_2_cache_holds(state: &ForwardingState) {
    let (r2, r3, r4) = (2, 3, 4);
    assert_eq!(state.get_cache(0, Prefix(0)), None);
    assert_eq!(state.get_cache(1, Prefix(0)), None);
    assert_eq!(state.get_cache(2, Prefix(0)), Some((CacheResult::ForwardingLoop, vec![r2, r3, r4, r3])));
    assert_eq!(state.get_cache(3, Prefix(0)), Some((CacheResult::ForwardingLoop, vec![r3, r4, r3])));
    assert_eq!(state.get_cache(4, Prefix(0)), Some((CacheResult::ForwardingLoop, vec![r4, r3, r4])));
    assert_eq!(state.get_cache(5, Prefix(0)), None);
}

#[test]
fn test_forwarding_loop_2() {
    let (r0, r2, r3, r4) = (0, 2, 3, 4);
    let mut state = state_of(vec![Some(r0), Some(r0), Some(r3), Some(r4), Some(r3), None], ext());
    assert_eq!(state.get_route(r2, Prefix(0)), Err(NetworkError::ForwardingLoop(vec![r2, r3, r4, r3])));
    loop_2_cache_holds(&state);
    assert_eq!(state.get_route(r3, Prefix(0)), Err(NetworkError::ForwardingLoop(vec![r3, r4, r3])));
    loop_2_cache_holds(&state);
    assert_eq!(state.get_route(r4, Prefix(0)), Err(NetworkError::ForwardingLoop(vec![r4, r3, r4])));
    loop_2_cache_holds(&state);
}

fn loop_3_cache_holds(state: &ForwardingState) {
    let (r1, r2, r3, r4) = (1, 2, 3, 4);
    assert_eq!(state.get_cache(0, Prefix(0)), None);
    assert_eq!(state.get_cache(1, Prefix(0)), Some((CacheResult::ForwardingLoop, vec![r1, r2, r3, r4, r2])));
    assert_eq!(state.get_cache(2, Prefix(0)), Some((CacheResult::ForwardingLoop, vec![r2, r3, r4, r2])));
    assert_eq!(state.get_cache(3, Prefix(0)), Some((CacheResult::ForwardingLoop, vec![r3, r4, r2, r3])));
    assert_eq!(state.get_cache(4, Prefix(0)), Some((CacheResult::ForwardingLoop, vec![r4, r2, r3, r4])));
    assert_eq!(state.get_cache(5, Prefix(0)), None);
}

#[test]
fn test_forwarding_loop_3() {
    let (r0, r1, r2, r3, r4) = (0, 1, 2, 3, 4);
    let mut state = state_of(vec![Some(r0), Some(r2), Some(r3), Some(r4), Some(r2), None], ext());
    assert_eq!(state.get_route(r1, Prefix(0)), Err(NetworkError::ForwardingLoop(vec![r1, r2, r3, r4, r2])));
    loop_3_cache_holds(&state);
    assert_eq!(state.get_route(r2, Prefix(0)), Err(NetworkError::ForwardingLoop(vec![r2, r3, r4, r2])));
    loop_3_cache_holds(&state);
    assert_eq!(state.get_route(r3, Prefix(0)), Err(NetworkError::ForwardingLoop(vec![r3, r4, r2, r3])));
    loop_3_cache_holds(&state);
    assert_eq!(state.get_route(r4, Prefix(0)), Err(NetworkError::ForwardingLoop(vec![r4, r2, r3, r4])));
    loop_3_cache_holds(&state);
}

#[test]
fn blackhole_path_stops_at_the_gap() {
    let mut state = state_of(vec![Some(0), Some(2), Some(3), None, Some(1), None], ext());
    assert_eq!(state.get_route(4, Prefix(0)), Err(NetworkError::ForwardingBlackHole(vec![4, 1, 2, 3])));
    assert_eq!(state.get_cache(1, Prefix(0)), Some((CacheResult::BlackHole, vec![1, 2, 3])));
    assert_eq!(state.get_route(1, Prefix(0)), Err(NetworkError::ForwardingBlackHole(vec![1, 2, 3])));
}

#[test]
fn same_query_same_answer_before_and_after_caching() {
    let mut state = state_of(vec![Some(0), Some(0), Some(3), Some(4), Some(3), None], ext());
    let first = state.get_route(2, Prefix(0));
    let second = state.get_route(2, Prefix(0));
    assert_eq!(first, second);
    let mut fresh = state_of(vec![Some(0), Some(0), Some(3), Some(4), Some(3), None], ext());
    assert_eq!(fresh.get_route(4, Prefix(0)), state.get_route(4, Prefix(0)));
}

#[test]
fn unknown_router_and_prefix() {
    let mut state = state_of(vec![Some(0), Some(0), Some(1), Some(1), Some(2), None], ext());
    assert_eq!(state.get_route(6, Prefix(0)), Err(NetworkError::DeviceNotFound(6)));
    assert_eq!(state.get_route(2, Prefix(9)), Err(NetworkError::ForwardingBlackHole(vec![2])));
    assert_eq!(state.get_next_hop(6, Prefix(0)), Err(NetworkError::DeviceNotFound(6)));
    assert_eq!(state.get_next_hop(2, Prefix(9)), Ok(None));
    assert_eq!(state.get_next_hop(2, Prefix(0)), Ok(Some(1)));
    assert_eq!(state.get_next_hop(5, Prefix(0)), Ok(None));
}

#[test]
fn next_hop_difference() {
    let before = state_of(vec![Some(0), Some(0), Some(1), Some(1), Some(2), None], ext());
    let after = state_of(vec![Some(0), Some(0), Some(3), Some(1), Some(2), None], ext());
    assert!(after.has_diff_next_hop(2, Prefix(0), &before));
    assert!(!after.has_diff_next_hop(4, Prefix(0), &before));
}

fn igp_router(igp_next_hops: Vec<Option<usize>>, acl: Option<(AclMode, Vec<usize>)>) -> Device {
    Device { external: false, bgp_sessions: vec![], next_hops: vec![], advertised: vec![], igp_next_hops, acl }
}

#[test]
fn test_from_net() {
    let (r0, r1, r2) = (0, 1, 2);
    let devices = vec![
        igp_router(vec![None, Some(r1), Some(r1)], None),
        igp_router(vec![Some(r2), None, Some(r2)], None),
        igp_router(vec![Some(r0), Some(r0), None], Some((AclMode::Deny, vec![r0]))),
    ];
    let fw = ForwardingState::from_net_new(&Network { devices, prefixes: vec![] });
    let route2 = fw.get_route_new(r0, Destination::Igp(r2));
    assert_eq!(route2, Err(NetworkError::AccessDenied(r2)));
    assert_eq!(fw.get_route_new(r1, Destination::Igp(r2)), Ok(vec![r1, r2]));
    assert_eq!(fw.get_route_new(r2, Destination::Igp(r2)), Ok(vec![r2]));
    assert_eq!(fw.get_route_new(r0, Destination::Igp(7)), Err(NetworkError::DeviceNotFound(7)));
}

#[test]
fn acl_accept_list_and_bgp_arrival() {
    let devices = vec![
        Device { external: true, bgp_sessions: vec![], next_hops: vec![], advertised: vec![Prefix(0)], igp_next_hops: vec![], acl: None },
        Device { external: false, bgp_sessions: vec![], next_hops: vec![Some(0)], advertised: vec![], igp_next_hops: vec![], acl: Some((AclMode::Accept, vec![2])) },
        Device { external: false, bgp_sessions: vec![], next_hops: vec![Some(1)], advertised: vec![], igp_next_hops: vec![], acl: None },
    ];
    let fw = ForwardingState::from_net_new(&Network { devices, prefixes: vec![Prefix(0)] });
    assert_eq!(fw.get_route_new(2, Destination::Bgp(Prefix(0))), Ok(vec![2, 1, 0]));
    assert_eq!(fw.get_route_new(1, Destination::Bgp(Prefix(0))), Err(NetworkError::AccessDenied(1)));
    assert_eq!(fw.get_route_new(1, Destination::Bgp(Prefix(4))), Err(NetworkError::ForwardingBlackHole(vec![1])));
}

#[test]
fn forwarding_tables_compare_by_next_hops() {
    let a = state_of(vec![Some(0), Some(0), Some(1), Some(1), Some(2), None], ext());
    let mut b = state_of(vec![Some(0), Some(0), Some(1), Some(1), Some(2), None], ext());
    let c = state_of(vec![Some(0), Some(0), Some(3), Some(1), Some(2), None], ext());
    b.get_route(4, Prefix(0)).unwrap();
    assert!(a.same_forwarding(&b));
    assert!(!a.same_forwarding(&c));
}

#[test]
fn iterator_yields_routes_until_one_fails() {
    let state = state_of(vec![Some(0), Some(0), Some(1), Some(1), Some(2), None], ext());
    let mut it = state.into_iter();
    assert_eq!(it.next(), Some((0, Prefix(0), vec![0])));
    assert_eq!(it.next(), Some((1, Prefix(0), vec![1, 0])));
    assert_eq!(it.next(), Some((2, Prefix(0), vec![2, 1, 0])));
    assert_eq!(it.next(), Some((3, Prefix(0), vec![3, 1, 0])));
    assert_eq!(it.next(), Some((4, Prefix(0), vec![4, 2, 1, 0])));
    assert_eq!(it.next(), None);
    assert_eq!(it.next(), None);
}
