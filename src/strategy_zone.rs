use vstd::prelude::*;
use crate::dag::vec_contains;
use crate::forwarding_state::{lemma_distinct_below, lemma_route_ok_iff_reaches, ForwardingState};
use crate::dag::Dag;
use crate::solution_builder::{
    chain_edges, fold_orderings_first, fold_orderings_last, ids_of, orderings_chains, orderings_ids, translated_edges,
    SolutionBuilder,
};
use crate::netsim::{BgpSessionType, Condition, ConfigExpr, ConfigModifier, Network, Prefix};
use crate::types::{ConfigId, RouterId};
use crate::zone::Zone;

verus! {

/// `r` holds an eBGP session: it is a boundary router.
pub open spec fn is_boundary(net: &Network, r: RouterId) -> bool {
    exists|x: RouterId| net.has_session(r, x, BgpSessionType::EBgp)
}

/// `r` holds an eBGP session or has an iBGP client: advertisements spread from it.
pub open spec fn spec_client_or_boundary(net: &Network, r: RouterId) -> bool {
    exists|x: RouterId| net.has_session(r, x, BgpSessionType::EBgp) || net.has_session(r, x, BgpSessionType::IBgpClient)
}

/// `self_id` is an iBGP client of `other_id`.
pub open spec fn spec_self_client(net: &Network, self_id: RouterId, other_id: RouterId) -> bool {
    net.has_session(other_id, self_id, BgpSessionType::IBgpClient)
}

/// `id` may anchor a zone: an internal router without eBGP session that is no iBGP client of any
/// of its peers.
pub open spec fn is_anchor(net: &Network, id: RouterId) -> bool {
    &&& id < net.devices@.len()
    &&& !net.devices@[id as int].external
    &&& !is_boundary(net, id)
    &&& forall|x: RouterId| net.has_session(id, x, BgpSessionType::IBgpPeer) ==> !spec_self_client(net, id, x)
}

/// The zone traversal goes from `u` to `v`: `u` is no boundary router, and `v` is a client of
/// `u`, or a peer of `u` that has clients or eBGP sessions itself and is not the reflector of `u`.
pub open spec fn zone_step(net: &Network, u: RouterId, v: RouterId) -> bool {
    &&& !is_boundary(net, u)
    &&& {
        ||| net.has_session(u, v, BgpSessionType::IBgpClient)
        ||| (net.has_session(u, v, BgpSessionType::IBgpPeer) && spec_client_or_boundary(net, v) && !spec_self_client(
            net,
            u,
            v,
        ))
    }
}

/// `s` holds `anchor` and is closed under the zone traversal.
pub open spec fn closed_from(net: &Network, anchor: RouterId, s: Set<RouterId>) -> bool {
    &&& s.contains(anchor)
    &&& forall|u: RouterId, v: RouterId| s.contains(u) && #[trigger] zone_step(net, u, v) ==> s.contains(v)
}

/// `members` is the zone of `anchor`: the least set that holds `anchor` and is closed under the
/// zone traversal.
pub open spec fn is_zone_of(net: &Network, anchor: RouterId, members: Seq<RouterId>) -> bool {
    &&& members.no_duplicates()
    &&& closed_from(net, anchor, members.to_set())
    &&& forall|s: Set<RouterId>| closed_from(net, anchor, s) ==> members.to_set().subset_of(s)
}

/// Whether device `r` holds a session of type `t`, and with which peer.
fn find_session(net: &Network, r: RouterId, t: BgpSessionType) -> (res: bool)
    requires
        r < net.devices@.len(),
    ensures
        res == exists|x: RouterId| net.has_session(r, x, t),
{
    let sessions = &net.devices[r].bgp_sessions;
    let mut k: usize = 0;
    while k < sessions.len()
        invariant
            r < net.devices@.len(),
            *sessions == net.devices@[r as int].bgp_sessions,
            0 <= k <= sessions.len(),
            forall|j: int| 0 <= j < k ==> (#[trigger] sessions@[j]).1 != t,
        decreases sessions.len() - k,
    {
        if sessions[k].1 == t {
            proof {
                assert(net.has_session(r, sessions@[k as int].0, t));
            }
            return true;
        }
        k = k + 1;
    }
    proof {
        assert forall|x: RouterId| !net.has_session(r, x, t) by {
            if net.has_session(r, x, t) {
                let j = choose|j: int| 0 <= j < sessions@.len() && #[trigger] sessions@[j] == (x, t);
                assert(sessions@[j].1 != t);
            }
        }
    }
    false
}

/// Whether device `r` holds a session of type `t` with `peer`.
fn holds_session(net: &Network, r: RouterId, peer: RouterId, t: BgpSessionType) -> (res: bool)
    ensures
        res == net.has_session(r, peer, t),
{
    if r >= net.devices.len() {
        return false;
    }
    let sessions = &net.devices[r].bgp_sessions;
    let mut k: usize = 0;
    while k < sessions.len()
        invariant
            r < net.devices@.len(),
            *sessions == net.devices@[r as int].bgp_sessions,
            0 <= k <= sessions.len(),
            forall|j: int| 0 <= j < k ==> #[trigger] sessions@[j] != (peer, t),
        decreases sessions.len() - k,
    {
        if sessions[k].0 == peer && sessions[k].1 == t {
            proof {
                assert(sessions@[k as int] == (peer, t));
            }
            return true;
        }
        k = k + 1;
    }
    false
}

/// Whether `rid` holds an eBGP session or has an iBGP client.
pub fn is_client_or_boundary(net: &Network, rid: RouterId) -> (r: bool)
    ensures
        r == spec_client_or_boundary(net, rid),
{
    if rid >= net.devices.len() {
        return false;
    }
    find_session(net, rid, BgpSessionType::EBgp) || find_session(net, rid, BgpSessionType::IBgpClient)
}

/// Whether `self_id` is an iBGP client of `other_id`.
pub fn is_self_client(net: &Network, self_id: RouterId, other_id: RouterId) -> (r: bool)
    ensures
        r == spec_self_client(net, self_id, other_id),
{
    holds_session(net, other_id, self_id, BgpSessionType::IBgpClient)
}

/// Whether `id` may anchor a zone.
pub fn can_anchor(net: &Network, id: RouterId) -> (r: bool)
    ensures
        r == is_anchor(net, id),
{
    if id >= net.devices.len() || net.devices[id].external {
        return false;
    }
    if find_session(net, id, BgpSessionType::EBgp) {
        return false;
    }
    let sessions = &net.devices[id].bgp_sessions;
    let mut k: usize = 0;
    while k < sessions.len()
        invariant
            id < net.devices@.len(),
            *sessions == net.devices@[id as int].bgp_sessions,
            0 <= k <= sessions.len(),
            forall|j: int| 0 <= j < k && (#[trigger] sessions@[j]).1 == BgpSessionType::IBgpPeer
                ==> !spec_self_client(net, id, sessions@[j].0),
        decreases sessions.len() - k,
    {
        let (peer, t) = sessions[k];
        if t == BgpSessionType::IBgpPeer && is_self_client(net, id, peer) {
            proof {
                assert(net.has_session(id, peer, BgpSessionType::IBgpPeer)) by {
                    assert(sessions@[k as int] == (peer, BgpSessionType::IBgpPeer));
                }
            }
            return false;
        }
        k = k + 1;
    }
    proof {
        assert forall|x: RouterId| net.has_session(id, x, BgpSessionType::IBgpPeer) implies !spec_self_client(net, id, x) by {
            let j = choose|j: int| 0 <= j < sessions@.len() && #[trigger] sessions@[j] == (x, BgpSessionType::IBgpPeer);
        }
    }
    true
}

/// The traversal follows the session `e` of `u`.
pub open spec fn go_at(net: &Network, u: RouterId, e: (RouterId, BgpSessionType)) -> bool {
    ||| e.1 == BgpSessionType::IBgpClient
    ||| (e.1 == BgpSessionType::IBgpPeer && spec_client_or_boundary(net, e.0) && !spec_self_client(net, u, e.0))
}

proof fn lemma_reached_in_closed(
    net: &Network,
    anchor: RouterId,
    visited: Seq<RouterId>,
    parent: Seq<int>,
    s: Set<RouterId>,
    j: int,
)
    requires
        closed_from(net, anchor, s),
        visited.len() >= 1,
        visited[0] == anchor,
        parent.len() == visited.len(),
        forall|i: int| 1 <= i < visited.len() ==> 0 <= #[trigger] parent[i] < i && zone_step(net, visited[parent[i]], visited[i]),
        0 <= j < visited.len(),
    ensures
        s.contains(visited[j]),
    decreases j,
{
    if j > 0 {
        lemma_reached_in_closed(net, anchor, visited, parent, s, parent[j]);
    }
}

/// The zone anchored at `anchor`: a breadth-first traversal that always moves to iBGP clients,
/// moves to an iBGP peer only when that peer has clients or eBGP sessions and is not the
/// reflector of the router it leaves, and does not move on from boundary routers.
pub fn bgp_zone_extractor(anchor: RouterId, net: &Network) -> (r: Vec<RouterId>)
    requires
        net.wf(),
        anchor < net.devices@.len(),
    ensures
        is_zone_of(net, anchor, r@),
        r@[0] == anchor,
{
    let nd = net.devices.len();
    let mut visited: Vec<RouterId> = Vec::new();
    visited.push(anchor);
    let ghost mut parent: Seq<int> = seq![0];
    let mut head: usize = 0;
    while head < visited.len()
        invariant
            net.wf(),
            nd == net.devices@.len(),
            visited@.no_duplicates(),
            forall|i: int| 0 <= i < visited@.len() ==> #[trigger] visited@[i] < nd,
            visited@.len() >= 1,
            visited@[0] == anchor,
            0 <= head <= visited@.len(),
            visited@.len() <= nd,
            parent.len() == visited@.len(),
            forall|i: int| 1 <= i < visited@.len() ==> 0 <= #[trigger] parent[i] < i && zone_step(net, visited@[parent[i]], visited@[i]),
            forall|j: int, v: RouterId| 0 <= j < head && #[trigger] zone_step(net, visited@[j], v) ==> visited@.contains(v),
        decreases nd - head,
    {
        let u = visited[head];
        if !find_session(net, u, BgpSessionType::EBgp) {
            let sessions = &net.devices[u].bgp_sessions;
            let mut k: usize = 0;
            while k < sessions.len()
                invariant
                    net.wf(),
                    nd == net.devices@.len(),
                    u < nd,
                    u == visited@[head as int],
                    !is_boundary(net, u),
                    *sessions == net.devices@[u as int].bgp_sessions,
                    0 <= k <= sessions.len(),
                    visited@.no_duplicates(),
                    forall|i: int| 0 <= i < visited@.len() ==> #[trigger] visited@[i] < nd,
                    visited@.len() >= 1,
                    visited@[0] == anchor,
                    0 <= head < visited@.len(),
                    visited@.len() <= nd,
                    parent.len() == visited@.len(),
                    forall|i: int| 1 <= i < visited@.len() ==> 0 <= #[trigger] parent[i] < i && zone_step(net, visited@[parent[i]], visited@[i]),
                    forall|j: int, v: RouterId| 0 <= j < head && #[trigger] zone_step(net, visited@[j], v) ==> visited@.contains(v),
                    forall|j: int| 0 <= j < k && go_at(net, u, #[trigger] sessions@[j]) ==> visited@.contains(sessions@[j].0),
                decreases sessions.len() - k,
            {
                let (v, t) = sessions[k];
                proof {
                    assert(sessions@[k as int] == (v, t));
                    assert(net.has_session(u, v, t));
                    assert(v < nd);
                }
                let go = t == BgpSessionType::IBgpClient || (t == BgpSessionType::IBgpPeer && is_client_or_boundary(net, v)
                    && !is_self_client(net, u, v));
                proof {
                    if zone_step(net, u, v) && !go {
                        if net.has_session(u, v, BgpSessionType::IBgpClient) {
                        }
                    }
                }
                if go && !vec_contains(&visited, v) {
                    let ghost before = visited@;
                    visited.push(v);
                    proof {
                        parent = parent.push(head as int);
                        assert(zone_step(net, u, v));
                        assert forall|a: int, b: int| 0 <= a < b < visited@.len() implies #[trigger] visited@[a] != #[trigger] visited@[b] by {
                            if b == before.len() {
                                assert(before.contains(visited@[a]));
                            }
                        }
                        lemma_distinct_below(visited@, nd as nat);
                        assert forall|x: RouterId| before.contains(x) implies visited@.contains(x) by {
                            let q = choose|q: int| 0 <= q < before.len() && before[q] == x;
                            assert(visited@[q] == x);
                        }
                        assert(visited@[before.len() as int] == v);
                    }
                }
                proof {
                    if go {
                        assert(visited@.contains(v));
                    }
                    assert forall|j: int| 0 <= j < k + 1 && go_at(net, u, #[trigger] sessions@[j]) implies visited@.contains(sessions@[j].0) by {
                        if j == k {
                            assert(sessions@[j] == (v, t));
                        }
                    }
                }
                k = k + 1;
            }
            proof {
                assert forall|v: RouterId| #[trigger] zone_step(net, u, v) implies visited@.contains(v) by {
                    if net.has_session(u, v, BgpSessionType::IBgpClient) {
                        let q = choose|q: int| 0 <= q < sessions@.len() && #[trigger] sessions@[q] == (v, BgpSessionType::IBgpClient);
                        assert(go_at(net, u, sessions@[q]));
                    } else {
                        let q = choose|q: int| 0 <= q < sessions@.len() && #[trigger] sessions@[q] == (v, BgpSessionType::IBgpPeer);
                        assert(go_at(net, u, sessions@[q]));
                    }
                }
            }
        }
        head = head + 1;
    }
    proof {
        assert(visited@.contains(visited@[0]));
        assert forall|u: RouterId, v: RouterId| visited@.to_set().contains(u) && #[trigger] zone_step(net, u, v) implies visited@.to_set().contains(v) by {
            let j = choose|j: int| 0 <= j < visited@.len() && visited@[j] == u;
            assert(zone_step(net, visited@[j], v));
        }
        assert forall|s: Set<RouterId>| closed_from(net, anchor, s) implies visited@.to_set().subset_of(s) by {
            assert forall|x: RouterId| visited@.to_set().contains(x) implies s.contains(x) by {
                let j = choose|j: int| 0 <= j < visited@.len() && visited@[j] == x;
                lemma_reached_in_closed(net, anchor, visited@, parent, s, j);
            }
        }
    }
    visited
}

/// Zone `z` is the zone of anchor `z.spec_id()`, freshly made: no changes, conditions or
/// boundary routers yet.
pub open spec fn fresh_zone_of(net: &Network, z: Zone) -> bool {
    &&& z.wf()
    &&& is_anchor(net, z.spec_id())
    &&& is_zone_of(net, z.spec_id(), z.spec_routers())
    &&& z.spec_configs() == Seq::<ConfigId>::empty()
    &&& z.spec_policy().len() == 0
    &&& z.spec_ordering().is_none()
    &&& z.spec_boundary() == Seq::<RouterId>::empty()
}

/// One zone for each router that may anchor one, in the order of router ids.
pub fn partition_zone(net: &Network) -> (zones: Vec<Zone>)
    requires
        net.wf(),
    ensures
        forall|i: int| 0 <= i < zones@.len() ==> fresh_zone_of(net, #[trigger] zones@[i]),
        forall|i: int, j: int| 0 <= i < j < zones@.len() ==> (#[trigger] zones@[i]).spec_id() < (#[trigger] zones@[j]).spec_id(),
        forall|id: RouterId| is_anchor(net, id) ==> exists|i: int| 0 <= i < zones@.len() && (#[trigger] zones@[i]).spec_id() == id,
{
    let mut zones: Vec<Zone> = Vec::new();
    let mut id: usize = 0;
    while id < net.devices.len()
        invariant
            net.wf(),
            0 <= id <= net.devices@.len(),
            forall|i: int| 0 <= i < zones@.len() ==> fresh_zone_of(net, #[trigger] zones@[i]),
            forall|i: int| 0 <= i < zones@.len() ==> (#[trigger] zones@[i]).spec_id() < id,
            forall|i: int, j: int| 0 <= i < j < zones@.len() ==> (#[trigger] zones@[i]).spec_id() < (#[trigger] zones@[j]).spec_id(),
            forall|x: RouterId| x < id && is_anchor(net, x) ==> exists|i: int| 0 <= i < zones@.len() && (#[trigger] zones@[i]).spec_id() == x,
        decreases net.devices@.len() - id,
    {
        if can_anchor(net, id) {
            let members = bgp_zone_extractor(id, net);
            let mut zone = Zone::new(id);
            zone.set_routers(members);
            proof {
                assert(zone.spec_routers().to_set() =~= members@.to_set());
                assert(closed_from(net, id, zone.spec_routers().to_set()));
                assert(is_zone_of(net, id, zone.spec_routers()));
                assert(fresh_zone_of(net, zone));
            }
            let ghost before = zones@;
            zones.push(zone);
            proof {
                assert(zones@[before.len() as int].spec_id() == id);
                assert forall|i: int| 0 <= i < zones@.len() implies fresh_zone_of(net, #[trigger] zones@[i]) by {
                    if i < before.len() {
                        assert(zones@[i] == before[i]);
                    }
                }
                assert forall|x: RouterId| x < id + 1 && is_anchor(net, x) implies exists|i: int| 0 <= i < zones@.len() && (#[trigger] zones@[i]).spec_id() == x by {
                    if x < id {
                        let i = choose|i: int| 0 <= i < before.len() && (#[trigger] before[i]).spec_id() == x;
                        assert(zones@[i] == before[i]);
                    } else {
                        assert(zones@[before.len() as int].spec_id() == x);
                    }
                }
            }
        }
        id = id + 1;
    }
    zones
}

/// The change `m` belongs to the zone made of `routers`: a BGP session with both ends in the
/// zone, or with its source in the zone when its role lets routes spread out of it; or a route
/// map on a member.
pub open spec fn binds(net: &Network, routers: Seq<RouterId>, m: ConfigModifier) -> bool {
    match m {
        ConfigModifier::Insert(c) | ConfigModifier::Remove(c) => match c {
            ConfigExpr::BgpSession { source, target, session_type } => routers.contains(source) && (routers.contains(
                target,
            ) || session_type == BgpSessionType::IBgpClient || session_type == BgpSessionType::EBgp || (
            spec_client_or_boundary(net, target) && !spec_self_client(net, source, target))),
            ConfigExpr::BgpRouteMap { router } => routers.contains(router),
            _ => false,
        },
        ConfigModifier::Update { from, to } => match (from, to) {
            (
                ConfigExpr::BgpSession { source: s1, target: t1, session_type: k1 },
                ConfigExpr::BgpSession { source: _, target: _, session_type: k2 },
            ) => routers.contains(s1) && (routers.contains(t1) || k1 == BgpSessionType::IBgpClient || k2
                == BgpSessionType::IBgpClient),
            (ConfigExpr::BgpRouteMap { router }, ConfigExpr::BgpRouteMap { router: _ }) => routers.contains(router),
            _ => false,
        },
    }
}

/// The indices below `n` of the changes that belong to the zone made of `routers`, in order.
pub open spec fn bound_indices(net: &Network, routers: Seq<RouterId>, mods: Seq<ConfigModifier>, n: int) -> Seq<ConfigId>
    decreases n,
{
    if n <= 0 {
        Seq::empty()
    } else if binds(net, routers, mods[n - 1]) {
        bound_indices(net, routers, mods, n - 1).push((n - 1) as usize)
    } else {
        bound_indices(net, routers, mods, n - 1)
    }
}

fn zone_binds(net: &Network, zone: &Zone, m: ConfigModifier) -> (r: bool)
    ensures
        r == binds(net, zone.spec_routers(), m),
{
    match m {
        ConfigModifier::Insert(c) | ConfigModifier::Remove(c) => match c {
            ConfigExpr::BgpSession { source, target, session_type } => {
                zone.contains_router(source) && (zone.contains_router(target) || session_type
                    == BgpSessionType::IBgpClient || session_type == BgpSessionType::EBgp || (is_client_or_boundary(
                    net,
                    target,
                ) && !is_self_client(net, source, target)))
            },
            ConfigExpr::BgpRouteMap { router } => zone.contains_router(router),
            _ => false,
        },
        ConfigModifier::Update { from, to } => match (from, to) {
            (
                ConfigExpr::BgpSession { source: s1, target: t1, session_type: k1 },
                ConfigExpr::BgpSession { source: _, target: _, session_type: k2 },
            ) => zone.contains_router(s1) && (zone.contains_router(t1) || k1 == BgpSessionType::IBgpClient || k2
                == BgpSessionType::IBgpClient),
            (ConfigExpr::BgpRouteMap { router }, ConfigExpr::BgpRouteMap { router: _ }) => zone.contains_router(router),
            _ => false,
        },
    }
}

/// Binds to each zone the indices of the changes that belong to it.
pub fn bind_config_to_zone(net: &Network, zones: &mut Vec<Zone>, modifiers: &Vec<ConfigModifier>)
    ensures
        final(zones)@.len() == old(zones)@.len(),
        forall|i: int| 0 <= i < old(zones)@.len() ==> (#[trigger] final(zones)@[i]).spec_configs() == old(zones)@[i].spec_configs()
            + bound_indices(net, old(zones)@[i].spec_routers(), modifiers@, modifiers@.len() as int),
        forall|i: int| 0 <= i < old(zones)@.len() ==> (#[trigger] final(zones)@[i]).spec_id() == old(zones)@[i].spec_id()
            && final(zones)@[i].spec_routers() == old(zones)@[i].spec_routers() && final(zones)@[i].spec_policy()
            == old(zones)@[i].spec_policy() && final(zones)@[i].spec_ordering() == old(zones)@[i].spec_ordering()
            && final(zones)@[i].spec_boundary() == old(zones)@[i].spec_boundary() && (old(zones)@[i].wf() ==> final(zones)@[i].wf()),
{
    let mut i: usize = 0;
    while i < zones.len()
        invariant
            0 <= i <= zones@.len(),
            zones@.len() == old(zones)@.len(),
            forall|j: int| i <= j < zones@.len() ==> #[trigger] zones@[j] == old(zones)@[j],
            forall|j: int| 0 <= j < i ==> (#[trigger] zones@[j]).spec_configs() == old(zones)@[j].spec_configs()
                + bound_indices(net, old(zones)@[j].spec_routers(), modifiers@, modifiers@.len() as int),
            forall|j: int| 0 <= j < i ==> (#[trigger] zones@[j]).spec_id() == old(zones)@[j].spec_id()
                && zones@[j].spec_routers() == old(zones)@[j].spec_routers() && zones@[j].spec_policy()
                == old(zones)@[j].spec_policy() && zones@[j].spec_ordering() == old(zones)@[j].spec_ordering()
                && zones@[j].spec_boundary() == old(zones)@[j].spec_boundary() && (old(zones)@[j].wf() ==> zones@[j].wf()),
        decreases zones@.len() - i,
    {
        let mut idx: usize = 0;
        let ghost z0 = zones@[i as int];
        proof {
            assert(z0.spec_configs() + bound_indices(net, z0.spec_routers(), modifiers@, 0) =~= z0.spec_configs());
        }
        while idx < modifiers.len()
            invariant
                0 <= i < zones@.len(),
                zones@.len() == old(zones)@.len(),
                0 <= idx <= modifiers@.len(),
                z0 == old(zones)@[i as int],
                forall|j: int| 0 <= j < zones@.len() && j != i ==> #[trigger] zones@[j] == old(zones)@[j] || j < i,
                forall|j: int| i < j < zones@.len() ==> #[trigger] zones@[j] == old(zones)@[j],
                forall|j: int| 0 <= j < i ==> (#[trigger] zones@[j]).spec_configs() == old(zones)@[j].spec_configs()
                    + bound_indices(net, old(zones)@[j].spec_routers(), modifiers@, modifiers@.len() as int),
                forall|j: int| 0 <= j < i ==> (#[trigger] zones@[j]).spec_id() == old(zones)@[j].spec_id()
                    && zones@[j].spec_routers() == old(zones)@[j].spec_routers() && zones@[j].spec_policy()
                    == old(zones)@[j].spec_policy() && zones@[j].spec_ordering() == old(zones)@[j].spec_ordering()
                    && zones@[j].spec_boundary() == old(zones)@[j].spec_boundary() && (old(zones)@[j].wf() ==> zones@[j].wf()),
                zones@[i as int].spec_configs() == z0.spec_configs() + bound_indices(net, z0.spec_routers(), modifiers@, idx as int),
                zones@[i as int].spec_id() == z0.spec_id(),
                zones@[i as int].spec_routers() == z0.spec_routers(),
                zones@[i as int].spec_policy() == z0.spec_policy(),
                zones@[i as int].spec_ordering() == z0.spec_ordering(),
                zones@[i as int].spec_boundary() == z0.spec_boundary(),
                z0.wf() ==> zones@[i as int].wf(),
            decreases modifiers@.len() - idx,
        {
            let b = zone_binds(net, &zones[i], modifiers[idx]);
            if b {
                zones[i].add_config(idx);
            }
            proof {
                assert(z0.spec_configs() + bound_indices(net, z0.spec_routers(), modifiers@, idx + 1) =~= if b {
                    (z0.spec_configs() + bound_indices(net, z0.spec_routers(), modifiers@, idx as int)).push(idx)
                } else {
                    z0.spec_configs() + bound_indices(net, z0.spec_routers(), modifiers@, idx as int)
                });
            }
            idx = idx + 1;
        }
        i = i + 1;
    }
}

/// The indices of the zones that hold router `r`.
pub open spec fn zones_of(zones: Seq<Seq<RouterId>>, r: RouterId) -> Set<int> {
    Set::new(|z: int| 0 <= z < zones.len() && zones[z].contains(r))
}

/// The members of each zone.
pub open spec fn zone_routers(zones: Seq<Zone>) -> Seq<Seq<RouterId>> {
    zones.map_values(|z: Zone| z.spec_routers())
}

/// The segments of the first `k` routers of `path`, with the zones shared along the last one:
/// a router joins the running segment while it shares a zone with all of it, and opens a new
/// segment otherwise.
pub open spec fn seg_fold(zones: Seq<Seq<RouterId>>, path: Seq<RouterId>, k: int) -> (Seq<Seq<RouterId>>, Set<int>)
    decreases k,
{
    if k <= 0 {
        (Seq::empty(), Set::empty())
    } else {
        let prev = seg_fold(zones, path, k - 1);
        let m = zones_of(zones, path[k - 1]);
        if prev.0.len() > 0 && exists|z: int| prev.1.contains(z) && m.contains(z) {
            (prev.0.update(prev.0.len() - 1, prev.0.last().push(path[k - 1])), prev.1.intersect(m))
        } else {
            (prev.0.push(seq![path[k - 1]]), m)
        }
    }
}

pub open spec fn segs_view(v: Seq<Vec<RouterId>>) -> Seq<Seq<RouterId>> {
    v.map_values(|s: Vec<RouterId>| s@)
}

fn zone_indices_of(zones: &Vec<Zone>, r: RouterId) -> (res: Vec<usize>)
    ensures
        forall|x: usize| #[trigger] res@.contains(x) <==> zones_of(zone_routers(zones@), r).contains(x as int),
{
    let mut res: Vec<usize> = Vec::new();
    let mut i: usize = 0;
    while i < zones.len()
        invariant
            0 <= i <= zones@.len(),
            forall|x: usize| #[trigger] res@.contains(x) <==> x < i && zones_of(zone_routers(zones@), r).contains(x as int),
        decreases zones@.len() - i,
    {
        let c = zones[i].contains_router(r);
        let ghost before = res@;
        if c {
            res.push(i);
        }
        proof {
            assert forall|x: usize| #[trigger] res@.contains(x) <==> x < i + 1 && zones_of(zone_routers(zones@), r).contains(x as int) by {
                if res@.contains(x) {
                    let k = choose|k: int| 0 <= k < res@.len() && res@[k] == x;
                    if k < before.len() {
                        assert(before[k] == x);
                        assert(before.contains(x));
                    }
                }
                if x < i && zones_of(zone_routers(zones@), r).contains(x as int) {
                    assert(before.contains(x));
                    let k = choose|k: int| 0 <= k < before.len() && before[k] == x;
                    assert(res@[k] == x);
                }
                if x == i && zones_of(zone_routers(zones@), r).contains(x as int) {
                    assert(res@[before.len() as int] == x);
                }
            }
        }
        i = i + 1;
    }
    res
}

/// The ids of `a` that are also in `b`.
fn intersect_ids(a: &Vec<usize>, b: &Vec<usize>) -> (r: Vec<usize>)
    ensures
        forall|x: usize| #[trigger] r@.contains(x) <==> a@.contains(x) && b@.contains(x),
{
    let mut r: Vec<usize> = Vec::new();
    let mut i: usize = 0;
    while i < a.len()
        invariant
            0 <= i <= a.len(),
            forall|x: usize| #[trigger] r@.contains(x) <==> a@.take(i as int).contains(x) && b@.contains(x),
        decreases a.len() - i,
    {
        let x = a[i];
        let ghost before = r@;
        let inb = vec_contains(b, x);
        if inb {
            r.push(x);
        }
        proof {
            assert forall|y: usize| #[trigger] r@.contains(y) <==> a@.take(i + 1).contains(y) && b@.contains(y) by {
                if r@.contains(y) {
                    let k = choose|k: int| 0 <= k < r@.len() && r@[k] == y;
                    if k < before.len() {
                        assert(before[k] == y);
                        assert(before.contains(y));
                        let j = choose|j: int| 0 <= j < i && #[trigger] a@.take(i as int)[j] == y;
                        assert(a@.take(i + 1)[j] == y);
                    } else {
                        assert(a@.take(i + 1)[i as int] == y);
                    }
                }
                if a@.take(i + 1).contains(y) && b@.contains(y) {
                    let j = choose|j: int| 0 <= j < i + 1 && #[trigger] a@.take(i + 1)[j] == y;
                    if j < i {
                        assert(a@.take(i as int)[j] == y);
                        assert(before.contains(y));
                        let k = choose|k: int| 0 <= k < before.len() && before[k] == y;
                        assert(r@[k] == y);
                    } else {
                        assert(r@[before.len() as int] == y);
                    }
                }
            }
        }
        i = i + 1;
    }
    assert(a@.take(a@.len() as int) =~= a@);
    r
}

/// Cuts `path` into maximal runs of routers that share a zone with all of their run.
pub fn segment_path(zones: &Vec<Zone>, path: &Vec<RouterId>) -> (segs: Vec<Vec<RouterId>>)
    ensures
        segs_view(segs@) == seg_fold(zone_routers(zones@), path@, path@.len() as int).0,
{
    let mut segs: Vec<Vec<RouterId>> = Vec::new();
    let mut run: Vec<usize> = Vec::new();
    let mut k: usize = 0;
    while k < path.len()
        invariant
            0 <= k <= path@.len(),
            segs_view(segs@) == seg_fold(zone_routers(zones@), path@, k as int).0,
            forall|x: usize| #[trigger] run@.contains(x) <==> seg_fold(zone_routers(zones@), path@, k as int).1.contains(x as int),
            forall|z: int| #[trigger] seg_fold(zone_routers(zones@), path@, k as int).1.contains(z) ==> 0 <= z < zones@.len(),
        decreases path@.len() - k,
    {
        let r = path[k];
        let m = zone_indices_of(zones, r);
        let shared = intersect_ids(&run, &m);
        let ghost prev = seg_fold(zone_routers(zones@), path@, k as int);
        let ghost mz = zones_of(zone_routers(zones@), r);
        proof {
            assert(seg_fold(zone_routers(zones@), path@, k + 1) == if prev.0.len() > 0 && exists|z: int| prev.1.contains(z) && mz.contains(z) {
                (prev.0.update(prev.0.len() - 1, prev.0.last().push(r)), prev.1.intersect(mz))
            } else {
                (prev.0.push(seq![r]), mz)
            });
            assert((exists|z: int| prev.1.contains(z) && mz.contains(z)) <==> shared@.len() > 0) by {
                if exists|z: int| prev.1.contains(z) && mz.contains(z) {
                    let z = choose|z: int| prev.1.contains(z) && mz.contains(z);
                    assert(0 <= z < zones@.len());
                    assert(zones@.len() == zones.len());
                    assert(z as usize as int == z);
                    assert(run@.contains(z as usize));
                    assert(m@.contains(z as usize));
                    assert(shared@.contains(z as usize));
                }
                if shared@.len() > 0 {
                    let x = shared@[0];
                    assert(shared@.contains(x));
                    assert(run@.contains(x) && m@.contains(x));
                    assert(prev.1.contains(x as int));
                    assert(mz.contains(x as int));
                }
            }
        }
        let ghost old_segs = segs@;
        if segs.len() > 0 && shared.len() > 0 {
            let last = segs.len() - 1;
            segs[last].push(r);
            run = shared;
            proof {
                assert(segs_view(segs@) =~= prev.0.update(prev.0.len() - 1, prev.0.last().push(r)));
            }
        } else {
            let mut fresh: Vec<RouterId> = Vec::new();
            fresh.push(r);
            segs.push(fresh);
            run = m;
            proof {
                assert(segs_view(segs@) =~= prev.0.push(seq![r]));
            }
        }
        k = k + 1;
    }
    segs
}

/// Zone `z` gets the condition `c` from the segments `segs`: some segment starts with the
/// router that `c` asks to reach `p`, and both its ends are members of `z`.
pub open spec fn gets_condition(z: Zone, segs: Seq<Seq<RouterId>>, p: Prefix, c: Condition) -> bool {
    exists|k: int|
        0 <= k < segs.len() && c == Condition::Reachable((#[trigger] segs[k])[0], p) && z.spec_routers().contains(segs[k][0])
            && z.spec_routers().contains(segs[k].last())
}

/// For each segment, asks each zone that holds both its ends that its first router reach `p`.
pub fn split_invariance_add_to_zones(zones: &mut Vec<Zone>, p: Prefix, segs: &Vec<Vec<RouterId>>)
    requires
        forall|k: int| 0 <= k < segs@.len() ==> (#[trigger] segs@[k])@.len() > 0,
        forall|i: int| 0 <= i < old(zones)@.len() ==> (#[trigger] old(zones)@[i]).wf(),
    ensures
        final(zones)@.len() == old(zones)@.len(),
        forall|i: int| 0 <= i < old(zones)@.len() ==> (#[trigger] final(zones)@[i]).wf() && final(zones)@[i].spec_id()
            == old(zones)@[i].spec_id() && final(zones)@[i].spec_routers() == old(zones)@[i].spec_routers()
            && final(zones)@[i].spec_configs() == old(zones)@[i].spec_configs() && final(zones)@[i].spec_ordering()
            == old(zones)@[i].spec_ordering() && final(zones)@[i].spec_boundary() == old(zones)@[i].spec_boundary(),
        forall|i: int, c: Condition| 0 <= i < old(zones)@.len() ==> (#[trigger] final(zones)@[i].spec_policy().contains(c)
            <==> old(zones)@[i].spec_policy().contains(c) || gets_condition(old(zones)@[i], segs_view(segs@), p, c)),
{
    let mut k: usize = 0;
    while k < segs.len()
        invariant
            0 <= k <= segs@.len(),
            forall|k2: int| 0 <= k2 < segs@.len() ==> (#[trigger] segs@[k2])@.len() > 0,
            zones@.len() == old(zones)@.len(),
            forall|i: int| 0 <= i < old(zones)@.len() ==> (#[trigger] zones@[i]).wf() && zones@[i].spec_id()
                == old(zones)@[i].spec_id() && zones@[i].spec_routers() == old(zones)@[i].spec_routers()
                && zones@[i].spec_configs() == old(zones)@[i].spec_configs() && zones@[i].spec_ordering()
                == old(zones)@[i].spec_ordering() && zones@[i].spec_boundary() == old(zones)@[i].spec_boundary(),
            forall|i: int, c: Condition| 0 <= i < old(zones)@.len() ==> (#[trigger] zones@[i].spec_policy().contains(c)
                <==> old(zones)@[i].spec_policy().contains(c) || gets_condition(old(zones)@[i], segs_view(segs@).take(k as int), p, c)),
        decreases segs@.len() - k,
    {
        let seg = &segs[k];
        let first = seg[0];
        let last = seg[seg.len() - 1];
        let cond = Condition::Reachable(first, p);
        let ghost sv = segs_view(segs@);
        proof {
            assert(sv[k as int] == seg@);
        }
        let mut i: usize = 0;
        while i < zones.len()
            invariant
                0 <= k < segs@.len(),
                sv == segs_view(segs@),
                sv[k as int] == seg@,
                seg@.len() > 0,
                first == seg@[0],
                last == seg@.last(),
                cond == Condition::Reachable(first, p),
                0 <= i <= zones@.len(),
                zones@.len() == old(zones)@.len(),
                forall|j: int| 0 <= j < old(zones)@.len() ==> (#[trigger] zones@[j]).wf() && zones@[j].spec_id()
                    == old(zones)@[j].spec_id() && zones@[j].spec_routers() == old(zones)@[j].spec_routers()
                    && zones@[j].spec_configs() == old(zones)@[j].spec_configs() && zones@[j].spec_ordering()
                    == old(zones)@[j].spec_ordering() && zones@[j].spec_boundary() == old(zones)@[j].spec_boundary(),
                forall|j: int, c: Condition| 0 <= j < old(zones)@.len() ==> (#[trigger] zones@[j].spec_policy().contains(c)
                    <==> old(zones)@[j].spec_policy().contains(c) || gets_condition(old(zones)@[j], sv.take(k as int), p, c)
                    || (j < i && c == cond && old(zones)@[j].spec_routers().contains(first) && old(zones)@[j].spec_routers().contains(last))),
            decreases zones@.len() - i,
        {
            let both = zones[i].contains_router(first) && zones[i].contains_router(last);
            let ghost zb = zones@[i as int];
            if both {
                zones[i].add_hard_policy(cond);
            }
            proof {
                assert forall|c: Condition| #[trigger] zones@[i as int].spec_policy().contains(c) <==> zb.spec_policy().contains(c) || (both && c == cond) by {
                    if both && !zb.spec_policy().contains(cond) {
                        if zones@[i as int].spec_policy().contains(c) && c != cond {
                            let q = choose|q: int| 0 <= q < zones@[i as int].spec_policy().len() && zones@[i as int].spec_policy()[q] == c;
                            assert(zb.spec_policy()[q] == c);
                        }
                        if zb.spec_policy().contains(c) {
                            let q = choose|q: int| 0 <= q < zb.spec_policy().len() && zb.spec_policy()[q] == c;
                            assert(zones@[i as int].spec_policy()[q] == c);
                        }
                        if c == cond {
                            assert(zones@[i as int].spec_policy()[zb.spec_policy().len() as int] == c);
                        }
                    }
                }
            }
            i = i + 1;
        }
        proof {
            assert forall|j: int, c: Condition| 0 <= j < old(zones)@.len() implies (#[trigger] zones@[j].spec_policy().contains(c)
                <==> old(zones)@[j].spec_policy().contains(c) || gets_condition(old(zones)@[j], sv.take(k + 1), p, c)) by {
                let z = old(zones)@[j];
                if gets_condition(z, sv.take(k + 1), p, c) {
                    let q = choose|q: int| 0 <= q < sv.take(k + 1).len() && c == Condition::Reachable((#[trigger] sv.take(k + 1)[q])[0], p)
                        && z.spec_routers().contains(sv.take(k + 1)[q][0]) && z.spec_routers().contains(sv.take(k + 1)[q].last());
                    if q < k {
                        assert(sv.take(k as int)[q] == sv.take(k + 1)[q]);
                        assert(gets_condition(z, sv.take(k as int), p, c));
                    }
                }
                if gets_condition(z, sv.take(k as int), p, c) {
                    let q = choose|q: int| 0 <= q < sv.take(k as int).len() && c == Condition::Reachable((#[trigger] sv.take(k as int)[q])[0], p)
                        && z.spec_routers().contains(sv.take(k as int)[q][0]) && z.spec_routers().contains(sv.take(k as int)[q].last());
                    assert(sv.take(k as int)[q] == sv.take(k + 1)[q]);
                }
                if c == cond && z.spec_routers().contains(first) && z.spec_routers().contains(last) {
                    assert(sv.take(k + 1)[k as int] == seg@);
                }
            }
        }
        k = k + 1;
    }
    proof {
        assert(segs_view(segs@).take(segs@.len() as int) =~= segs_view(segs@));
    }
}

/// Synthesis of a configuration-level dependency graph by zones: the network is cut into zones,
/// each reachability condition is split over the zones its paths cross, and the per-zone
/// orderings are folded into one graph.
pub struct StrategyZone {
    net: Network,
    zones: Vec<Zone>,
    modifiers: Vec<ConfigModifier>,
    hard_policy: Vec<Condition>,
    before_state: ForwardingState,
    after_state: ForwardingState,
}

/// The next hop of `s` for `p` differs before and after the changes.
pub open spec fn hop_changes(before: &ForwardingState, after: &ForwardingState, s: RouterId, p: Prefix) -> bool {
    !(crate::forwarding_state::next_hop_answer(before, s, p) == crate::forwarding_state::next_hop_answer(after, s, p))
}

/// `e` is the dependency that router `segs[a][b]` of a later segment (`a >= 1`) brings: its
/// next hop changes, so it changes after `r` (`after_r`) or `r` changes after it.
pub open spec fn seg_dep_at(
    before: &ForwardingState,
    after: &ForwardingState,
    r: RouterId,
    p: Prefix,
    segs: Seq<Seq<RouterId>>,
    after_r: bool,
    e: (RouterId, RouterId),
    a: int,
    b: int,
) -> bool {
    &&& 1 <= a < segs.len()
    &&& 0 <= b < segs[a].len()
    &&& hop_changes(before, after, segs[a][b], p)
    &&& e == if after_r {
        (r, segs[a][b])
    } else {
        (segs[a][b], r)
    }
}

/// `e` comes from a router before position `(i, j)` of `segs`.
pub open spec fn seg_dep_before(
    before: &ForwardingState,
    after: &ForwardingState,
    r: RouterId,
    p: Prefix,
    segs: Seq<Seq<RouterId>>,
    after_r: bool,
    e: (RouterId, RouterId),
    i: int,
    j: int,
) -> bool {
    exists|a: int, b: int| #![trigger segs[a][b]] seg_dep_at(before, after, r, p, segs, after_r, e, a, b) && (a < i || (a == i && b < j))
}

/// The router-level dependencies that the segments `segs` of a route from `r` bring.
pub open spec fn seg_dep_edges(
    before: &ForwardingState,
    after: &ForwardingState,
    r: RouterId,
    p: Prefix,
    segs: Seq<Seq<RouterId>>,
    after_r: bool,
) -> Set<(RouterId, RouterId)> {
    Set::new(|e: (RouterId, RouterId)| exists|a: int, b: int| #![trigger segs[a][b]] seg_dep_at(before, after, r, p, segs, after_r, e, a, b))
}

/// The route from `r` toward `p` in `fs`, when `r` reaches `p`.
pub open spec fn route_of(fs: &ForwardingState, r: RouterId, p: Prefix) -> Seq<RouterId> {
    choose|q: Seq<RouterId>| q[0] == r && fs.is_walk(fs.prefix_pos(p), q, crate::forwarding_state::CacheResult::ValidPath)
}

/// Splitting the reachability condition `cond` over the zones (whose members `zr` lists) asks
/// zone `z` for `c`: a segment of the route before or after the changes starts with the
/// router that `c` names and has both ends in `z`.
pub open spec fn adds_condition(
    before: &ForwardingState,
    after: &ForwardingState,
    zr: Seq<Seq<RouterId>>,
    z: Zone,
    cond: Condition,
    c: Condition,
) -> bool {
    match cond {
        Condition::Reachable(r, p) => {
            ||| gets_condition(z, seg_fold(zr, route_of(before, r, p), route_of(before, r, p).len() as int).0, p, c)
            ||| gets_condition(z, seg_fold(zr, route_of(after, r, p), route_of(after, r, p).len() as int).0, p, c)
        },
        _ => false,
    }
}

/// The router-level dependencies that splitting the reachability condition `cond` brings: a
/// router on a later segment of the route before the changes whose next hop changes must
/// change after the source, one on a later segment of the route after the changes before it.
pub open spec fn cond_dep_edges(
    before: &ForwardingState,
    after: &ForwardingState,
    zr: Seq<Seq<RouterId>>,
    cond: Condition,
) -> Set<(RouterId, RouterId)> {
    match cond {
        Condition::Reachable(r, p) => seg_dep_edges(
            before,
            after,
            r,
            p,
            seg_fold(zr, route_of(before, r, p), route_of(before, r, p).len() as int).0,
            true,
        ).union(seg_dep_edges(before, after, r, p, seg_fold(zr, route_of(after, r, p), route_of(after, r, p).len() as int).0, false)),
        _ => Set::empty(),
    }
}

/// The dependencies that the first `n` conditions of `conds` bring.
pub open spec fn deps_upto(
    before: &ForwardingState,
    after: &ForwardingState,
    zr: Seq<Seq<RouterId>>,
    conds: Seq<Condition>,
    n: int,
) -> Set<(RouterId, RouterId)> {
    Set::new(|e: (RouterId, RouterId)| exists|k: int| 0 <= k < n && #[trigger] cond_dep_edges(before, after, zr, conds[k]).contains(e))
}

proof fn lemma_hop_changes_same(b1: &ForwardingState, a1: &ForwardingState, b2: &ForwardingState, a2: &ForwardingState, s: RouterId, p: Prefix)
    requires
        b1.same_tables(b2),
        a1.same_tables(a2),
    ensures
        hop_changes(b1, a1, s, p) == hop_changes(b2, a2, s, p),
{
    if s < b1.spec_num_devices() && b1.spec_prefixes().contains(p) {
        let pos = b1.prefix_pos(p);
        assert(b1.next_of(s as int, pos) == b2.next_of(s as int, pos));
    }
    if s < a1.spec_num_devices() && a1.spec_prefixes().contains(p) {
        let pos = a1.prefix_pos(p);
        assert(a1.next_of(s as int, pos) == a2.next_of(s as int, pos));
    }
}

/// A condition that zone synthesis handles: reachability of a prefix.
pub open spec fn is_reachability(c: Condition) -> bool {
    c matches Condition::Reachable(_, _)
}

proof fn lemma_segs_nonempty(zones: Seq<Seq<RouterId>>, path: Seq<RouterId>, k: int)
    ensures
        forall|j: int| 0 <= j < seg_fold(zones, path, k).0.len() ==> (#[trigger] seg_fold(zones, path, k).0[j]).len() > 0,
    decreases k,
{
    if k > 0 {
        lemma_segs_nonempty(zones, path, k - 1);
        let prev = seg_fold(zones, path, k - 1);
        let m = zones_of(zones, path[k - 1]);
        let cur = seg_fold(zones, path, k);
        if prev.0.len() > 0 && exists|z: int| prev.1.contains(z) && m.contains(z) {
            assert forall|j: int| 0 <= j < cur.0.len() implies (#[trigger] cur.0[j]).len() > 0 by {
                if j < prev.0.len() - 1 {
                    assert(cur.0[j] == prev.0[j]);
                } else {
                    assert(cur.0[j] == prev.0.last().push(path[k - 1]));
                }
            }
        } else {
            assert forall|j: int| 0 <= j < cur.0.len() implies (#[trigger] cur.0[j]).len() > 0 by {
                if j < prev.0.len() {
                    assert(cur.0[j] == prev.0[j]);
                } else {
                    assert(cur.0[j] == seq![path[k - 1]]);
                }
            }
        }
    }
}

/// Reachability depends on the forwarding tables alone.
proof fn lemma_reaches_transfer(a: &ForwardingState, b: &ForwardingState, x: RouterId, p: Prefix)
    requires
        a.same_tables(b),
    ensures
        a.reaches(x, p) <==> b.reaches(x, p),
{
    if a.reaches(x, p) {
        let q = choose|q: Seq<RouterId>| q[0] == x && a.is_walk(a.prefix_pos(p), q, crate::forwarding_state::CacheResult::ValidPath);
        crate::forwarding_state::lemma_walk_transfer(a, b, a.prefix_pos(p), q, crate::forwarding_state::CacheResult::ValidPath);
    }
    if b.reaches(x, p) {
        let q = choose|q: Seq<RouterId>| q[0] == x && b.is_walk(b.prefix_pos(p), q, crate::forwarding_state::CacheResult::ValidPath);
        assert(b.same_tables(a));
        crate::forwarding_state::lemma_walk_transfer(b, a, b.prefix_pos(p), q, crate::forwarding_state::CacheResult::ValidPath);
    }
}

impl StrategyZone {
    /// Records, for every router on a segment after the first whose next hop differs between
    /// the two states, that it depends on `r` (`after_r`) or `r` on it.
    fn add_dependencies(&self, builder: &mut SolutionBuilder, r: RouterId, p: Prefix, segs: &Vec<Vec<RouterId>>, after_r: bool)
        requires
            self.wf(),
            old(builder).wf(),
        ensures
            final(builder).wf(),
            final(builder).configs_view() == old(builder).configs_view(),
            final(builder).nodes_view().edges == old(builder).nodes_view().edges.union(
                seg_dep_edges(&self.spec_before(), &self.spec_after(), r, p, segs_view(segs@), after_r),
            ),
    {
        let ghost target = seg_dep_edges(&self.before_state, &self.after_state, r, p, segs_view(segs@), after_r);
        let mut i: usize = 1;
        while i < segs.len()
            invariant
                self.wf(),
                builder.wf(),
                builder.configs_view() == old(builder).configs_view(),
                1 <= i,
                target == seg_dep_edges(&self.before_state, &self.after_state, r, p, segs_view(segs@), after_r),
                forall|e: (RouterId, RouterId)| #[trigger] builder.nodes_view().edges.contains(e) <==> old(builder).nodes_view().edges.contains(e)
                    || (target.contains(e) && seg_dep_before(&self.before_state, &self.after_state, r, p, segs_view(segs@), after_r, e, i as int, 0)),
            decreases segs.len() - i,
        {
            let seg = &segs[i];
            proof {
                assert(segs_view(segs@)[i as int] == seg@);
            }
            let mut j: usize = 0;
            while j < seg.len()
                invariant
                    self.wf(),
                    builder.wf(),
                    builder.configs_view() == old(builder).configs_view(),
                    1 <= i < segs@.len(),
                    segs_view(segs@)[i as int] == seg@,
                    target == seg_dep_edges(&self.before_state, &self.after_state, r, p, segs_view(segs@), after_r),
                    0 <= j <= seg@.len(),
                    forall|e: (RouterId, RouterId)| #[trigger] builder.nodes_view().edges.contains(e) <==> old(builder).nodes_view().edges.contains(e)
                        || (target.contains(e) && seg_dep_before(&self.before_state, &self.after_state, r, p, segs_view(segs@), after_r, e, i as int, j as int)),
                decreases seg.len() - j,
            {
                let s = seg[j];
                let d = self.before_state.has_diff_next_hop(s, p, &self.after_state);
                let e = if after_r { (r, s) } else { (s, r) };
                if d {
                    let _ = builder.add_node_dependency(e.0, e.1);
                }
                proof {
                    assert forall|x: (RouterId, RouterId)| #[trigger] builder.nodes_view().edges.contains(x) <==> old(builder).nodes_view().edges.contains(x)
                        || (target.contains(x) && seg_dep_before(&self.before_state, &self.after_state, r, p, segs_view(segs@), after_r, x, i as int, j + 1)) by {
                        if d && x == e {
                            assert(target.contains(x)) by {
                                assert(segs_view(segs@)[i as int][j as int] == s);
                            }
                        }
                        if target.contains(x) && seg_dep_before(&self.before_state, &self.after_state, r, p, segs_view(segs@), after_r, x, i as int, j + 1)
                            && !seg_dep_before(&self.before_state, &self.after_state, r, p, segs_view(segs@), after_r, x, i as int, j as int) {
                            let (a, b) = choose|a: int, b: int| #![trigger segs_view(segs@)[a][b]]
                                seg_dep_at(&self.before_state, &self.after_state, r, p, segs_view(segs@), after_r, x, a, b)
                                    && (a < i || (a == i && b < j + 1));
                            assert(a == i && b == j);
                        }
                    }
                }
                j = j + 1;
            }
            proof {
                assert forall|x: (RouterId, RouterId)| #[trigger] builder.nodes_view().edges.contains(x) <==> old(builder).nodes_view().edges.contains(x)
                    || (target.contains(x) && seg_dep_before(&self.before_state, &self.after_state, r, p, segs_view(segs@), after_r, x, i + 1, 0)) by {
                    if seg_dep_before(&self.before_state, &self.after_state, r, p, segs_view(segs@), after_r, x, i + 1, 0) {
                        let (a, b) = choose|a: int, b: int| #![trigger segs_view(segs@)[a][b]]
                            seg_dep_at(&self.before_state, &self.after_state, r, p, segs_view(segs@), after_r, x, a, b)
                                && (a < i + 1 || (a == i + 1 && b < 0));
                        assert(seg_dep_before(&self.before_state, &self.after_state, r, p, segs_view(segs@), after_r, x, i as int, seg@.len() as int));
                    }
                }
            }
            i = i + 1;
        }
        proof {
            assert forall|x: (RouterId, RouterId)| #[trigger] builder.nodes_view().edges.contains(x) <==> old(builder).nodes_view().edges.contains(x)
                || target.contains(x) by {
                if target.contains(x) {
                    let (a, b) = choose|a: int, b: int| #![trigger segs_view(segs@)[a][b]]
                        seg_dep_at(&self.before_state, &self.after_state, r, p, segs_view(segs@), after_r, x, a, b);
                    assert(seg_dep_before(&self.before_state, &self.after_state, r, p, segs_view(segs@), after_r, x, i as int, 0));
                }
            }
            assert(builder.nodes_view().edges =~= old(builder).nodes_view().edges.union(target));
        }
    }

    pub closed spec fn spec_zones(&self) -> Seq<Zone> {
        self.zones@
    }

    pub closed spec fn spec_net(&self) -> &Network {
        &self.net
    }

    pub closed spec fn spec_modifiers(&self) -> Seq<ConfigModifier> {
        self.modifiers@
    }

    pub closed spec fn spec_policy(&self) -> Seq<Condition> {
        self.hard_policy@
    }

    pub closed spec fn spec_before(&self) -> ForwardingState {
        self.before_state
    }

    pub closed spec fn spec_after(&self) -> ForwardingState {
        self.after_state
    }

    pub closed spec fn wf(&self) -> bool {
        &&& self.net.wf()
        &&& self.before_state.wf()
        &&& self.after_state.wf()
        &&& self.before_state.spec_num_devices() == self.after_state.spec_num_devices()
        &&& self.before_state.spec_prefixes() == self.after_state.spec_prefixes()
        &&& forall|i: int| 0 <= i < self.zones@.len() ==> (#[trigger] self.zones@[i]).wf()
    }

    /// A synthesis run over `net` for `modifiers` under `hard_policy`, given the forwarding
    /// states before and after all modifiers; no zones yet.
    pub fn new(
        net: Network,
        modifiers: Vec<ConfigModifier>,
        hard_policy: Vec<Condition>,
        before_state: ForwardingState,
        after_state: ForwardingState,
    ) -> (r: StrategyZone)
        requires
            net.wf(),
            before_state.wf(),
            after_state.wf(),
            before_state.spec_num_devices() == after_state.spec_num_devices(),
            before_state.spec_prefixes() == after_state.spec_prefixes(),
        ensures
            r.wf(),
            r.spec_zones() == Seq::<Zone>::empty(),
            r.spec_modifiers() == modifiers@,
            r.spec_policy() == hard_policy@,
            r.spec_before() == before_state,
            r.spec_after() == after_state,
    {
        StrategyZone { net, zones: Vec::new(), modifiers, hard_policy, before_state, after_state }
    }

    /// Folds the ordering found for each zone (the `z`-th for the `z`-th zone: each change with
    /// the routers whose next hop it changes) into the configuration-level graph. Fails with
    /// `ZoneSegmentationFailed` when the number of orderings is not the number of zones, and with
    /// `DagHasCycle` when the orderings and the router-level dependencies contradict each other;
    /// a graph that is returned has no cycle and keeps each zone's order.
    pub fn assemble_zone_orderings(
        &self,
        builder: &mut SolutionBuilder,
        orderings: &Vec<Vec<(ConfigId, Vec<(RouterId, Prefix)>)>>,
    ) -> (r: Result<Dag, crate::types::Error>)
        requires
            old(builder).wf(),
        ensures
            final(builder).wf(),
            orderings@.len() != self.spec_zones().len() ==> r == Err::<Dag, crate::types::Error>(
                crate::types::Error::ZoneSegmentationFailed,
            ) && *final(builder) == *old(builder),
            orderings@.len() == self.spec_zones().len() ==> {
                &&& final(builder).nodes_view() == old(builder).nodes_view()
                &&& old(builder).configs_view().edges.subset_of(final(builder).configs_view().edges)
                &&& forall|z: int| 0 <= z < orderings@.len() ==> chain_edges(ids_of((#[trigger] orderings@[z])@)).subset_of(
                    final(builder).configs_view().edges,
                ) && forall|k: int| 0 <= k < orderings@[z]@.len() ==> final(builder).configs_view().nodes.contains(
                    #[trigger] orderings@[z]@[k].0,
                )
                &&& final(builder).configs_view().nodes == old(builder).configs_view().nodes.union(
                    orderings_ids(orderings@, orderings@.len() as int),
                )
                &&& final(builder).configs_view().edges == old(builder).configs_view().edges.union(
                    orderings_chains(orderings@, orderings@.len() as int),
                ).union(translated_edges(old(builder).nodes_view().edges, final(builder).last_config(), final(builder).first_config()))
                &&& final(builder).last_config() == fold_orderings_last(old(builder).last_config(), orderings@, orderings@.len() as int)
                &&& final(builder).first_config() == fold_orderings_first(old(builder).first_config(), orderings@, orderings@.len() as int)
                &&& r.is_ok() <==> final(builder).configs_view().acyclic()
                &&& r.is_ok() ==> r.unwrap().wf() && r.unwrap()@ == final(builder).configs_view()
                &&& r.is_err() ==> r == Err::<Dag, crate::types::Error>(
                    crate::types::Error::Dag(crate::types::DagError::DagHasCycle),
                )
            },
    {
        if orderings.len() != self.zones.len() {
            return Err(crate::types::Error::ZoneSegmentationFailed);
        }
        match builder.assemble(orderings) {
            Ok(d) => Ok(d),
            Err(e) => Err(crate::types::Error::Dag(e)),
        }
    }

    /// Builds each zone's emulated boundary (see `Zone::set_emulated_network`) from the states
    /// before and after the changes; fails with the first route that does not reach its prefix.
    pub fn emulate_zones(&mut self) -> (r: Result<(), crate::netsim::NetworkError>)
        requires
            old(self).wf(),
        ensures
            final(self).wf(),
            final(self).spec_net() == old(self).spec_net(),
            final(self).spec_modifiers() == old(self).spec_modifiers(),
            final(self).spec_policy() == old(self).spec_policy(),
            final(self).spec_before() == old(self).spec_before(),
            final(self).spec_after() == old(self).spec_after(),
            final(self).spec_zones().len() == old(self).spec_zones().len(),
            forall|i: int| 0 <= i < old(self).spec_zones().len() ==> (#[trigger] final(self).spec_zones()[i]).spec_id()
                == old(self).spec_zones()[i].spec_id() && final(self).spec_zones()[i].spec_routers() == old(self).spec_zones()[i].spec_routers()
                && final(self).spec_zones()[i].spec_configs() == old(self).spec_zones()[i].spec_configs()
                && final(self).spec_zones()[i].spec_policy() == old(self).spec_zones()[i].spec_policy(),
            r.is_ok() ==> forall|i: int| 0 <= i < final(self).spec_zones().len() ==> #[trigger] crate::zone::links_ok(
                &old(self).spec_before(),
                &old(self).spec_after(),
                final(self).spec_zones()[i],
            ),
            r.is_ok() ==> forall|i: int| 0 <= i < final(self).spec_zones().len() ==> #[trigger] crate::zone::boundary_ok(
                &old(self).spec_before(),
                &old(self).spec_after(),
                final(self).spec_zones()[i],
                old(self).spec_zones()[i].spec_routers(),
            ),
            r.is_ok() <==> forall|i: int| 0 <= i < old(self).spec_zones().len() ==> #[trigger] crate::zone::zone_routes_ok(
                &old(self).spec_before(),
                &old(self).spec_after(),
                old(self).spec_zones()[i].spec_routers(),
            ),
    {
        let mut i: usize = 0;
        while i < self.zones.len()
            invariant
                self.wf(),
                self.net == old(self).net,
                self.modifiers == old(self).modifiers,
                self.hard_policy == old(self).hard_policy,
                self.before_state == old(self).before_state,
                self.after_state == old(self).after_state,
                0 <= i <= self.zones@.len(),
                self.zones@.len() == old(self).zones@.len(),
                forall|j: int| 0 <= j < old(self).zones@.len() ==> (#[trigger] self.zones@[j]).spec_id() == old(self).zones@[j].spec_id()
                    && self.zones@[j].spec_routers() == old(self).zones@[j].spec_routers()
                    && self.zones@[j].spec_configs() == old(self).zones@[j].spec_configs()
                    && self.zones@[j].spec_policy() == old(self).zones@[j].spec_policy(),
                forall|j: int| 0 <= j < i ==> #[trigger] crate::zone::links_ok(&old(self).before_state, &old(self).after_state, self.zones@[j]),
                forall|j: int| 0 <= j < i ==> #[trigger] crate::zone::boundary_ok(&old(self).before_state, &old(self).after_state, self.zones@[j], old(self).zones@[j].spec_routers()),
                forall|j: int| 0 <= j < i ==> #[trigger] crate::zone::zone_routes_ok(&old(self).before_state, &old(self).after_state, old(self).zones@[j].spec_routers()),
            decreases self.zones@.len() - i,
        {
            let ghost zs = self.zones@;
            let r = self.zones[i].set_emulated_network(&self.before_state, &self.after_state);
            proof {
                assert forall|j: int| 0 <= j < old(self).zones@.len() implies (#[trigger] self.zones@[j]).wf() by {
                    if j != i {
                        assert(self.zones@[j] == zs[j]);
                    }
                }
            }
            match r {
                Ok(()) => {},
                Err(e) => {
                    proof {
                        assert(!crate::zone::zone_routes_ok(&old(self).before_state, &old(self).after_state, old(self).zones@[i as int].spec_routers()));
                    }
                    return Err(e);
                },
            }
            proof {
                assert forall|j: int| 0 <= j < i + 1 implies #[trigger] crate::zone::links_ok(&old(self).before_state, &old(self).after_state, self.zones@[j]) by {
                    if j < i {
                        assert(self.zones@[j] == zs[j]);
                    }
                }
                assert forall|j: int| 0 <= j < i + 1 implies #[trigger] crate::zone::boundary_ok(&old(self).before_state, &old(self).after_state, self.zones@[j], old(self).zones@[j].spec_routers()) by {
                    if j < i {
                        assert(self.zones@[j] == zs[j]);
                    }
                }
            }
            i = i + 1;
        }
        Ok(())
    }

    pub fn get_zones(&self) -> (r: &Vec<Zone>)
        ensures
            r@ == self.spec_zones(),
    {
        &self.zones
    }

    /// Cuts the network into zones, binds each change to the zones it belongs to, and marks the
    /// virtual boundary routers of each zone.
    pub fn init_zones(&mut self)
        requires
            old(self).wf(),
        ensures
            final(self).wf(),
            final(self).spec_net() == old(self).spec_net(),
            final(self).spec_modifiers() == old(self).spec_modifiers(),
            final(self).spec_policy() == old(self).spec_policy(),
            final(self).spec_before() == old(self).spec_before(),
            final(self).spec_after() == old(self).spec_after(),
            forall|i: int, j: int| 0 <= i < j < final(self).spec_zones().len() ==> (#[trigger] final(self).spec_zones()[i]).spec_id()
                < (#[trigger] final(self).spec_zones()[j]).spec_id(),
            forall|id: RouterId| is_anchor(final(self).spec_net(), id) ==> exists|i: int| 0 <= i < final(self).spec_zones().len()
                && (#[trigger] final(self).spec_zones()[i]).spec_id() == id,
            forall|i: int| 0 <= i < final(self).spec_zones().len() ==> {
                let z = #[trigger] final(self).spec_zones()[i];
                &&& is_anchor(final(self).spec_net(), z.spec_id())
                &&& is_zone_of(final(self).spec_net(), z.spec_id(), z.spec_routers())
                &&& z.spec_configs() == bound_indices(final(self).spec_net(), z.spec_routers(), final(self).spec_modifiers(), final(self).spec_modifiers().len() as int)
                &&& z.spec_policy().len() == 0
                &&& z.spec_ordering().is_none()
                &&& forall|x: RouterId| #[trigger] z.spec_boundary().contains(x) <==> z.spec_routers().contains(x)
                    && crate::zone::leaves_zone(&final(self).spec_before(), &final(self).spec_after(), z.spec_routers(), x)
            },
    {
        let mut zones = partition_zone(&self.net);
        let ghost parted = zones@;
        bind_config_to_zone(&self.net, &mut zones, &self.modifiers);
        proof {
            assert forall|i: int| 0 <= i < zones@.len() implies (#[trigger] zones@[i]).spec_configs() == bound_indices(&self.net, zones@[i].spec_routers(), self.modifiers@, self.modifiers@.len() as int) by {
                assert(parted[i].spec_configs() + bound_indices(&self.net, parted[i].spec_routers(), self.modifiers@, self.modifiers@.len() as int)
                    =~= bound_indices(&self.net, parted[i].spec_routers(), self.modifiers@, self.modifiers@.len() as int));
                assert(fresh_zone_of(&self.net, parted[i]));
            }
        }
        let ghost bound = zones@;
        let mut i: usize = 0;
        while i < zones.len()
            invariant
                self.wf(),
                self == old(self),
                zones@.len() == bound.len(),
                bound.len() == parted.len(),
                0 <= i <= zones@.len(),
                forall|j: int| i <= j < zones@.len() ==> #[trigger] zones@[j] == bound[j],
                forall|j: int| 0 <= j < zones@.len() ==> (#[trigger] zones@[j]).spec_id() == bound[j].spec_id()
                    && zones@[j].spec_routers() == bound[j].spec_routers() && zones@[j].spec_configs() == bound[j].spec_configs()
                    && zones@[j].spec_policy() == bound[j].spec_policy() && zones@[j].spec_ordering() == bound[j].spec_ordering()
                    && zones@[j].wf(),
                forall|j: int| 0 <= j < i ==> forall|x: RouterId| #[trigger] (#[trigger] zones@[j]).spec_boundary().contains(x) <==> zones@[j].spec_routers().contains(x)
                    && crate::zone::leaves_zone(&self.before_state, &self.after_state, zones@[j].spec_routers(), x),
                forall|j: int| 0 <= j < parted.len() ==> fresh_zone_of(&self.net, #[trigger] parted[j]),
                forall|id: RouterId| is_anchor(&self.net, id) ==> exists|j: int| 0 <= j < parted.len() && (#[trigger] parted[j]).spec_id() == id,
                forall|a: int, b: int| 0 <= a < b < parted.len() ==> (#[trigger] parted[a]).spec_id() < (#[trigger] parted[b]).spec_id(),
                forall|j: int| 0 <= j < bound.len() ==> (#[trigger] bound[j]).spec_id() == parted[j].spec_id()
                    && bound[j].spec_routers() == parted[j].spec_routers() && bound[j].spec_policy() == parted[j].spec_policy()
                    && bound[j].spec_ordering() == parted[j].spec_ordering() && bound[j].wf(),
            decreases zones@.len() - i,
        {
            proof {
                assert(fresh_zone_of(&self.net, parted[i as int]));
            }
            zones[i].init_virtual_boundary_routers(&self.before_state, &self.after_state);
            i = i + 1;
        }
        proof {
            assert forall|id: RouterId| is_anchor(&self.net, id) implies exists|j: int| 0 <= j < zones@.len() && (#[trigger] zones@[j]).spec_id() == id by {
                let j = choose|j: int| 0 <= j < parted.len() && (#[trigger] parted[j]).spec_id() == id;
                assert(zones@[j].spec_id() == id);
            }
            assert forall|a: int, b: int| 0 <= a < b < zones@.len() implies (#[trigger] zones@[a]).spec_id() < (#[trigger] zones@[b]).spec_id() by {
                assert(parted[a].spec_id() < parted[b].spec_id());
            }
            assert forall|j: int| 0 <= j < zones@.len() implies fresh_zone_of(&self.net, #[trigger] parted[j]) by {}
        }
        self.zones = zones;
    }

    /// Splits each reachability condition over the zones that its paths, before and after all
    /// changes, cross, and records the router-level dependencies they imply: a router on a
    /// later segment of the old path whose next hop changes must change after the source, one
    /// on a later segment of the new path before it. Fails with `NotImplemented` when a
    /// condition is not reachability, and with `InvalidInitialState` when a source does not
    /// reach its prefix before or after the changes.
    pub fn split_invariance(&mut self, builder: &mut SolutionBuilder) -> (r: Result<(), crate::types::Error>)
        requires
            old(self).wf(),
            old(builder).wf(),
        ensures
            final(self).wf(),
            final(builder).wf(),
            final(self).spec_net() == old(self).spec_net(),
            final(self).spec_modifiers() == old(self).spec_modifiers(),
            final(self).spec_policy() == old(self).spec_policy(),
            final(self).spec_zones().len() == old(self).spec_zones().len(),
            final(builder).configs_view() == old(builder).configs_view(),
            r.is_ok() ==> final(builder).nodes_view().edges == old(builder).nodes_view().edges.union(
                deps_upto(
                    &old(self).spec_before(),
                    &old(self).spec_after(),
                    zone_routers(old(self).spec_zones()),
                    old(self).spec_policy(),
                    old(self).spec_policy().len() as int,
                ),
            ),
            (exists|k: int| 0 <= k < old(self).spec_policy().len() && !is_reachability(#[trigger] old(self).spec_policy()[k]))
                ==> r == Err::<(), crate::types::Error>(crate::types::Error::NotImplemented),
            (forall|k: int| 0 <= k < old(self).spec_policy().len() ==> is_reachability(#[trigger] old(self).spec_policy()[k]))
                ==> (r.is_ok() <==> forall|k: int| 0 <= k < old(self).spec_policy().len() ==> (#[trigger] old(self).spec_policy()[k]
                    matches Condition::Reachable(x, p) && old(self).spec_before().reaches(x, p) && old(self).spec_after().reaches(x, p))),
            r.is_err() ==> r == Err::<(), crate::types::Error>(crate::types::Error::NotImplemented)
                || r == Err::<(), crate::types::Error>(crate::types::Error::InvalidInitialState),
            forall|i: int| 0 <= i < old(self).spec_zones().len() ==> (#[trigger] final(self).spec_zones()[i]).spec_id()
                == old(self).spec_zones()[i].spec_id() && final(self).spec_zones()[i].spec_routers() == old(self).spec_zones()[i].spec_routers()
                && final(self).spec_zones()[i].spec_configs() == old(self).spec_zones()[i].spec_configs()
                && old(self).spec_zones()[i].spec_policy().to_set().subset_of(final(self).spec_zones()[i].spec_policy().to_set()),
            r.is_ok() ==> forall|i: int, c: Condition| 0 <= i < old(self).spec_zones().len() ==> (#[trigger] final(self).spec_zones()[i].spec_policy().contains(c) <==> old(self).spec_zones()[i].spec_policy().contains(c) || exists|k: int|
                0 <= k < old(self).spec_policy().len() && #[trigger] adds_condition(
                    &old(self).spec_before(),
                    &old(self).spec_after(),
                    zone_routers(old(self).spec_zones()),
                    old(self).spec_zones()[i],
                    old(self).spec_policy()[k],
                    c,
                )),
    {
        let mut k: usize = 0;
        while k < self.hard_policy.len()
            invariant
                *self == *old(self),
                *builder == *old(builder),
                self.wf(),
                builder.wf(),
                self.zones@ == old(self).zones@,
                0 <= k <= self.hard_policy@.len(),
                forall|j: int| 0 <= j < k ==> is_reachability(#[trigger] self.hard_policy@[j]),
            decreases self.hard_policy@.len() - k,
        {
            match self.hard_policy[k] {
                Condition::Reachable(_, _) => {},
                _ => {
                    proof {
                        assert(!is_reachability(self.hard_policy@[k as int]));
                    }
                    return Err(crate::types::Error::NotImplemented);
                },
            }
            k = k + 1;
        }
        let ghost z0 = self.zones@;
        let mut c: usize = 0;
        proof {
            assert(deps_upto(&old(self).before_state, &old(self).after_state, zone_routers(z0), self.hard_policy@, 0) =~= Set::<(RouterId, RouterId)>::empty());
            assert(builder.nodes_view().edges =~= old(builder).nodes_view().edges.union(
                deps_upto(&old(self).before_state, &old(self).after_state, zone_routers(z0), self.hard_policy@, 0)));
        }
        while c < self.hard_policy.len()
            invariant
                self.wf(),
                builder.wf(),
                builder.configs_view() == old(builder).configs_view(),
                self.net == old(self).net,
                self.modifiers == old(self).modifiers,
                self.hard_policy == old(self).hard_policy,
                self.before_state.same_tables(&old(self).before_state),
                self.after_state.same_tables(&old(self).after_state),
                self.before_state.spec_num_devices() == self.after_state.spec_num_devices(),
                self.before_state.spec_prefixes() == old(self).before_state.spec_prefixes(),
                forall|j: int| 0 <= j < self.hard_policy@.len() ==> is_reachability(#[trigger] self.hard_policy@[j]),
                0 <= c <= self.hard_policy@.len(),
                forall|j: int| 0 <= j < c ==> (#[trigger] self.hard_policy@[j] matches Condition::Reachable(x, p)
                    && old(self).before_state.reaches(x, p) && old(self).after_state.reaches(x, p)),
                self.zones@.len() == z0.len(),
                z0 == old(self).zones@,
                forall|i: int| 0 <= i < z0.len() ==> (#[trigger] self.zones@[i]).spec_id() == z0[i].spec_id()
                    && self.zones@[i].spec_routers() == z0[i].spec_routers() && self.zones@[i].spec_configs() == z0[i].spec_configs()
                    && z0[i].spec_policy().to_set().subset_of(self.zones@[i].spec_policy().to_set()),
                forall|i: int, cc: Condition| 0 <= i < z0.len() ==> (#[trigger] self.zones@[i].spec_policy().contains(cc)
                    <==> z0[i].spec_policy().contains(cc) || exists|k: int| 0 <= k < c && #[trigger] adds_condition(
                        &old(self).before_state,
                        &old(self).after_state,
                        zone_routers(z0),
                        z0[i],
                        self.hard_policy@[k],
                        cc,
                    )),
                builder.nodes_view().edges == old(builder).nodes_view().edges.union(
                    deps_upto(&old(self).before_state, &old(self).after_state, zone_routers(z0), self.hard_policy@, c as int),
                ),
            decreases self.hard_policy@.len() - c,
        {
            let cond = self.hard_policy[c];
            assert(is_reachability(self.hard_policy@[c as int]));
            if let Condition::Reachable(r, p) = cond {
                let ghost bs = self.before_state;
                let ghost as_ = self.after_state;
                proof {
                    lemma_reaches_transfer(&bs, &old(self).before_state, r, p);
                    lemma_reaches_transfer(&as_, &old(self).after_state, r, p);
                }
                let before_route = self.before_state.get_route(r, p);
                proof {
                    if r < bs.spec_num_devices() && bs.spec_prefixes().contains(p) {
                        lemma_route_ok_iff_reaches(&bs, r, p, before_route);
                    }
                }
                let bp = match before_route {
                    Ok(v) => v,
                    Err(_) => {
                        return Err(crate::types::Error::InvalidInitialState);
                    },
                };
                let after_route = self.after_state.get_route(r, p);
                proof {
                    if r < as_.spec_num_devices() && as_.spec_prefixes().contains(p) {
                        lemma_route_ok_iff_reaches(&as_, r, p, after_route);
                    }
                }
                let ap = match after_route {
                    Ok(v) => v,
                    Err(_) => {
                        return Err(crate::types::Error::InvalidInitialState);
                    },
                };
                proof {
                    lemma_reaches_transfer(&self.before_state, &bs, r, p);
                    lemma_reaches_transfer(&self.after_state, &as_, r, p);
                }
                proof {
                    let pos = old(self).before_state.prefix_pos(p);
                    assert(bs.prefix_pos(p) == pos);
                    crate::forwarding_state::lemma_walk_transfer(&bs, &old(self).before_state, pos, bp@, crate::forwarding_state::CacheResult::ValidPath);
                    let q1 = route_of(&old(self).before_state, r, p);
                    crate::forwarding_state::lemma_walk_unique(&old(self).before_state, pos, q1, crate::forwarding_state::CacheResult::ValidPath, bp@, crate::forwarding_state::CacheResult::ValidPath);
                    assert(as_.prefix_pos(p) == pos);
                    crate::forwarding_state::lemma_walk_transfer(&as_, &old(self).after_state, pos, ap@, crate::forwarding_state::CacheResult::ValidPath);
                    let q2 = route_of(&old(self).after_state, r, p);
                    crate::forwarding_state::lemma_walk_unique(&old(self).after_state, pos, q2, crate::forwarding_state::CacheResult::ValidPath, ap@, crate::forwarding_state::CacheResult::ValidPath);
                    assert(zone_routers(self.zones@) =~= zone_routers(z0));
                }
                let before_zones = segment_path(&self.zones, &bp);
                let after_zones = segment_path(&self.zones, &ap);
                proof {
                    lemma_segs_nonempty(zone_routers(self.zones@), bp@, bp@.len() as int);
                    lemma_segs_nonempty(zone_routers(self.zones@), ap@, ap@.len() as int);
                    assert forall|k2: int| 0 <= k2 < before_zones@.len() implies (#[trigger] before_zones@[k2])@.len() > 0 by {
                        assert(segs_view(before_zones@)[k2] == before_zones@[k2]@);
                    }
                    assert forall|k2: int| 0 <= k2 < after_zones@.len() implies (#[trigger] after_zones@[k2])@.len() > 0 by {
                        assert(segs_view(after_zones@)[k2] == after_zones@[k2]@);
                    }
                }
                let ghost zb = self.zones@;
                split_invariance_add_to_zones(&mut self.zones, p, &before_zones);
                let ghost zm = self.zones@;
                split_invariance_add_to_zones(&mut self.zones, p, &after_zones);
                proof {
                    assert forall|i: int| 0 <= i < z0.len() implies (#[trigger] self.zones@[i]).spec_id() == z0[i].spec_id()
                        && self.zones@[i].spec_routers() == z0[i].spec_routers() && self.zones@[i].spec_configs() == z0[i].spec_configs()
                        && z0[i].spec_policy().to_set().subset_of(self.zones@[i].spec_policy().to_set()) by {
                        assert forall|x: Condition| z0[i].spec_policy().to_set().contains(x) implies self.zones@[i].spec_policy().to_set().contains(x) by {
                            assert(zb[i].spec_policy().to_set().contains(x));
                            assert(zm[i].spec_policy().contains(x));
                            assert(self.zones@[i].spec_policy().contains(x));
                        }
                    }
                }
                proof {
                    assert forall|i: int, cc: Condition| 0 <= i < z0.len() implies (#[trigger] self.zones@[i].spec_policy().contains(cc)
                        <==> z0[i].spec_policy().contains(cc) || exists|k: int| 0 <= k < c + 1 && #[trigger] adds_condition(
                            &old(self).before_state,
                            &old(self).after_state,
                            zone_routers(z0),
                            z0[i],
                            self.hard_policy@[k],
                            cc,
                        )) by {
                        assert(gets_condition(zb[i], segs_view(before_zones@), p, cc) == gets_condition(z0[i], segs_view(before_zones@), p, cc));
                        assert(gets_condition(zm[i], segs_view(after_zones@), p, cc) == gets_condition(z0[i], segs_view(after_zones@), p, cc));
                        assert(adds_condition(&old(self).before_state, &old(self).after_state, zone_routers(z0), z0[i], self.hard_policy@[c as int], cc)
                            == (gets_condition(z0[i], segs_view(before_zones@), p, cc) || gets_condition(z0[i], segs_view(after_zones@), p, cc)));
                        if exists|k: int| 0 <= k < c + 1 && #[trigger] adds_condition(
                            &old(self).before_state, &old(self).after_state, zone_routers(z0), z0[i], self.hard_policy@[k], cc) {
                            let k = choose|k: int| 0 <= k < c + 1 && #[trigger] adds_condition(
                                &old(self).before_state, &old(self).after_state, zone_routers(z0), z0[i], self.hard_policy@[k], cc);
                            if k < c {
                                assert(zb[i].spec_policy().contains(cc));
                            }
                        }
                    }
                }
                let ghost e0 = builder.nodes_view().edges;
                self.add_dependencies(builder, r, p, &before_zones, true);
                self.add_dependencies(builder, r, p, &after_zones, false);
                proof {
                    let ob = &old(self).before_state;
                    let oa = &old(self).after_state;
                    assert(seg_dep_edges(&self.before_state, &self.after_state, r, p, segs_view(before_zones@), true)
                        =~= seg_dep_edges(ob, oa, r, p, segs_view(before_zones@), true)) by {
                        assert forall|s2: RouterId| hop_changes(&self.before_state, &self.after_state, s2, p) == hop_changes(ob, oa, s2, p) by {
                            lemma_hop_changes_same(&self.before_state, &self.after_state, ob, oa, s2, p);
                        }
                    }
                    assert(seg_dep_edges(&self.before_state, &self.after_state, r, p, segs_view(after_zones@), false)
                        =~= seg_dep_edges(ob, oa, r, p, segs_view(after_zones@), false)) by {
                        assert forall|s2: RouterId| hop_changes(&self.before_state, &self.after_state, s2, p) == hop_changes(ob, oa, s2, p) by {
                            lemma_hop_changes_same(&self.before_state, &self.after_state, ob, oa, s2, p);
                        }
                    }
                    let cd = cond_dep_edges(ob, oa, zone_routers(z0), self.hard_policy@[c as int]);
                    assert(cd =~= seg_dep_edges(ob, oa, r, p, segs_view(before_zones@), true).union(
                        seg_dep_edges(ob, oa, r, p, segs_view(after_zones@), false)));
                    assert(deps_upto(ob, oa, zone_routers(z0), self.hard_policy@, c + 1) =~= deps_upto(ob, oa, zone_routers(z0), self.hard_policy@, c as int).union(cd)) by {
                        assert forall|e: (RouterId, RouterId)| deps_upto(ob, oa, zone_routers(z0), self.hard_policy@, c + 1).contains(e) implies
                            deps_upto(ob, oa, zone_routers(z0), self.hard_policy@, c as int).union(cd).contains(e) by {
                            let k = choose|k: int| 0 <= k < c + 1 && #[trigger] cond_dep_edges(ob, oa, zone_routers(z0), self.hard_policy@[k]).contains(e);
                        }
                    }
                    assert(builder.nodes_view().edges =~= old(builder).nodes_view().edges.union(
                        deps_upto(ob, oa, zone_routers(z0), self.hard_policy@, c + 1)));
                }
            }
            c = c + 1;
        }
        proof {
            assert forall|i: int, cc: Condition| 0 <= i < old(self).spec_zones().len() implies (#[trigger] self.spec_zones()[i].spec_policy().contains(cc)
                <==> old(self).spec_zones()[i].spec_policy().contains(cc) || exists|k: int|
                0 <= k < old(self).spec_policy().len() && #[trigger] adds_condition(
                    &old(self).spec_before(),
                    &old(self).spec_after(),
                    zone_routers(old(self).spec_zones()),
                    old(self).spec_zones()[i],
                    old(self).spec_policy()[k],
                    cc,
                )) by {
                assert(self.zones@[i].spec_policy().contains(cc) <==> z0[i].spec_policy().contains(cc) || exists|k: int| 0 <= k < c && #[trigger] adds_condition(
                    &old(self).before_state, &old(self).after_state, zone_routers(z0), z0[i], self.hard_policy@[k], cc));
                if exists|k: int| 0 <= k < c && #[trigger] adds_condition(
                    &old(self).before_state, &old(self).after_state, zone_routers(z0), z0[i], self.hard_policy@[k], cc) {
                    let k = choose|k: int| 0 <= k < c && #[trigger] adds_condition(
                        &old(self).before_state, &old(self).after_state, zone_routers(z0), z0[i], self.hard_policy@[k], cc);
                    assert(adds_condition(&old(self).spec_before(), &old(self).spec_after(), zone_routers(old(self).spec_zones()),
                        old(self).spec_zones()[i], old(self).spec_policy()[k], cc));
                }
                if exists|k: int| 0 <= k < old(self).spec_policy().len() && #[trigger] adds_condition(
                    &old(self).spec_before(), &old(self).spec_after(), zone_routers(old(self).spec_zones()),
                    old(self).spec_zones()[i], old(self).spec_policy()[k], cc) {
                    let k = choose|k: int| 0 <= k < old(self).spec_policy().len() && #[trigger] adds_condition(
                        &old(self).spec_before(), &old(self).spec_after(), zone_routers(old(self).spec_zones()),
                        old(self).spec_zones()[i], old(self).spec_policy()[k], cc);
                    assert(adds_condition(&old(self).before_state, &old(self).after_state, zone_routers(z0), z0[i], self.hard_policy@[k], cc));
                }
            }
        }
        Ok(())
    }
}

} // verus!
