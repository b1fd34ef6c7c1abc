use vstd::prelude::*;
use crate::netsim::{BgpSessionType, Condition, ConfigExpr, ConfigModifier, Device, Network, Prefix};
use crate::strategy_zone::{closed_from, is_anchor, is_zone_of, zone_step};
use crate::types::RouterId;

verus! {

/// The BGP sessions and device kinds of the initial example network.
pub open spec fn is_sigcomm(n: &Network) -> bool {
    let peer = BgpSessionType::IBgpPeer;
    let client = BgpSessionType::IBgpClient;
    let ebgp = BgpSessionType::EBgp;
    &&& n.devices@.len() == 8
    &&& forall|r: int| 0 <= r < 6 ==> !(#[trigger] n.devices@[r]).external
    &&& n.devices@[6].external && n.devices@[7].external
    &&& n.devices@[0].bgp_sessions@ == seq![(4usize, peer), (2usize, client)]
    &&& n.devices@[1].bgp_sessions@ == seq![(5usize, peer), (3usize, client)]
    &&& n.devices@[2].bgp_sessions@ == seq![(4usize, client), (5usize, client), (0usize, peer)]
    &&& n.devices@[3].bgp_sessions@ == seq![(5usize, client), (1usize, peer)]
    &&& n.devices@[4].bgp_sessions@ == seq![(6usize, ebgp), (0usize, peer), (2usize, peer)]
    &&& n.devices@[5].bgp_sessions@ == seq![(7usize, ebgp), (1usize, peer), (3usize, peer), (2usize, peer)]
    &&& n.devices@[6].bgp_sessions@ == seq![(4usize, ebgp)]
    &&& n.devices@[7].bgp_sessions@ == seq![(5usize, ebgp)]
}

/// In the example network, the zone of `t1` is `t1`, its client `r1`, its peer `b1` and
/// `r1`'s client `b2`.
pub proof fn lemma_sigcomm_zone_t1(n: &Network)
    requires
        is_sigcomm(n),
    ensures
        is_anchor(n, 0),
        is_zone_of(n, 0, seq![0usize, 2, 4, 5]),
{
    let z = seq![0usize, 2, 4, 5];
    assert(n.has_session(0, 2, BgpSessionType::IBgpClient)) by {
        assert(n.devices@[0].bgp_sessions@[1] == (2usize, BgpSessionType::IBgpClient));
    }
    assert(n.has_session(2, 4, BgpSessionType::IBgpClient)) by {
        assert(n.devices@[2].bgp_sessions@[0] == (4usize, BgpSessionType::IBgpClient));
    }
    assert(n.has_session(2, 5, BgpSessionType::IBgpClient)) by {
        assert(n.devices@[2].bgp_sessions@[1] == (5usize, BgpSessionType::IBgpClient));
    }
    assert(n.has_session(4, 6, BgpSessionType::EBgp)) by {
        assert(n.devices@[4].bgp_sessions@[0] == (6usize, BgpSessionType::EBgp));
    }
    assert(n.has_session(5, 7, BgpSessionType::EBgp)) by {
        assert(n.devices@[5].bgp_sessions@[0] == (7usize, BgpSessionType::EBgp));
    }
    assert(!crate::strategy_zone::is_boundary(n, 0)) by {
        assert forall|x: RouterId| !n.has_session(0, x, BgpSessionType::EBgp) by {
            if n.has_session(0, x, BgpSessionType::EBgp) {
                let k = choose|k: int| 0 <= k < n.devices@[0].bgp_sessions@.len() && #[trigger] n.devices@[0].bgp_sessions@[k] == (x, BgpSessionType::EBgp);
            }
        }
    }
    assert(!crate::strategy_zone::is_boundary(n, 2)) by {
        assert forall|x: RouterId| !n.has_session(2, x, BgpSessionType::EBgp) by {
            if n.has_session(2, x, BgpSessionType::EBgp) {
                let k = choose|k: int| 0 <= k < n.devices@[2].bgp_sessions@.len() && #[trigger] n.devices@[2].bgp_sessions@[k] == (x, BgpSessionType::EBgp);
            }
        }
    }
    // t1 is no client of b1
    assert(!n.has_session(4, 0, BgpSessionType::IBgpClient)) by {
        if n.has_session(4, 0, BgpSessionType::IBgpClient) {
            let k = choose|k: int| 0 <= k < n.devices@[4].bgp_sessions@.len() && #[trigger] n.devices@[4].bgp_sessions@[k] == (0usize, BgpSessionType::IBgpClient);
        }
    }
    assert(n.has_session(0, 4, BgpSessionType::IBgpPeer)) by {
        assert(n.devices@[0].bgp_sessions@[0] == (4usize, BgpSessionType::IBgpPeer));
    }
    assert(is_anchor(n, 0)) by {
        assert forall|x: RouterId| n.has_session(0, x, BgpSessionType::IBgpPeer) implies !crate::strategy_zone::spec_self_client(n, 0, x) by {
            let k = choose|k: int| 0 <= k < n.devices@[0].bgp_sessions@.len() && #[trigger] n.devices@[0].bgp_sessions@[k] == (x, BgpSessionType::IBgpPeer);
            assert(k == 0);
        }
    }
    assert(zone_step(n, 0, 2));
    assert(zone_step(n, 0, 4));
    assert(zone_step(n, 2, 4));
    assert(zone_step(n, 2, 5));
    assert(z.contains(0usize) && z.contains(2usize) && z.contains(4usize) && z.contains(5usize)) by {
        assert(z[0] == 0usize && z[1] == 2usize && z[2] == 4usize && z[3] == 5usize);
    }
    assert forall|u: RouterId, v: RouterId| z.to_set().contains(u) && #[trigger] zone_step(n, u, v) implies z.to_set().contains(v) by {
        assert(u == 0 || u == 2 || u == 4 || u == 5);
        if u == 4 || u == 5 {
            assert(crate::strategy_zone::is_boundary(n, u));
        } else if n.has_session(u, v, BgpSessionType::IBgpClient) {
            let k = choose|k: int| 0 <= k < n.devices@[u as int].bgp_sessions@.len() && #[trigger] n.devices@[u as int].bgp_sessions@[k] == (v, BgpSessionType::IBgpClient);
        } else {
            let k = choose|k: int| 0 <= k < n.devices@[u as int].bgp_sessions@.len() && #[trigger] n.devices@[u as int].bgp_sessions@[k] == (v, BgpSessionType::IBgpPeer);
            if u == 2 {
                assert(v == 0);
            }
        }
    }
    assert(closed_from(n, 0, z.to_set()));
    assert forall|s: Set<RouterId>| closed_from(n, 0, s) implies z.to_set().subset_of(s) by {
        assert(s.contains(2usize));
        assert(s.contains(4usize));
        assert(s.contains(5usize));
        assert forall|x: RouterId| z.to_set().contains(x) implies s.contains(x) by {}
    }
    assert(z.no_duplicates());
}

/// In the example network, the zone of `t2` is `t2`, its client `r2` and its peer `b2`; and
/// `t1`, `t2` are the only routers that anchor a zone.
pub proof fn lemma_sigcomm_zone_t2(n: &Network)
    requires
        is_sigcomm(n),
    ensures
        is_anchor(n, 1),
        is_zone_of(n, 1, seq![1usize, 3, 5]),
        forall|x: RouterId| is_anchor(n, x) <==> x == 0 || x == 1,
{
    lemma_sigcomm_zone_t1(n);
    let z = seq![1usize, 3, 5];
    let peer = BgpSessionType::IBgpPeer;
    let client = BgpSessionType::IBgpClient;
    let ebgp = BgpSessionType::EBgp;
    assert(n.has_session(1, 3, client)) by {
        assert(n.devices@[1].bgp_sessions@[1] == (3usize, client));
    }
    assert(n.has_session(1, 5, peer)) by {
        assert(n.devices@[1].bgp_sessions@[0] == (5usize, peer));
    }
    assert(n.has_session(3, 5, client)) by {
        assert(n.devices@[3].bgp_sessions@[0] == (5usize, client));
    }
    assert(n.has_session(5, 7, ebgp)) by {
        assert(n.devices@[5].bgp_sessions@[0] == (7usize, ebgp));
    }
    assert(n.has_session(4, 6, ebgp)) by {
        assert(n.devices@[4].bgp_sessions@[0] == (6usize, ebgp));
    }
    assert(n.has_session(0, 2, client)) by {
        assert(n.devices@[0].bgp_sessions@[1] == (2usize, client));
    }
    assert(n.has_session(2, 0, peer)) by {
        assert(n.devices@[2].bgp_sessions@[2] == (0usize, peer));
    }
    assert(n.has_session(3, 1, peer)) by {
        assert(n.devices@[3].bgp_sessions@[1] == (1usize, peer));
    }
    assert forall|u: RouterId| u == 1 || u == 3 implies !crate::strategy_zone::is_boundary(n, u) by {
        assert forall|x: RouterId| !n.has_session(u, x, ebgp) by {
            if n.has_session(u, x, ebgp) {
                let k = choose|k: int| 0 <= k < n.devices@[u as int].bgp_sessions@.len() && #[trigger] n.devices@[u as int].bgp_sessions@[k] == (x, ebgp);
            }
        }
    }
    assert(!n.has_session(5, 1, client)) by {
        if n.has_session(5, 1, client) {
            let k = choose|k: int| 0 <= k < n.devices@[5].bgp_sessions@.len() && #[trigger] n.devices@[5].bgp_sessions@[k] == (1usize, client);
        }
    }
    assert(is_anchor(n, 1)) by {
        assert forall|x: RouterId| n.has_session(1, x, peer) implies !crate::strategy_zone::spec_self_client(n, 1, x) by {
            let k = choose|k: int| 0 <= k < n.devices@[1].bgp_sessions@.len() && #[trigger] n.devices@[1].bgp_sessions@[k] == (x, peer);
            assert(k == 0);
        }
    }
    assert(zone_step(n, 1, 3));
    assert(zone_step(n, 1, 5));
    assert(zone_step(n, 3, 5));
    assert(z.contains(1usize) && z.contains(3usize) && z.contains(5usize)) by {
        assert(z[0] == 1usize && z[1] == 3usize && z[2] == 5usize);
    }
    assert forall|u: RouterId, v: RouterId| z.to_set().contains(u) && #[trigger] zone_step(n, u, v) implies z.to_set().contains(v) by {
        assert(u == 1 || u == 3 || u == 5);
        if u == 5 {
            assert(crate::strategy_zone::is_boundary(n, u));
        } else if n.has_session(u, v, client) {
            let k = choose|k: int| 0 <= k < n.devices@[u as int].bgp_sessions@.len() && #[trigger] n.devices@[u as int].bgp_sessions@[k] == (v, client);
        } else {
            let k = choose|k: int| 0 <= k < n.devices@[u as int].bgp_sessions@.len() && #[trigger] n.devices@[u as int].bgp_sessions@[k] == (v, peer);
            if u == 3 {
                assert(v == 1);
                assert(n.has_session(1, 3, client));
            }
        }
    }
    assert(closed_from(n, 1, z.to_set()));
    assert forall|s: Set<RouterId>| closed_from(n, 1, s) implies z.to_set().subset_of(s) by {
        assert(s.contains(3usize));
        assert(s.contains(5usize));
        assert forall|x: RouterId| z.to_set().contains(x) implies s.contains(x) by {}
    }
    assert(z.no_duplicates());
    assert forall|x: RouterId| is_anchor(n, x) implies x == 0 || x == 1 by {
        if x == 2 {
            assert(crate::strategy_zone::spec_self_client(n, 2, 0));
        } else if x == 3 {
            assert(crate::strategy_zone::spec_self_client(n, 3, 1));
        } else if x == 4 {
            assert(crate::strategy_zone::is_boundary(n, 4));
        } else if x == 5 {
            assert(crate::strategy_zone::is_boundary(n, 5));
        }
    }
}

/// The example network of the Snowcap paper: top-tier routers `t1`, `t2` (ids 0, 1), clients
/// `r1`, `r2` (2, 3), boundary routers `b1`, `b2` (4, 5) and external routers `e1`, `e2` (6, 7),
/// with one prefix advertised by both external routers.
pub struct Sigcomm {}

fn internal(sessions: Vec<(RouterId, BgpSessionType)>, hop: RouterId) -> (d: Device)
    ensures
        !d.external,
        d.bgp_sessions@ == sessions@,
        d.next_hops@ == seq![Some(hop)],
        d.advertised@.len() == 0,
        d.igp_next_hops@.len() == 0,
{
    let mut next_hops: Vec<Option<RouterId>> = Vec::new();
    next_hops.push(Some(hop));
    Device { external: false, bgp_sessions: sessions, next_hops, advertised: Vec::new(), igp_next_hops: Vec::new(), acl: None }
}

fn external(peer: RouterId) -> (d: Device)
    ensures
        d.external,
        d.bgp_sessions@ == seq![(peer, BgpSessionType::EBgp)],
        d.next_hops@.len() == 0,
        d.advertised@ == seq![Prefix(0)],
        d.igp_next_hops@.len() == 0,
{
    let mut sessions: Vec<(RouterId, BgpSessionType)> = Vec::new();
    sessions.push((peer, BgpSessionType::EBgp));
    let mut advertised: Vec<Prefix> = Vec::new();
    advertised.push(Prefix(0));
    Device { external: true, bgp_sessions: sessions, next_hops: Vec::new(), advertised, igp_next_hops: Vec::new(), acl: None }
}

fn sessions2(a: (RouterId, BgpSessionType), b: (RouterId, BgpSessionType)) -> (v: Vec<(RouterId, BgpSessionType)>)
    ensures
        v@ == seq![a, b],
{
    let mut v: Vec<(RouterId, BgpSessionType)> = Vec::new();
    v.push(a);
    v.push(b);
    v
}

fn sessions3(a: (RouterId, BgpSessionType), b: (RouterId, BgpSessionType), c: (RouterId, BgpSessionType)) -> (v: Vec<(RouterId, BgpSessionType)>)
    ensures
        v@ == seq![a, b, c],
{
    let mut v = sessions2(a, b);
    v.push(c);
    v
}

impl Sigcomm {
    /// The network in its initial configuration.
    pub fn net() -> (n: Network)
        ensures
            n.wf(),
            n.devices@.len() == 8,
            is_sigcomm(&n),
    {
        let peer = BgpSessionType::IBgpPeer;
        let client = BgpSessionType::IBgpClient;
        let ebgp = BgpSessionType::EBgp;
        let mut devices: Vec<Device> = Vec::new();
        devices.push(internal(sessions2((4, peer), (2, client)), 4));
        devices.push(internal(sessions2((5, peer), (3, client)), 5));
        devices.push(internal(sessions3((4, client), (5, client), (0, peer)), 5));
        devices.push(internal(sessions2((5, client), (1, peer)), 2));
        devices.push(internal(sessions3((6, ebgp), (0, peer), (2, peer)), 6));
        let mut b2 = sessions3((7, ebgp), (1, peer), (3, peer));
        b2.push((2, peer));
        assert(b2@ =~= seq![(7usize, ebgp), (1usize, peer), (3usize, peer), (2usize, peer)]);
        devices.push(internal(b2, 7));
        devices.push(external(4));
        devices.push(external(5));
        let mut prefixes: Vec<Prefix> = Vec::new();
        prefixes.push(Prefix(0));
        let n = Network { devices, prefixes };
        proof {
            assert forall|r: int| 0 <= r < 6 implies !(#[trigger] n.devices@[r]).external by {}
            assert(is_sigcomm(&n));
            assert forall|r: int, k: int|
                0 <= r < n.devices@.len() && 0 <= k < n.devices@[r].bgp_sessions@.len()
                    implies (#[trigger] n.devices@[r].bgp_sessions@[k]).0 < n.devices@.len() by {}
        }
        n
    }

    /// The network once all changes are applied: `t1`-`b1` and `t2`-`b2` no longer peer, `b2`
    /// is no longer a client of `r1`, and `b1` becomes a client of `r2`.
    pub fn after_net() -> (n: Network)
        ensures
            n.wf(),
            n.devices@.len() == 8,
    {
        let peer = BgpSessionType::IBgpPeer;
        let client = BgpSessionType::IBgpClient;
        let ebgp = BgpSessionType::EBgp;
        let mut t1: Vec<(RouterId, BgpSessionType)> = Vec::new();
        t1.push((2, client));
        let mut t2: Vec<(RouterId, BgpSessionType)> = Vec::new();
        t2.push((3, client));
        let mut devices: Vec<Device> = Vec::new();
        devices.push(internal(t1, 4));
        devices.push(internal(t2, 5));
        devices.push(internal(sessions2((4, client), (0, peer)), 3));
        devices.push(internal(sessions3((4, client), (5, client), (1, peer)), 4));
        devices.push(internal(sessions3((6, ebgp), (2, peer), (3, peer)), 6));
        devices.push(internal(sessions2((7, ebgp), (3, peer)), 7));
        devices.push(external(4));
        devices.push(external(5));
        let mut prefixes: Vec<Prefix> = Vec::new();
        prefixes.push(Prefix(0));
        let n = Network { devices, prefixes };
        proof {
            assert forall|r: int, k: int|
                0 <= r < n.devices@.len() && 0 <= k < n.devices@[r].bgp_sessions@.len()
                    implies (#[trigger] n.devices@[r].bgp_sessions@[k]).0 < n.devices@.len() by {}
            assert(n.prefixes@.no_duplicates());
            assert forall|r: int, k: int|
                0 <= r < n.devices@.len() && 0 <= k < n.devices@[r].next_hops@.len()
                    && (#[trigger] n.devices@[r].next_hops@[k]).is_some()
                    implies n.devices@[r].next_hops@[k].unwrap() < n.devices@.len() by {}
        }
        n
    }

    /// The changes that lead from the initial to the final configuration.
    pub fn modifiers() -> (m: Vec<ConfigModifier>)
        ensures
            m@.len() == 4,
    {
        let mut m: Vec<ConfigModifier> = Vec::new();
        m.push(ConfigModifier::Remove(ConfigExpr::BgpSession { source: 0, target: 4, session_type: BgpSessionType::IBgpPeer }));
        m.push(ConfigModifier::Remove(ConfigExpr::BgpSession { source: 1, target: 5, session_type: BgpSessionType::IBgpPeer }));
        m.push(ConfigModifier::Remove(ConfigExpr::BgpSession { source: 2, target: 5, session_type: BgpSessionType::IBgpClient }));
        m.push(ConfigModifier::Insert(ConfigExpr::BgpSession { source: 3, target: 4, session_type: BgpSessionType::IBgpClient }));
        m
    }

    /// Every internal router must reach the prefix at every step.
    pub fn get_policy() -> (p: Vec<Condition>)
        ensures
            p@.len() == 6,
    {
        let mut p: Vec<Condition> = Vec::new();
        let mut r: usize = 0;
        while r < 6
            invariant
                0 <= r <= 6,
                p@.len() == r,
            decreases 6 - r,
        {
            p.push(Condition::Reachable(r, Prefix(0)));
            r = r + 1;
        }
        p
    }
}

} // verus!
