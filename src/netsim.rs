use vstd::prelude::*;
use crate::types::RouterId;

verus! {

/// An IP prefix, named by a number.
#[derive(Debug, Clone, Copy, PartialEq, Eq, Structural)]
pub struct Prefix(pub u32);

/// The role of a BGP session, as seen from the router that holds it.
#[derive(Debug, Clone, Copy, PartialEq, Eq, Structural)]
pub enum BgpSessionType {
    /// An iBGP session with a peer, or with the route reflector of this router.
    IBgpPeer,
    /// An iBGP session with a client of this router, which reflects routes to it.
    IBgpClient,
    /// A session with an external router.
    EBgp,
}

/// One configuration expression, reduced to what the ordering logic reads.
#[derive(Debug, Clone, Copy, PartialEq, Eq, Structural)]
pub enum ConfigExpr {
    /// A BGP session from `source` to `target`; for `IBgpClient`, `target` is a client of `source`.
    BgpSession { source: RouterId, target: RouterId, session_type: BgpSessionType },
    /// A route map on `router`.
    BgpRouteMap { router: RouterId },
    /// The IGP weight of the link from `source` to `target`.
    IgpLinkWeight { source: RouterId, target: RouterId },
    /// A static route on `router`.
    StaticRoute { router: RouterId },
    /// An access-control list on `router`.
    AccessControl { router: RouterId },
}

/// An atomic change of the configuration.
#[derive(Debug, Clone, Copy, PartialEq, Eq, Structural)]
pub enum ConfigModifier {
    Insert(ConfigExpr),
    Remove(ConfigExpr),
    Update { from: ConfigExpr, to: ConfigExpr },
}

/// A condition that must hold at every step of a migration.
#[derive(Debug, Clone, Copy, PartialEq, Eq, Structural)]
pub enum Condition {
    /// The router reaches the prefix.
    Reachable(RouterId, Prefix),
    /// The router does not reach the prefix.
    NotReachable(RouterId, Prefix),
    /// The first router reaches the second over the IGP.
    ReachableIgp(RouterId, RouterId),
}

/// How an access-control list treats the sources it lists.
#[derive(Debug, Clone, Copy, PartialEq, Eq, Structural)]
pub enum AclMode {
    /// Only the listed sources pass.
    Accept,
    /// The listed sources are refused.
    Deny,
}

/// Where a flow is headed: a BGP prefix, or a router over the IGP.
#[derive(Debug, Clone, Copy, PartialEq, Eq, Structural)]
pub enum Destination {
    Bgp(Prefix),
    Igp(RouterId),
}

/// Errors of forwarding queries, each with the evidence found.
#[derive(Debug, Clone, PartialEq, Eq)]
pub enum NetworkError {
    /// No device has this id.
    DeviceNotFound(RouterId),
    /// The walk reached a router without next hop; the routers walked so far.
    ForwardingBlackHole(Vec<RouterId>),
    /// The walk came back to a router it had visited; the routers walked, the repeated one last.
    ForwardingLoop(Vec<RouterId>),
    /// The flow was refused at this router.
    AccessDenied(RouterId),
}

/// One device of a network snapshot.
pub struct Device {
    /// Whether the device is an external router.
    pub external: bool,
    /// The BGP sessions of the device: the other end and the session's role.
    pub bgp_sessions: Vec<(RouterId, BgpSessionType)>,
    /// For an internal router, its selected next hop per known prefix, in the order of
    /// `Network::prefixes`; a missing entry means no route.
    pub next_hops: Vec<Option<RouterId>>,
    /// For an external router, the prefixes it advertises.
    pub advertised: Vec<Prefix>,
    /// For an internal router, its IGP next hop toward each router, by router id.
    pub igp_next_hops: Vec<Option<RouterId>>,
    /// The access-control list of the router, if any.
    pub acl: Option<(AclMode, Vec<RouterId>)>,
}

/// A network snapshot: its devices, indexed by router id, and the prefixes known in it.
pub struct Network {
    pub devices: Vec<Device>,
    pub prefixes: Vec<Prefix>,
}

impl Network {
    /// Router ids name devices, next hops name devices, and each prefix is listed once.
    pub open spec fn wf(&self) -> bool {
        &&& self.prefixes@.no_duplicates()
        &&& self.devices@.len() * self.prefixes@.len() <= usize::MAX
        &&& forall|r: int, k: int|
            0 <= r < self.devices@.len() && 0 <= k < self.devices@[r].bgp_sessions@.len()
                ==> (#[trigger] self.devices@[r].bgp_sessions@[k]).0 < self.devices@.len()
        &&& self.devices@.len() * self.devices@.len() <= usize::MAX
        &&& forall|r: int, k: int|
            0 <= r < self.devices@.len() && 0 <= k < self.devices@[r].igp_next_hops@.len()
                && (#[trigger] self.devices@[r].igp_next_hops@[k]).is_some()
                ==> self.devices@[r].igp_next_hops@[k].unwrap() < self.devices@.len()
        &&& forall|r: int, k: int|
            0 <= r < self.devices@.len() && 0 <= k < self.devices@[r].next_hops@.len()
                && (#[trigger] self.devices@[r].next_hops@[k]).is_some()
                ==> self.devices@[r].next_hops@[k].unwrap() < self.devices@.len()
    }

    /// Whether the network is well formed: prefixes listed once, every session and next hop
    /// naming a device, and the table of all next hops addressable.
    pub fn is_well_formed(&self) -> (r: bool)
        ensures
            r == self.wf(),
    {
        let nd = self.devices.len();
        let np = self.prefixes.len();
        if nd.checked_mul(np).is_none() || nd.checked_mul(nd).is_none() {
            return false;
        }
        let mut i: usize = 0;
        while i < np
            invariant
                np == self.prefixes@.len(),
                0 <= i <= np,
                forall|a: int, b: int| 0 <= a < b < i ==> #[trigger] self.prefixes@[a] != #[trigger] self.prefixes@[b],
            decreases np - i,
        {
            let mut j: usize = 0;
            while j < i
                invariant
                    np == self.prefixes@.len(),
                    0 <= j <= i < np,
                    forall|a: int| 0 <= a < j ==> self.prefixes@[a] != self.prefixes@[i as int],
                decreases i - j,
            {
                if self.prefixes[j] == self.prefixes[i] {
                    return false;
                }
                j = j + 1;
            }
            i = i + 1;
        }
        let mut r: usize = 0;
        while r < nd
            invariant
                nd == self.devices@.len(),
                0 <= r <= nd,
                forall|x: int, k: int|
                    0 <= x < r && 0 <= k < self.devices@[x].bgp_sessions@.len()
                        ==> (#[trigger] self.devices@[x].bgp_sessions@[k]).0 < nd,
                forall|x: int, k: int|
                    0 <= x < r && 0 <= k < self.devices@[x].next_hops@.len() && (#[trigger] self.devices@[x].next_hops@[k]).is_some()
                        ==> self.devices@[x].next_hops@[k].unwrap() < nd,
                forall|x: int, k: int|
                    0 <= x < r && 0 <= k < self.devices@[x].igp_next_hops@.len() && (#[trigger] self.devices@[x].igp_next_hops@[k]).is_some()
                        ==> self.devices@[x].igp_next_hops@[k].unwrap() < nd,
            decreases nd - r,
        {
            let d = &self.devices[r];
            let mut k: usize = 0;
            while k < d.bgp_sessions.len()
                invariant
                    nd == self.devices@.len(),
                    0 <= r < nd,
                    *d == self.devices@[r as int],
                    0 <= k <= d.bgp_sessions@.len(),
                    forall|q: int| 0 <= q < k ==> (#[trigger] d.bgp_sessions@[q]).0 < nd,
                decreases d.bgp_sessions@.len() - k,
            {
                if d.bgp_sessions[k].0 >= nd {
                    return false;
                }
                k = k + 1;
            }
            let mut k: usize = 0;
            while k < d.next_hops.len()
                invariant
                    nd == self.devices@.len(),
                    0 <= r < nd,
                    *d == self.devices@[r as int],
                    0 <= k <= d.next_hops@.len(),
                    forall|q: int| 0 <= q < k && (#[trigger] d.next_hops@[q]).is_some() ==> d.next_hops@[q].unwrap() < nd,
                decreases d.next_hops@.len() - k,
            {
                match d.next_hops[k] {
                    Some(h) => {
                        if h >= nd {
                            return false;
                        }
                    },
                    None => {},
                }
                k = k + 1;
            }
            let mut k: usize = 0;
            while k < d.igp_next_hops.len()
                invariant
                    nd == self.devices@.len(),
                    0 <= r < nd,
                    *d == self.devices@[r as int],
                    0 <= k <= d.igp_next_hops@.len(),
                    forall|q: int| 0 <= q < k && (#[trigger] d.igp_next_hops@[q]).is_some() ==> d.igp_next_hops@[q].unwrap() < nd,
                decreases d.igp_next_hops@.len() - k,
            {
                match d.igp_next_hops[k] {
                    Some(h) => {
                        if h >= nd {
                            return false;
                        }
                    },
                    None => {},
                }
                k = k + 1;
            }
            proof {
                assert forall|x: int, k2: int|
                    0 <= x < r + 1 && 0 <= k2 < self.devices@[x].igp_next_hops@.len() && (#[trigger] self.devices@[x].igp_next_hops@[k2]).is_some()
                        implies self.devices@[x].igp_next_hops@[k2].unwrap() < nd by {
                    if x == r {
                        assert(d.igp_next_hops@[k2].is_some());
                    }
                }
                assert forall|x: int, k2: int|
                    0 <= x < r + 1 && 0 <= k2 < self.devices@[x].bgp_sessions@.len()
                        implies (#[trigger] self.devices@[x].bgp_sessions@[k2]).0 < nd by {
                    if x == r {
                        assert(d.bgp_sessions@[k2].0 < nd);
                    }
                }
                assert forall|x: int, k2: int|
                    0 <= x < r + 1 && 0 <= k2 < self.devices@[x].next_hops@.len() && (#[trigger] self.devices@[x].next_hops@[k2]).is_some()
                        implies self.devices@[x].next_hops@[k2].unwrap() < nd by {
                    if x == r {
                        assert(d.next_hops@[k2].is_some());
                    }
                }
            }
            r = r + 1;
        }
        true
    }

    /// The IGP next hop of device `r` toward router `d`: a router reaches itself, an external
    /// router reaches nothing.
    pub open spec fn igp_hop_of(&self, r: int, d: int) -> Option<RouterId> {
        let dev = self.devices@[r];
        if dev.external {
            None
        } else if r == d {
            Some(r as usize)
        } else if d < dev.igp_next_hops@.len() {
            dev.igp_next_hops@[d]
        } else {
            None
        }
    }

    /// The access-control list of internal device `r` lets flows from `src` pass; external
    /// devices filter nothing.
    pub open spec fn acl_allows(&self, src: RouterId, r: int) -> bool {
        let dev = self.devices@[r];
        if dev.external {
            true
        } else {
            match dev.acl {
                None => true,
                Some(a) => match a.0 {
                    AclMode::Accept => a.1@.contains(src),
                    AclMode::Deny => !a.1@.contains(src),
                },
            }
        }
    }

    /// Device `r` holds a session of type `t` with `peer`.
    pub open spec fn has_session(&self, r: RouterId, peer: RouterId, t: BgpSessionType) -> bool {
        &&& r < self.devices@.len()
        &&& exists|k: int|
            0 <= k < self.devices@[r as int].bgp_sessions@.len() && #[trigger] self.devices@[r as int].bgp_sessions@[k]
                == (peer, t)
    }

    /// The next hop that device `r` uses for the `pid`-th known prefix: an external router
    /// points to itself for the prefixes it advertises.
    pub open spec fn next_hop_of(&self, r: int, pid: int) -> Option<RouterId> {
        let d = self.devices@[r];
        if d.external {
            if d.advertised@.contains(self.prefixes@[pid]) {
                Some(r as usize)
            } else {
                None
            }
        } else if pid < d.next_hops@.len() {
            d.next_hops@[pid]
        } else {
            None
        }
    }
}

} // verus!
