use vstd::prelude::*;
use crate::dag::{copy_ids, vec_contains};
use crate::forwarding_state::{lemma_acl_walk_unique, CacheResult, ForwardingState};
use crate::netsim::{Condition, ConfigExpr, ConfigModifier, Destination, NetworkError, Prefix};
use crate::types::{ConfigId, Error, RouterId};

verus! {

/// An administrative region of the network whose changes are ordered on their own.
pub struct Zone {
    id: RouterId,
    routers: Vec<RouterId>,
    configs: Vec<ConfigId>,
    ordering: Option<Vec<ConfigId>>,
    hard_policy: Vec<Condition>,
    virtual_boundary_routers: Vec<RouterId>,
    virtual_links: Vec<(RouterId, RouterId, RouterId)>,
}

fn policy_contains(v: &Vec<Condition>, c: Condition) -> (r: bool)
    ensures
        r == v@.contains(c),
{
    let mut i: usize = 0;
    while i < v.len()
        invariant
            0 <= i <= v.len(),
            forall|j: int| 0 <= j < i ==> v@[j] != c,
        decreases v.len() - i,
    {
        if v[i] == c {
            return true;
        }
        i = i + 1;
    }
    false
}

impl Zone {
    /// The anchor router that names the zone.
    pub closed spec fn spec_id(&self) -> RouterId {
        self.id
    }

    pub closed spec fn spec_routers(&self) -> Seq<RouterId> {
        self.routers@
    }

    pub closed spec fn spec_configs(&self) -> Seq<ConfigId> {
        self.configs@
    }

    pub closed spec fn spec_ordering(&self) -> Option<Seq<ConfigId>> {
        match self.ordering {
            Some(o) => Some(o@),
            None => None,
        }
    }

    pub closed spec fn spec_policy(&self) -> Seq<Condition> {
        self.hard_policy@
    }

    pub closed spec fn spec_boundary(&self) -> Seq<RouterId> {
        self.virtual_boundary_routers@
    }

    /// The symbolic links of the emulated sub-network: boundary router, the next hop through
    /// which its route leaves the zone, and the external router that route ends at.
    pub closed spec fn spec_links(&self) -> Seq<(RouterId, RouterId, RouterId)> {
        self.virtual_links@
    }

    /// Member routers and conditions are each listed once.
    pub open spec fn wf(&self) -> bool {
        self.spec_routers().no_duplicates() && self.spec_policy().no_duplicates()
    }

    /// An empty zone anchored at `id`.
    pub fn new(id: RouterId) -> (r: Zone)
        ensures
            r.wf(),
            r.spec_id() == id,
            r.spec_routers() == Seq::<RouterId>::empty(),
            r.spec_configs() == Seq::<ConfigId>::empty(),
            r.spec_ordering().is_none(),
            r.spec_policy() == Seq::<Condition>::empty(),
            r.spec_boundary() == Seq::<RouterId>::empty(),
    {
        Zone {
            id,
            routers: Vec::new(),
            configs: Vec::new(),
            ordering: None,
            hard_policy: Vec::new(),
            virtual_boundary_routers: Vec::new(),
            virtual_links: Vec::new(),
        }
    }

    pub fn contains_router(&self, router: RouterId) -> (r: bool)
        ensures
            r == self.spec_routers().contains(router),
    {
        vec_contains(&self.routers, router)
    }

    /// Adds a member router; a member already there is not added again.
    pub fn add_router(&mut self, router: RouterId)
        requires
            old(self).wf(),
        ensures
            final(self).wf(),
            final(self).spec_id() == old(self).spec_id(),
            final(self).spec_routers() == if old(self).spec_routers().contains(router) {
                old(self).spec_routers()
            } else {
                old(self).spec_routers().push(router)
            },
            final(self).spec_configs() == old(self).spec_configs(),
            final(self).spec_policy() == old(self).spec_policy(),
            final(self).spec_ordering() == old(self).spec_ordering(),
            final(self).spec_boundary() == old(self).spec_boundary(),
    {
        if !vec_contains(&self.routers, router) {
            self.routers.push(router);
            proof {
                assert forall|a: int, b: int| 0 <= a < b < self.routers@.len() implies #[trigger] self.routers@[a] != #[trigger] self.routers@[b] by {
                    if b == self.routers@.len() - 1 {
                        assert(old(self).routers@.contains(self.routers@[a]));
                    }
                }
            }
        }
    }

    /// Adds each of `routers` as a member.
    pub fn set_routers(&mut self, routers: Vec<RouterId>)
        requires
            old(self).wf(),
        ensures
            final(self).wf(),
            final(self).spec_id() == old(self).spec_id(),
            forall|x: RouterId| #[trigger] final(self).spec_routers().contains(x) <==> old(self).spec_routers().contains(x)
                || routers@.contains(x),
            final(self).spec_configs() == old(self).spec_configs(),
            final(self).spec_policy() == old(self).spec_policy(),
            final(self).spec_ordering() == old(self).spec_ordering(),
            final(self).spec_boundary() == old(self).spec_boundary(),
    {
        let mut i: usize = 0;
        while i < routers.len()
            invariant
                self.wf(),
                0 <= i <= routers.len(),
                self.spec_id() == old(self).spec_id(),
                forall|x: RouterId| #[trigger] self.spec_routers().contains(x) <==> old(self).spec_routers().contains(x)
                    || routers@.take(i as int).contains(x),
                self.spec_configs() == old(self).spec_configs(),
                self.spec_policy() == old(self).spec_policy(),
                self.spec_ordering() == old(self).spec_ordering(),
                self.spec_boundary() == old(self).spec_boundary(),
            decreases routers.len() - i,
        {
            let ghost before = self.spec_routers();
            self.add_router(routers[i]);
            proof {
                assert forall|x: RouterId| #[trigger] self.spec_routers().contains(x) <==> old(self).spec_routers().contains(x)
                    || routers@.take(i + 1).contains(x) by {
                    if routers@.take(i + 1).contains(x) {
                        let j = choose|j: int| 0 <= j < i + 1 && #[trigger] routers@.take(i + 1)[j] == x;
                        if j < i {
                            assert(routers@.take(i as int)[j] == x);
                        } else {
                            if !before.contains(x) {
                                assert(self.spec_routers()[before.len() as int] == x);
                            }
                        }
                    }
                    if routers@.take(i as int).contains(x) {
                        let j = choose|j: int| 0 <= j < i && #[trigger] routers@.take(i as int)[j] == x;
                        assert(routers@.take(i + 1)[j] == x);
                    }
                    if self.spec_routers().contains(x) && !before.contains(x) {
                        let j = choose|j: int| 0 <= j < self.spec_routers().len() && self.spec_routers()[j] == x;
                        assert(routers@.take(i + 1)[i as int] == x);
                    }
                    if before.contains(x) {
                        let j = choose|j: int| 0 <= j < before.len() && before[j] == x;
                        assert(self.spec_routers()[j] == x);
                    }
                }
            }
            i = i + 1;
        }
        proof {
            assert(routers@.take(routers.len() as int) =~= routers@);
        }
    }

    /// Binds the change with index `config` to the zone.
    pub fn add_config(&mut self, config: ConfigId)
        ensures
            final(self).spec_id() == old(self).spec_id(),
            final(self).spec_configs() == old(self).spec_configs().push(config),
            final(self).spec_routers() == old(self).spec_routers(),
            final(self).spec_policy() == old(self).spec_policy(),
            final(self).spec_ordering() == old(self).spec_ordering(),
            final(self).spec_boundary() == old(self).spec_boundary(),
            old(self).wf() ==> final(self).wf(),
    {
        self.configs.push(config);
    }

    /// Adds a condition to the zone's policy, once.
    pub fn add_hard_policy(&mut self, condition: Condition)
        requires
            old(self).wf(),
        ensures
            final(self).wf(),
            final(self).spec_id() == old(self).spec_id(),
            final(self).spec_policy() == if old(self).spec_policy().contains(condition) {
                old(self).spec_policy()
            } else {
                old(self).spec_policy().push(condition)
            },
            final(self).spec_routers() == old(self).spec_routers(),
            final(self).spec_configs() == old(self).spec_configs(),
            final(self).spec_ordering() == old(self).spec_ordering(),
            final(self).spec_boundary() == old(self).spec_boundary(),
    {
        if !policy_contains(&self.hard_policy, condition) {
            self.hard_policy.push(condition);
            proof {
                assert forall|a: int, b: int| 0 <= a < b < self.hard_policy@.len() implies #[trigger] self.hard_policy@[a] != #[trigger] self.hard_policy@[b] by {
                    if b == self.hard_policy@.len() - 1 {
                        assert(old(self).hard_policy@.contains(self.hard_policy@[a]));
                    }
                }
            }
        }
    }

    /// Records the ordering of the zone's changes that the per-zone solver found.
    pub fn set_ordering(&mut self, ordering: Vec<ConfigId>)
        ensures
            final(self).spec_ordering() == Some(ordering@),
            final(self).spec_id() == old(self).spec_id(),
            final(self).spec_routers() == old(self).spec_routers(),
            final(self).spec_configs() == old(self).spec_configs(),
            final(self).spec_policy() == old(self).spec_policy(),
            final(self).spec_boundary() == old(self).spec_boundary(),
            old(self).wf() ==> final(self).wf(),
    {
        self.ordering = Some(ordering);
    }

    pub fn get_id(&self) -> (r: RouterId)
        ensures
            r == self.spec_id(),
    {
        self.id
    }

    pub fn get_routers(&self) -> (r: Vec<RouterId>)
        ensures
            r@ == self.spec_routers(),
    {
        copy_ids(&self.routers)
    }

    pub fn get_configs(&self) -> (r: Vec<ConfigId>)
        ensures
            r@ == self.spec_configs(),
    {
        copy_ids(&self.configs)
    }

    pub fn get_ordering(&self) -> (r: Option<Vec<ConfigId>>)
        ensures
            r.is_none() == self.spec_ordering().is_none(),
            r.is_some() ==> Some(r.unwrap()@) == self.spec_ordering(),
    {
        match &self.ordering {
            Some(o) => Some(copy_ids(o)),
            None => None,
        }
    }

    pub fn get_virtual_links(&self) -> (r: Vec<(RouterId, RouterId, RouterId)>)
        ensures
            r@ == self.spec_links(),
    {
        let mut r: Vec<(RouterId, RouterId, RouterId)> = Vec::new();
        let mut i: usize = 0;
        while i < self.virtual_links.len()
            invariant
                0 <= i <= self.virtual_links.len(),
                r@ == self.virtual_links@.take(i as int),
            decreases self.virtual_links.len() - i,
        {
            r.push(self.virtual_links[i]);
            proof {
                assert(r@ =~= self.virtual_links@.take(i + 1));
            }
            i = i + 1;
        }
        assert(r@ =~= self.virtual_links@);
        r
    }

    pub fn get_virtual_boundary_routers(&self) -> (r: Vec<RouterId>)
        ensures
            r@ == self.spec_boundary(),
    {
        copy_ids(&self.virtual_boundary_routers)
    }

    pub fn get_policy(&self) -> (r: Vec<Condition>)
        ensures
            r@ == self.spec_policy(),
    {
        let mut r: Vec<Condition> = Vec::new();
        let mut i: usize = 0;
        while i < self.hard_policy.len()
            invariant
                0 <= i <= self.hard_policy.len(),
                r@ == self.hard_policy@.take(i as int),
            decreases self.hard_policy.len() - i,
        {
            r.push(self.hard_policy[i]);
            proof {
                assert(r@ =~= self.hard_policy@.take(i + 1));
            }
            i = i + 1;
        }
        assert(r@ =~= self.hard_policy@);
        r
    }

    /// The changes bound to the zone, looked up in `configs`; `ZoneSegmentationFailed` when a
    /// bound index is out of range.
    pub fn map_idx_to_config(&self, configs: &Vec<ConfigModifier>) -> (r: Result<Vec<ConfigModifier>, Error>)
        ensures
            (exists|k: int| 0 <= k < self.spec_configs().len() && #[trigger] self.spec_configs()[k] >= configs@.len())
                ==> r == Err::<Vec<ConfigModifier>, Error>(Error::ZoneSegmentationFailed),
            (forall|k: int| 0 <= k < self.spec_configs().len() ==> #[trigger] self.spec_configs()[k] < configs@.len())
                ==> r.is_ok() && r.unwrap()@.len() == self.spec_configs().len() && forall|k: int|
                0 <= k < self.spec_configs().len() ==> #[trigger] r.unwrap()@[k] == configs@[self.spec_configs()[k] as int],
    {
        let mut relevant: Vec<ConfigModifier> = Vec::new();
        let mut i: usize = 0;
        while i < self.configs.len()
            invariant
                0 <= i <= self.configs.len(),
                relevant@.len() == i,
                forall|k: int| 0 <= k < i ==> #[trigger] self.configs@[k] < configs@.len(),
                forall|k: int| 0 <= k < i ==> #[trigger] relevant@[k] == configs@[self.configs@[k] as int],
            decreases self.configs.len() - i,
        {
            let idx = self.configs[i];
            if configs.len() <= idx {
                assert(self.spec_configs()[i as int] >= configs@.len());
                return Err(Error::ZoneSegmentationFailed);
            }
            relevant.push(configs[idx]);
            i = i + 1;
        }
        Ok(relevant)
    }

    /// The changes of `configs` that matter to the zone seen as an IGP region: all but the link
    /// weights of links leaving it.
    pub fn igp_relevant_configs(&self, configs: &Vec<ConfigModifier>) -> (r: Vec<ConfigModifier>)
        ensures
            r@ == igp_relevant_prefix(self.spec_routers(), configs@, configs@.len() as int),
    {
        let mut relevant: Vec<ConfigModifier> = Vec::new();
        let mut i: usize = 0;
        while i < configs.len()
            invariant
                0 <= i <= configs@.len(),
                relevant@ == igp_relevant_prefix(self.spec_routers(), configs@, i as int),
            decreases configs@.len() - i,
        {
            let m = configs[i];
            let e = match m {
                ConfigModifier::Insert(e) => e,
                ConfigModifier::Remove(e) => e,
                ConfigModifier::Update { from: _, to } => to,
            };
            let keep = match e {
                ConfigExpr::IgpLinkWeight { source, target } => self.contains_router(source) && self.contains_router(target),
                _ => true,
            };
            if keep {
                relevant.push(m);
            }
            i = i + 1;
        }
        relevant
    }

    /// Marks as virtual boundary routers the members whose next hop for some prefix, before or
    /// after the change, leaves the zone.
    pub fn init_virtual_boundary_routers(&mut self, before: &ForwardingState, after: &ForwardingState)
        requires
            before.wf(),
            after.wf(),
            before.spec_num_devices() == after.spec_num_devices(),
            before.spec_prefixes() == after.spec_prefixes(),
        ensures
            final(self).spec_id() == old(self).spec_id(),
            final(self).spec_routers() == old(self).spec_routers(),
            final(self).spec_configs() == old(self).spec_configs(),
            final(self).spec_policy() == old(self).spec_policy(),
            final(self).spec_ordering() == old(self).spec_ordering(),
            old(self).wf() ==> final(self).wf(),
            forall|x: RouterId| #[trigger] final(self).spec_boundary().contains(x) <==> old(self).spec_routers().contains(x)
                && leaves_zone(before, after, old(self).spec_routers(), x),
    {
        let mut vbr: Vec<RouterId> = Vec::new();
        let mut i: usize = 0;
        while i < self.routers.len()
            invariant
                before.wf(),
                after.wf(),
                before.spec_num_devices() == after.spec_num_devices(),
                before.spec_prefixes() == after.spec_prefixes(),
                0 <= i <= self.routers.len(),
                forall|x: RouterId| #[trigger] vbr@.contains(x) <==> self.routers@.take(i as int).contains(x)
                    && leaves_zone(before, after, self.routers@, x),
            decreases self.routers.len() - i,
        {
            let x = self.routers[i];
            let out = self.next_hop_leaves(before, after, x);
            let ghost old_v = vbr@;
            if out {
                vbr.push(x);
            }
            proof {
                assert forall|z: RouterId| #[trigger] vbr@.contains(z) <==> old_v.contains(z) || (out && z == x) by {
                    if out {
                        if vbr@.contains(z) && z != x {
                            let j = choose|j: int| 0 <= j < vbr@.len() && vbr@[j] == z;
                            assert(old_v[j] == z);
                        }
                        if old_v.contains(z) {
                            let j = choose|j: int| 0 <= j < old_v.len() && old_v[j] == z;
                            assert(vbr@[j] == z);
                        }
                        assert(vbr@[old_v.len() as int] == x);
                    }
                }
                assert forall|z: RouterId| #[trigger] self.routers@.take(i + 1).contains(z) <==> self.routers@.take(i as int).contains(z) || z == x by {
                    if self.routers@.take(i + 1).contains(z) {
                        let j = choose|j: int| 0 <= j < i + 1 && #[trigger] self.routers@.take(i + 1)[j] == z;
                        if j < i {
                            assert(self.routers@.take(i as int)[j] == z);
                        }
                    }
                    if self.routers@.take(i as int).contains(z) {
                        let j = choose|j: int| 0 <= j < i && #[trigger] self.routers@.take(i as int)[j] == z;
                        assert(self.routers@.take(i + 1)[j] == z);
                    }
                    if z == x {
                        assert(self.routers@.take(i + 1)[i as int] == z);
                    }
                }
                assert forall|z: RouterId| #[trigger] vbr@.contains(z) <==> self.routers@.take(i + 1).contains(z)
                    && leaves_zone(before, after, self.routers@, z) by {
                    assert(vbr@.contains(z) <==> old_v.contains(z) || (out && z == x));
                    assert(self.routers@.take(i + 1).contains(z) <==> self.routers@.take(i as int).contains(z) || z == x);
                }
            }
            i = i + 1;
        }
        proof {
            assert(self.routers@.take(self.routers@.len() as int) =~= self.routers@);
        }
        self.virtual_boundary_routers = vbr;
    }

    /// Builds the zone's emulated boundary: marks its virtual boundary routers, then records,
    /// for each of them and each prefix, before and after the changes, the link from it to the
    /// external router its route ends at, when that route leaves the zone at once. Fails with
    /// the error of the first route that does not reach its prefix.
    pub fn set_emulated_network(&mut self, before: &ForwardingState, after: &ForwardingState) -> (r: Result<(), NetworkError>)
        requires
            old(self).wf(),
            before.wf(),
            after.wf(),
            before.spec_num_devices() == after.spec_num_devices(),
            before.spec_prefixes() == after.spec_prefixes(),
        ensures
            final(self).wf(),
            final(self).spec_id() == old(self).spec_id(),
            final(self).spec_routers() == old(self).spec_routers(),
            final(self).spec_configs() == old(self).spec_configs(),
            final(self).spec_policy() == old(self).spec_policy(),
            final(self).spec_ordering() == old(self).spec_ordering(),
            forall|x: RouterId| #[trigger] final(self).spec_boundary().contains(x) <==> old(self).spec_routers().contains(x)
                && leaves_zone(before, after, old(self).spec_routers(), x),
            r.is_ok() <==> forall|v: RouterId, p: int|
                #![trigger final(self).spec_boundary().contains(v), before.spec_prefixes()[p]]
                final(self).spec_boundary().contains(v) && 0 <= p < before.spec_prefixes().len() ==> route_ok(
                    before,
                    v,
                    before.spec_prefixes()[p],
                ) && route_ok(after, v, before.spec_prefixes()[p]),
            r.is_ok() ==> links_ok(before, after, *final(self)),
            r.is_ok() <==> zone_routes_ok(before, after, old(self).spec_routers()),
            boundary_ok(before, after, *final(self), old(self).spec_routers()),
    {
        self.init_virtual_boundary_routers(before, after);
        let ghost mid = *self;
        proof {
            assert forall|x: RouterId| #[trigger] self.spec_boundary().contains(x) implies x < before.spec_num_devices() by {
                let q = choose|q: int| 0 <= q < before.spec_prefixes().len() && #[trigger] hop_leaves(before, after, old(self).spec_routers(), x, q);
            }
        }
        let res = self.emulated_links(before, after);
        proof {
            let rs = old(self).spec_routers();
            if res.is_ok() {
                assert forall|v: RouterId, p: int|
                    #![trigger rs.contains(v), before.spec_prefixes()[p]]
                    rs.contains(v) && leaves_zone(before, after, rs, v) && 0 <= p < before.spec_prefixes().len() implies route_ok(
                        before, v, before.spec_prefixes()[p]) && route_ok(after, v, before.spec_prefixes()[p]) by {
                    assert(self.spec_boundary().contains(v));
                }
            } else {
                let (v, p) = choose|v: RouterId, p: int|
                    #![trigger self.spec_boundary().contains(v), before.spec_prefixes()[p]]
                    !(self.spec_boundary().contains(v) && 0 <= p < before.spec_prefixes().len() ==> route_ok(before, v, before.spec_prefixes()[p])
                        && route_ok(after, v, before.spec_prefixes()[p]));
                assert(rs.contains(v));
                assert(!zone_routes_ok(before, after, rs));
            }
        }
        match res {
            Ok(links) => {
                self.virtual_links = links;
                proof {
                    assert(self.spec_boundary() == mid.spec_boundary());
                    assert(self.spec_routers() == mid.spec_routers());
                    assert forall|l: (RouterId, RouterId, RouterId)| #[trigger] self.spec_links().contains(l) <==> exists|v: RouterId, p: int|
                        #![trigger self.spec_boundary().contains(v), before.spec_prefixes()[p]]
                        self.spec_boundary().contains(v) && 0 <= p < before.spec_prefixes().len() && link_from(
                            before, after, self.spec_routers(), v, before.spec_prefixes()[p], l) by {
                        if exists|v: RouterId, p: int|
                            #![trigger self.spec_boundary().contains(v), before.spec_prefixes()[p]]
                            self.spec_boundary().contains(v) && 0 <= p < before.spec_prefixes().len() && link_from(
                                before, after, self.spec_routers(), v, before.spec_prefixes()[p], l) {
                            let (v, p) = choose|v: RouterId, p: int|
                                #![trigger self.spec_boundary().contains(v), before.spec_prefixes()[p]]
                                self.spec_boundary().contains(v) && 0 <= p < before.spec_prefixes().len() && link_from(
                                    before, after, self.spec_routers(), v, before.spec_prefixes()[p], l);
                            assert(mid.spec_boundary().contains(v));
                        }
                    }
                }
                Ok(())
            },
            Err(e) => Err(e),
        }
    }

    /// For each virtual boundary router and each prefix, before and after the changes, the link
    /// from it to the external router its route ends at, when that route leaves the zone at
    /// once; the error of the first route that does not reach its prefix.
    fn emulated_links(&self, before: &ForwardingState, after: &ForwardingState) -> (r: Result<Vec<(RouterId, RouterId, RouterId)>, NetworkError>)
        requires
            before.wf(),
            after.wf(),
            before.spec_num_devices() == after.spec_num_devices(),
            before.spec_prefixes() == after.spec_prefixes(),
            forall|x: RouterId| #[trigger] self.spec_boundary().contains(x) ==> x < before.spec_num_devices(),
        ensures
            r.is_ok() <==> forall|v: RouterId, p: int|
                #![trigger self.spec_boundary().contains(v), before.spec_prefixes()[p]]
                self.spec_boundary().contains(v) && 0 <= p < before.spec_prefixes().len() ==> route_ok(
                    before,
                    v,
                    before.spec_prefixes()[p],
                ) && route_ok(after, v, before.spec_prefixes()[p]),
            r.is_ok() ==> forall|l: (RouterId, RouterId, RouterId)| #[trigger] r.unwrap()@.contains(l) <==> exists|v: RouterId, p: int|
                #![trigger self.spec_boundary().contains(v), before.spec_prefixes()[p]]
                self.spec_boundary().contains(v) && 0 <= p < before.spec_prefixes().len() && (link_of(
                    before,
                    self.spec_routers(),
                    v,
                    before.spec_prefixes()[p],
                    l,
                ) || link_of(after, self.spec_routers(), v, before.spec_prefixes()[p], l)),
    {
        let ghost routers = self.routers@;
        let ghost bnd = self.virtual_boundary_routers@;
        let ghost mid = *self;
        proof {
            assert forall|x: RouterId| #[trigger] bnd.contains(x) implies x < before.spec_num_devices() by {
                assert(self.spec_boundary().contains(x));
            }
        }
        let np = before.num_prefixes();
        let mut links: Vec<(RouterId, RouterId, RouterId)> = Vec::new();
        let mut i: usize = 0;
        while i < self.virtual_boundary_routers.len()
            invariant
                before.wf(),
                after.wf(),
                before.spec_num_devices() == after.spec_num_devices(),
                before.spec_prefixes() == after.spec_prefixes(),
                np == before.spec_prefixes().len(),
                self.routers@ == routers,
                self.virtual_boundary_routers@ == bnd,
                *self == mid,
                forall|x: RouterId| #[trigger] bnd.contains(x) ==> x < before.spec_num_devices(),
                0 <= i <= bnd.len(),
                forall|a: int, p: int| 0 <= a < i && 0 <= p < np ==> #[trigger] route_ok(before, bnd[a], before.spec_prefixes()[p])
                    && route_ok(after, bnd[a], before.spec_prefixes()[p]),
                forall|l: (RouterId, RouterId, RouterId)| #[trigger] links@.contains(l) <==> exists|a: int, p: int|
                    0 <= a < i && 0 <= p < np && #[trigger] link_from(before, after, routers, bnd[a], before.spec_prefixes()[p], l),
            decreases bnd.len() - i,
        {
            let v = self.virtual_boundary_routers[i];
            proof {
                assert(bnd.contains(bnd[i as int]));
            }
            let mut j: usize = 0;
            while j < np
                invariant
                    before.wf(),
                    after.wf(),
                    before.spec_num_devices() == after.spec_num_devices(),
                    before.spec_prefixes() == after.spec_prefixes(),
                    np == before.spec_prefixes().len(),
                    self.routers@ == routers,
                    self.virtual_boundary_routers@ == bnd,
                    *self == mid,
                    0 <= i < bnd.len(),
                    v == bnd[i as int],
                    v < before.spec_num_devices(),
                    0 <= j <= np,
                    forall|a: int, p: int| 0 <= a < i && 0 <= p < np ==> #[trigger] route_ok(before, bnd[a], before.spec_prefixes()[p])
                        && route_ok(after, bnd[a], before.spec_prefixes()[p]),
                    forall|p: int| 0 <= p < j ==> #[trigger] route_ok(before, v, before.spec_prefixes()[p])
                        && route_ok(after, v, before.spec_prefixes()[p]),
                    forall|l: (RouterId, RouterId, RouterId)| #[trigger] links@.contains(l) <==> (exists|a: int, p: int|
                        0 <= a < i && 0 <= p < np && #[trigger] link_from(before, after, routers, bnd[a], before.spec_prefixes()[p], l))
                        || exists|p: int| 0 <= p < j && #[trigger] link_from(before, after, routers, v, before.spec_prefixes()[p], l),
                decreases np - j,
            {
                let p = before.prefix_at(j);
                let ghost l0 = links@;
                let rb = self.link_for(before, v, p, &mut links);
                if rb.is_err() {
                    proof {
                        assert(!route_ok(before, v, before.spec_prefixes()[j as int]));
                        assert(self.spec_boundary().contains(v));
                    }
                    return Err(rb.unwrap_err());
                }
                let ghost l1 = links@;
                let ra = self.link_for(after, v, p, &mut links);
                if ra.is_err() {
                    proof {
                        assert(!route_ok(after, v, before.spec_prefixes()[j as int]));
                        assert(self.spec_boundary().contains(v));
                    }
                    return Err(ra.unwrap_err());
                }
                proof {
                    assert(p == before.spec_prefixes()[j as int]);
                    assert(route_ok(before, v, p) && route_ok(after, v, p));
                    assert forall|q: int| 0 <= q < j + 1 implies #[trigger] route_ok(before, v, before.spec_prefixes()[q])
                        && route_ok(after, v, before.spec_prefixes()[q]) by {
                    }
                    assert forall|l: (RouterId, RouterId, RouterId)| #[trigger] links@.contains(l) <==> (exists|a: int, q: int|
                        0 <= a < i && 0 <= q < np && #[trigger] link_from(before, after, routers, bnd[a], before.spec_prefixes()[q], l))
                        || exists|q: int| 0 <= q < j + 1 && #[trigger] link_from(before, after, routers, v, before.spec_prefixes()[q], l) by {
                        assert(links@.contains(l) <==> l0.contains(l) || link_of(before, routers, v, p, l) || link_of(after, routers, v, p, l));
                        if link_from(before, after, routers, v, before.spec_prefixes()[j as int], l) {
                        }
                        if exists|q: int| 0 <= q < j + 1 && #[trigger] link_from(before, after, routers, v, before.spec_prefixes()[q], l) {
                            let q = choose|q: int| 0 <= q < j + 1 && #[trigger] link_from(before, after, routers, v, before.spec_prefixes()[q], l);
                            if q < j {
                                assert(l0.contains(l));
                            }
                        }
                    }
                }
                j = j + 1;
            }
            proof {
                assert forall|a: int, p: int| 0 <= a < i + 1 && 0 <= p < np implies #[trigger] route_ok(before, bnd[a], before.spec_prefixes()[p])
                    && route_ok(after, bnd[a], before.spec_prefixes()[p]) by {
                    if a == i {
                        assert(route_ok(before, v, before.spec_prefixes()[p]));
                    }
                }
                assert forall|l: (RouterId, RouterId, RouterId)| #[trigger] links@.contains(l) <==> exists|a: int, p: int|
                    0 <= a < i + 1 && 0 <= p < np && #[trigger] link_from(before, after, routers, bnd[a], before.spec_prefixes()[p], l) by {
                    if exists|p: int| 0 <= p < np && #[trigger] link_from(before, after, routers, v, before.spec_prefixes()[p], l) {
                        let p = choose|p: int| 0 <= p < np && #[trigger] link_from(before, after, routers, v, before.spec_prefixes()[p], l);
                        assert(link_from(before, after, routers, bnd[i as int], before.spec_prefixes()[p], l));
                    }
                    if exists|a: int, p: int| 0 <= a < i + 1 && 0 <= p < np && #[trigger] link_from(before, after, routers, bnd[a], before.spec_prefixes()[p], l) {
                        let (a, p) = choose|a: int, p: int| 0 <= a < i + 1 && 0 <= p < np && #[trigger] link_from(before, after, routers, bnd[a], before.spec_prefixes()[p], l);
                        if a == i {
                            assert(link_from(before, after, routers, v, before.spec_prefixes()[p], l));
                        }
                    }
                }
            }
            i = i + 1;
        }
        proof {
            assert forall|v: RouterId, p: int|
                #![trigger self.spec_boundary().contains(v), before.spec_prefixes()[p]]
                self.spec_boundary().contains(v) && 0 <= p < before.spec_prefixes().len() implies route_ok(before, v, before.spec_prefixes()[p])
                    && route_ok(after, v, before.spec_prefixes()[p]) by {
                let a = choose|a: int| 0 <= a < bnd.len() && bnd[a] == v;
                assert(route_ok(before, bnd[a], before.spec_prefixes()[p]));
            }
            assert forall|l: (RouterId, RouterId, RouterId)| #[trigger] links@.contains(l) implies exists|v: RouterId, p: int|
                #![trigger self.spec_boundary().contains(v), before.spec_prefixes()[p]]
                self.spec_boundary().contains(v) && 0 <= p < before.spec_prefixes().len() && (link_of(before, routers, v, before.spec_prefixes()[p], l)
                    || link_of(after, routers, v, before.spec_prefixes()[p], l)) by {
                let (a, p) = choose|a: int, p: int|
                    0 <= a < bnd.len() && 0 <= p < np && #[trigger] link_from(before, after, routers, bnd[a], before.spec_prefixes()[p], l);
                assert(bnd.contains(bnd[a]));
                assert(self.spec_boundary() == bnd);
                assert(self.spec_boundary().contains(bnd[a]));
                assert(link_of(before, routers, bnd[a], before.spec_prefixes()[p], l) || link_of(after, routers, bnd[a], before.spec_prefixes()[p], l));
            }
            assert forall|l: (RouterId, RouterId, RouterId)| (exists|v: RouterId, p: int|
                #![trigger self.spec_boundary().contains(v), before.spec_prefixes()[p]]
                self.spec_boundary().contains(v) && 0 <= p < before.spec_prefixes().len() && (link_of(before, routers, v, before.spec_prefixes()[p], l)
                    || link_of(after, routers, v, before.spec_prefixes()[p], l))) implies #[trigger] links@.contains(l) by {
                let (v, p) = choose|v: RouterId, p: int|
                    #![trigger self.spec_boundary().contains(v), before.spec_prefixes()[p]]
                    self.spec_boundary().contains(v) && 0 <= p < before.spec_prefixes().len() && (link_of(before, routers, v, before.spec_prefixes()[p], l)
                        || link_of(after, routers, v, before.spec_prefixes()[p], l));
                let a = choose|a: int| 0 <= a < bnd.len() && bnd[a] == v;
                assert(link_from(before, after, routers, bnd[a], before.spec_prefixes()[p], l));
            }
        }
        Ok(links)
    }

    /// Queries the route of `v` toward `p` in `fs`, and records its link when it leaves the
    /// zone at once.
    fn link_for(&self, fs: &ForwardingState, v: RouterId, p: Prefix, links: &mut Vec<(RouterId, RouterId, RouterId)>) -> (r: Result<(), NetworkError>)
        requires
            fs.wf(),
            v < fs.spec_num_devices(),
            fs.spec_prefixes().contains(p),
        ensures
            r.is_ok() <==> route_ok(fs, v, p),
            r.is_ok() ==> forall|l: (RouterId, RouterId, RouterId)| #[trigger] final(links)@.contains(l) <==> old(links)@.contains(l)
                || link_of(fs, self.routers@, v, p, l),
            r.is_err() ==> final(links)@ == old(links)@,
    {
        let route = fs.get_route_new(v, Destination::Bgp(p));
        let ghost gr = route;
        match route {
            Ok(q) => {
                proof {
                    assert forall|l: (RouterId, RouterId, RouterId)| link_of(fs, self.routers@, v, p, l) implies
                        q@.len() >= 2 && !self.routers@.contains(q@[1]) && l == (v, q@[1], q@.last()) by {
                        let q2 = choose|q2: Seq<RouterId>| fs.is_acl_walk(v, Destination::Bgp(p), q2, CacheResult::ValidPath) && q2.len() >= 2
                            && !self.routers@.contains(q2[1]) && l == (v, q2[1], q2.last());
                        lemma_acl_walk_unique(fs, v, Destination::Bgp(p), q@, CacheResult::ValidPath, q2, CacheResult::ValidPath);
                    }
                }
                if q.len() >= 2 && !vec_contains(&self.routers, q[1]) {
                    let l = (v, q[1], q[q.len() - 1]);
                    let ghost before = links@;
                    links.push(l);
                    proof {
                        assert(link_of(fs, self.routers@, v, p, l));
                        assert forall|x: (RouterId, RouterId, RouterId)| #[trigger] links@.contains(x) <==> before.contains(x)
                            || link_of(fs, self.routers@, v, p, x) by {
                            if links@.contains(x) && x != l {
                                let k = choose|k: int| 0 <= k < links@.len() && links@[k] == x;
                                assert(before[k] == x);
                            }
                            if before.contains(x) {
                                let k = choose|k: int| 0 <= k < before.len() && before[k] == x;
                                assert(links@[k] == x);
                            }
                            if x == l {
                                assert(links@[before.len() as int] == x);
                            }
                        }
                    }
                }
                Ok(())
            },
            Err(e) => {
                proof {
                    if route_ok(fs, v, p) {
                        let q2 = choose|q2: Seq<RouterId>| fs.is_acl_walk(v, Destination::Bgp(p), q2, CacheResult::ValidPath);
                        match gr {
                            Err(NetworkError::ForwardingBlackHole(q)) => {
                                lemma_acl_walk_unique(fs, v, Destination::Bgp(p), q@, CacheResult::BlackHole, q2, CacheResult::ValidPath);
                            },
                            Err(NetworkError::ForwardingLoop(q)) => {
                                lemma_acl_walk_unique(fs, v, Destination::Bgp(p), q@, CacheResult::ForwardingLoop, q2, CacheResult::ValidPath);
                            },
                            Err(NetworkError::AccessDenied(x)) => {
                                let q = choose|q: Seq<RouterId>| fs.is_acl_walk(v, Destination::Bgp(p), q, CacheResult::AccessDenied) && q.last() == x;
                                lemma_acl_walk_unique(fs, v, Destination::Bgp(p), q, CacheResult::AccessDenied, q2, CacheResult::ValidPath);
                            },
                            _ => {},
                        }
                    }
                }
                Err(e)
            },
        }
    }

    fn next_hop_leaves(&self, before: &ForwardingState, after: &ForwardingState, x: RouterId) -> (r: bool)
        requires
            before.wf(),
            after.wf(),
            before.spec_num_devices() == after.spec_num_devices(),
            before.spec_prefixes() == after.spec_prefixes(),
        ensures
            r == leaves_zone(before, after, self.routers@, x),
    {
        let n = before.num_prefixes();
        let mut p: usize = 0;
        while p < n
            invariant
                before.wf(),
                after.wf(),
                before.spec_num_devices() == after.spec_num_devices(),
                before.spec_prefixes() == after.spec_prefixes(),
                n == before.spec_prefixes().len(),
                0 <= p <= n,
                forall|q: int| 0 <= q < p ==> !#[trigger] hop_leaves(before, after, self.routers@, x, q),
            decreases n - p,
        {
            let b = before.next_hop_at(x, p);
            let a = after.next_hop_at(x, p);
            let out_b = match b {
                Some(h) => !vec_contains(&self.routers, h),
                None => false,
            };
            let out_a = match a {
                Some(h) => !vec_contains(&self.routers, h),
                None => false,
            };
            if out_b || out_a {
                proof {
                    assert(hop_leaves(before, after, self.routers@, x, p as int));
                }
                return true;
            }
            p = p + 1;
        }
        false
    }
}

/// The expression a change leaves in place: the inserted or removed one, or the new one of an
/// update.
pub open spec fn target_expr(m: ConfigModifier) -> ConfigExpr {
    match m {
        ConfigModifier::Insert(e) => e,
        ConfigModifier::Remove(e) => e,
        ConfigModifier::Update { from: _, to } => to,
    }
}

/// A change matters to an IGP zone made of `routers` unless it sets the weight of a link that
/// does not lie inside the zone.
pub open spec fn igp_relevant(routers: Seq<RouterId>, m: ConfigModifier) -> bool {
    match target_expr(m) {
        ConfigExpr::IgpLinkWeight { source, target } => routers.contains(source) && routers.contains(target),
        _ => true,
    }
}

/// The changes among the first `n` of `configs` that matter to the IGP zone of `routers`, in order.
pub open spec fn igp_relevant_prefix(routers: Seq<RouterId>, configs: Seq<ConfigModifier>, n: int) -> Seq<ConfigModifier>
    decreases n,
{
    if n <= 0 {
        Seq::empty()
    } else if igp_relevant(routers, configs[n - 1]) {
        igp_relevant_prefix(routers, configs, n - 1).push(configs[n - 1])
    } else {
        igp_relevant_prefix(routers, configs, n - 1)
    }
}

/// In `fs`, the route of the zone's router `v` toward prefix `p` leaves the zone of `routers`
/// through `l.1` and ends at `l.2`.
pub open spec fn link_of(fs: &ForwardingState, routers: Seq<RouterId>, v: RouterId, p: Prefix, l: (RouterId, RouterId, RouterId)) -> bool {
    exists|q: Seq<RouterId>|
        fs.is_acl_walk(v, Destination::Bgp(p), q, CacheResult::ValidPath) && q.len() >= 2 && !routers.contains(q[1])
            && l == (v, q[1], q.last())
}

/// Every member of the zone of `routers` whose next hop leaves it reaches every known prefix,
/// before and after the changes.
pub open spec fn zone_routes_ok(before: &ForwardingState, after: &ForwardingState, routers: Seq<RouterId>) -> bool {
    forall|v: RouterId, p: int|
        #![trigger routers.contains(v), before.spec_prefixes()[p]]
        routers.contains(v) && leaves_zone(before, after, routers, v) && 0 <= p < before.spec_prefixes().len() ==> route_ok(
            before,
            v,
            before.spec_prefixes()[p],
        ) && route_ok(after, v, before.spec_prefixes()[p])
}

/// The virtual boundary routers of `z` are exactly the members of `routers` whose next hop
/// leaves the zone.
pub open spec fn boundary_ok(before: &ForwardingState, after: &ForwardingState, z: Zone, routers: Seq<RouterId>) -> bool {
    forall|x: RouterId| #[trigger] z.spec_boundary().contains(x) <==> routers.contains(x) && leaves_zone(before, after, routers, x)
}

/// The links of zone `z` are exactly those of its virtual boundary routers toward the known
/// prefixes, before or after the changes.
pub open spec fn links_ok(before: &ForwardingState, after: &ForwardingState, z: Zone) -> bool {
    forall|l: (RouterId, RouterId, RouterId)| #[trigger] z.spec_links().contains(l) <==> exists|v: RouterId, p: int|
        #![trigger z.spec_boundary().contains(v), before.spec_prefixes()[p]]
        z.spec_boundary().contains(v) && 0 <= p < before.spec_prefixes().len() && link_from(
            before,
            after,
            z.spec_routers(),
            v,
            before.spec_prefixes()[p],
            l,
        )
}

/// `l` is a link of `v` toward `p`, before or after the changes.
pub open spec fn link_from(
    before: &ForwardingState,
    after: &ForwardingState,
    routers: Seq<RouterId>,
    v: RouterId,
    p: Prefix,
    l: (RouterId, RouterId, RouterId),
) -> bool {
    link_of(before, routers, v, p, l) || link_of(after, routers, v, p, l)
}

/// The route of `v` toward `p` in `fs` reaches an external router that knows the prefix.
pub open spec fn route_ok(fs: &ForwardingState, v: RouterId, p: Prefix) -> bool {
    exists|q: Seq<RouterId>| fs.is_acl_walk(v, Destination::Bgp(p), q, CacheResult::ValidPath)
}

/// For the `q`-th prefix, the next hop of `x`, before or after, is a router outside `routers`.
pub open spec fn hop_leaves(before: &ForwardingState, after: &ForwardingState, routers: Seq<RouterId>, x: RouterId, q: int) -> bool {
    &&& x < before.spec_num_devices()
    &&& {
        ||| (before.next_of(x as int, q).is_some() && !routers.contains(before.next_of(x as int, q).unwrap()))
        ||| (after.next_of(x as int, q).is_some() && !routers.contains(after.next_of(x as int, q).unwrap()))
    }
}

/// For some prefix, the next hop of `x` leaves the zone made of `routers`.
pub open spec fn leaves_zone(before: &ForwardingState, after: &ForwardingState, routers: Seq<RouterId>, x: RouterId) -> bool {
    exists|q: int| 0 <= q < before.spec_prefixes().len() && #[trigger] hop_leaves(before, after, routers, x, q)
}

} // verus!
