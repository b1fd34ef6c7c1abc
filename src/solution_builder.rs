use vstd::prelude::*;
use std::collections::HashMap;
use crate::dag::{Dag, DagView};
use crate::netsim::Prefix;
use crate::types::{ConfigId, DagError, RouterId};

verus! {

broadcast use vstd::std_specs::hash::group_hash_axioms;

/// The routers whose next hop a configuration changes, as recorded with it.
pub open spec fn routers_of(e: (ConfigId, Vec<(RouterId, Prefix)>)) -> Seq<RouterId> {
    e.1@.map_values(|x: (RouterId, Prefix)| x.0)
}

/// `m` after configuration `c` touched the routers `rs`: each of them now maps to `c`.
pub open spec fn touch_last(m: Map<RouterId, ConfigId>, c: ConfigId, rs: Seq<RouterId>) -> Map<RouterId, ConfigId> {
    m.union_prefer_right(Map::new(|x: RouterId| rs.contains(x), |x: RouterId| c))
}

/// `m` after configuration `c` touched the routers `rs`: routers seen for the first time map
/// to `c`, the others keep their entry.
pub open spec fn touch_first(m: Map<RouterId, ConfigId>, c: ConfigId, rs: Seq<RouterId>) -> Map<RouterId, ConfigId> {
    Map::new(|x: RouterId| rs.contains(x), |x: RouterId| c).union_prefer_right(m)
}

/// For each router, the last configuration of `es` that touched it, over `m`.
pub open spec fn fold_last(m: Map<RouterId, ConfigId>, es: Seq<(ConfigId, Vec<(RouterId, Prefix)>)>) -> Map<RouterId, ConfigId>
    decreases es.len(),
{
    if es.len() == 0 {
        m
    } else {
        touch_last(fold_last(m, es.drop_last()), es.last().0, routers_of(es.last()))
    }
}

/// For each router, the first configuration of `es` that touched it, unless `m` has one.
pub open spec fn fold_first(m: Map<RouterId, ConfigId>, es: Seq<(ConfigId, Vec<(RouterId, Prefix)>)>) -> Map<RouterId, ConfigId>
    decreases es.len(),
{
    if es.len() == 0 {
        m
    } else {
        touch_first(fold_first(m, es.drop_last()), es.last().0, routers_of(es.last()))
    }
}

/// The configuration ids in the first `n` orderings of `os`.
pub open spec fn orderings_ids(os: Seq<Vec<(ConfigId, Vec<(RouterId, Prefix)>)>>, n: int) -> Set<ConfigId> {
    Set::new(|x: ConfigId| exists|z: int, k: int| 0 <= z < n && 0 <= k < os[z]@.len() && #[trigger] os[z]@[k].0 == x)
}

/// The chain edges of the first `n` orderings of `os`.
pub open spec fn orderings_chains(os: Seq<Vec<(ConfigId, Vec<(RouterId, Prefix)>)>>, n: int) -> Set<(ConfigId, ConfigId)> {
    Set::new(|e: (ConfigId, ConfigId)| exists|z: int| 0 <= z < n && #[trigger] chain_edges(ids_of(os[z]@)).contains(e))
}

/// For each router, the last configuration touching it over the first `n` orderings of `os`.
pub open spec fn fold_orderings_last(
    m: Map<RouterId, ConfigId>,
    os: Seq<Vec<(ConfigId, Vec<(RouterId, Prefix)>)>>,
    n: int,
) -> Map<RouterId, ConfigId>
    decreases n,
{
    if n <= 0 {
        m
    } else {
        fold_last(fold_orderings_last(m, os, n - 1), os[n - 1]@)
    }
}

/// For each router, the first configuration touching it over the first `n` orderings of `os`.
pub open spec fn fold_orderings_first(
    m: Map<RouterId, ConfigId>,
    os: Seq<Vec<(ConfigId, Vec<(RouterId, Prefix)>)>>,
    n: int,
) -> Map<RouterId, ConfigId>
    decreases n,
{
    if n <= 0 {
        m
    } else {
        fold_first(fold_orderings_first(m, os, n - 1), os[n - 1]@)
    }
}

/// The configuration ids of an ordering, in order.
pub open spec fn ids_of(es: Seq<(ConfigId, Vec<(RouterId, Prefix)>)>) -> Seq<ConfigId> {
    es.map_values(|e: (ConfigId, Vec<(RouterId, Prefix)>)| e.0)
}

/// The edges that chain consecutive ids of `ids`.
pub open spec fn chain_edges(ids: Seq<ConfigId>) -> Set<(ConfigId, ConfigId)> {
    Set::new(|e: (ConfigId, ConfigId)| exists|i: int| 0 <= i < ids.len() - 1 && e == (ids[i], #[trigger] ids[i + 1]))
}

/// The configuration edges that the router edges `deps` call for: the last configuration
/// touching the earlier router before the first touching the later one.
pub open spec fn translated_edges(
    deps: Set<(RouterId, RouterId)>,
    last: Map<RouterId, ConfigId>,
    first: Map<RouterId, ConfigId>,
) -> Set<(ConfigId, ConfigId)> {
    Set::new(|e: (ConfigId, ConfigId)| exists|x: RouterId, y: RouterId|
        #[trigger] deps.contains((x, y)) && last.contains_key(x) && first.contains_key(y) && e == (last[x], first[y]))
}

/// Any order that respects a graph holding the chain of `ids` lists `ids` in their own order:
/// the order restricted to `ids` gives back `ids`.
pub proof fn lemma_chain_order_kept(g: DagView, ids: Seq<ConfigId>, o: Seq<ConfigId>)
    requires
        g.is_topological_order(o),
        chain_edges(ids).subset_of(g.edges),
        forall|k: int| 0 <= k < ids.len() ==> g.nodes.contains(#[trigger] ids[k]),
    ensures
        forall|i: int, j: int| 0 <= i < j < ids.len() ==> #[trigger] o.index_of(ids[i]) < #[trigger] o.index_of(ids[j]),
        forall|k: int| 0 <= k < ids.len() ==> o[#[trigger] o.index_of(ids[k])] == ids[k] && 0 <= o.index_of(ids[k]) < o.len(),
{
    assert forall|k: int| 0 <= k < ids.len() implies o[#[trigger] o.index_of(ids[k])] == ids[k] && 0 <= o.index_of(ids[k]) < o.len() by {
        assert(o.contains(ids[k]));
    }
    assert forall|i: int, j: int| 0 <= i < j < ids.len() implies #[trigger] o.index_of(ids[i]) < #[trigger] o.index_of(ids[j]) by {
        lemma_chain_step(g, ids, o, i, j);
    }
}

proof fn lemma_chain_step(g: DagView, ids: Seq<ConfigId>, o: Seq<ConfigId>, i: int, j: int)
    requires
        g.is_topological_order(o),
        chain_edges(ids).subset_of(g.edges),
        forall|k: int| 0 <= k < ids.len() ==> o[#[trigger] o.index_of(ids[k])] == ids[k] && 0 <= o.index_of(ids[k]) < o.len(),
        0 <= i < j < ids.len(),
    ensures
        o.index_of(ids[i]) < o.index_of(ids[j]),
    decreases j - i,
{
    let a = o.index_of(ids[j - 1]);
    let b = o.index_of(ids[j]);
    assert(o[a] == ids[j - 1] && o[b] == ids[j]);
    let k = j - 1;
    assert((ids[j - 1], ids[j]) == (ids[k], ids[k + 1]));
    assert(chain_edges(ids).contains((ids[j - 1], ids[j])));
    assert(g.edges.contains((o[a], o[b])));
    if i < j - 1 {
        lemma_chain_step(g, ids, o, i, j - 1);
    }
}

/// The two dependency graphs of a synthesis run, before any ordering is folded in.
pub struct DependencyBuilder {
    node_dependency: Dag,
    config_dependency: Dag,
}

impl DependencyBuilder {
    pub closed spec fn nodes_view(&self) -> DagView {
        self.node_dependency@
    }

    pub closed spec fn configs_view(&self) -> DagView {
        self.config_dependency@
    }

    pub fn new() -> (r: DependencyBuilder)
        ensures
            r.nodes_view().nodes == Set::<usize>::empty(),
            r.nodes_view().edges == Set::<(usize, usize)>::empty(),
            r.configs_view().nodes == Set::<usize>::empty(),
            r.configs_view().edges == Set::<(usize, usize)>::empty(),
    {
        DependencyBuilder { node_dependency: Dag::new(), config_dependency: Dag::new() }
    }
}

/// Builds the configuration-level dependency graph out of per-zone orderings and router-level
/// dependencies.
pub struct SolutionBuilder {
    node_dependency: Dag,
    config_dependency: Dag,
    node_edges: Vec<(RouterId, RouterId)>,
    cache: HashMap<RouterId, ConfigId>,
    first: HashMap<RouterId, ConfigId>,
}

impl SolutionBuilder {
    /// The router-level dependencies.
    pub closed spec fn nodes_view(&self) -> DagView {
        self.node_dependency@
    }

    /// The configuration-level dependencies.
    pub closed spec fn configs_view(&self) -> DagView {
        self.config_dependency@
    }

    /// For each router, the last configuration seen to change its next hop.
    pub closed spec fn last_config(&self) -> Map<RouterId, ConfigId> {
        self.cache@
    }

    /// For each router, the first configuration seen to change its next hop.
    pub closed spec fn first_config(&self) -> Map<RouterId, ConfigId> {
        self.first@
    }

    pub closed spec fn wf(&self) -> bool {
        &&& self.node_dependency.wf()
        &&& self.config_dependency.wf()
        &&& forall|e: (RouterId, RouterId)| #[trigger] self.node_edges@.contains(e) <==> self.node_dependency@.edges.contains(e)
        &&& forall|x: RouterId| #[trigger] self.cache@.contains_key(x) ==> self.config_dependency@.nodes.contains(self.cache@[x])
        &&& forall|x: RouterId| #[trigger] self.first@.contains_key(x) ==> self.config_dependency@.nodes.contains(self.first@[x])
    }

    pub fn new() -> (r: SolutionBuilder)
        ensures
            r.wf(),
            r.nodes_view().nodes == Set::<usize>::empty(),
            r.nodes_view().edges == Set::<(usize, usize)>::empty(),
            r.configs_view().nodes == Set::<usize>::empty(),
            r.configs_view().edges == Set::<(usize, usize)>::empty(),
            r.last_config() == Map::<RouterId, ConfigId>::empty(),
            r.first_config() == Map::<RouterId, ConfigId>::empty(),
    {
        SolutionBuilder {
            node_dependency: Dag::new(),
            config_dependency: Dag::new(),
            node_edges: Vec::new(),
            cache: HashMap::new(),
            first: HashMap::new(),
        }
    }

    /// Records that the next-hop change of router `from` must precede that of router `to`.
    pub fn add_node_dependency(&mut self, from: RouterId, to: RouterId) -> (r: Result<(), DagError>)
        requires
            old(self).wf(),
        ensures
            final(self).wf(),
            r == Ok::<(), DagError>(()),
            final(self).nodes_view().nodes == old(self).nodes_view().nodes.insert(from).insert(to),
            final(self).nodes_view().edges == old(self).nodes_view().edges.insert((from, to)),
            final(self).configs_view() == old(self).configs_view(),
            final(self).last_config() == old(self).last_config(),
            final(self).first_config() == old(self).first_config(),
    {
        self.node_dependency.insert_node(from);
        self.node_dependency.insert_node(to);
        let r = self.node_dependency.add_dependency(from, to);
        self.node_edges.push((from, to));
        proof {
            assert forall|e: (RouterId, RouterId)| #[trigger] self.node_edges@.contains(e) <==> self.node_dependency@.edges.contains(e) by {
                if e == (from, to) {
                    assert(self.node_edges@[self.node_edges@.len() - 1] == e);
                } else {
                    if self.node_edges@.contains(e) {
                        let k = choose|k: int| 0 <= k < self.node_edges@.len() && self.node_edges@[k] == e;
                        assert(old(self).node_edges@[k] == e);
                    }
                    if old(self).node_edges@.contains(e) {
                        let k = choose|k: int| 0 <= k < old(self).node_edges@.len() && old(self).node_edges@[k] == e;
                        assert(self.node_edges@[k] == e);
                    }
                }
            }
        }
        r
    }

    /// Folds in one zone's ordering: each configuration becomes a node, each follows the one
    /// before it, and each is recorded for the routers whose next hop it changes.
    pub fn insert_config_ordering(&mut self, configs: &Vec<(ConfigId, Vec<(RouterId, Prefix)>)>) -> (r: Result<(), DagError>)
        requires
            old(self).wf(),
        ensures
            final(self).wf(),
            r == Ok::<(), DagError>(()),
            final(self).nodes_view() == old(self).nodes_view(),
            final(self).configs_view().nodes == old(self).configs_view().nodes.union(
                configs@.map_values(|e: (ConfigId, Vec<(RouterId, Prefix)>)| e.0).to_set(),
            ),
            final(self).configs_view().edges == old(self).configs_view().edges.union(
                chain_edges(configs@.map_values(|e: (ConfigId, Vec<(RouterId, Prefix)>)| e.0)),
            ),
            final(self).last_config() == fold_last(old(self).last_config(), configs@),
            final(self).first_config() == fold_first(old(self).first_config(), configs@),
    {
        let ghost ids = configs@.map_values(|e: (ConfigId, Vec<(RouterId, Prefix)>)| e.0);
        let mut prev: Option<ConfigId> = None;
        let mut i: usize = 0;
        proof {
            assert(ids.take(0).to_set() =~= Set::<usize>::empty());
            assert(chain_edges(ids.take(0)) =~= Set::<(usize, usize)>::empty());
            assert(configs@.take(0) =~= Seq::<(ConfigId, Vec<(RouterId, Prefix)>)>::empty());
            assert(self.configs_view().nodes =~= old(self).configs_view().nodes.union(ids.take(0).to_set()));
            assert(self.configs_view().edges =~= old(self).configs_view().edges.union(chain_edges(ids.take(0))));
        }
        while i < configs.len()
            invariant
                self.wf(),
                0 <= i <= configs.len(),
                ids == configs@.map_values(|e: (ConfigId, Vec<(RouterId, Prefix)>)| e.0),
                self.nodes_view() == old(self).nodes_view(),
                self.configs_view().nodes == old(self).configs_view().nodes.union(ids.take(i as int).to_set()),
                self.configs_view().edges == old(self).configs_view().edges.union(chain_edges(ids.take(i as int))),
                self.last_config() == fold_last(old(self).last_config(), configs@.take(i as int)),
                self.first_config() == fold_first(old(self).first_config(), configs@.take(i as int)),
                i == 0 ==> prev.is_none(),
                i > 0 ==> prev == Some(ids[i - 1]),
            decreases configs.len() - i,
        {
            let c = configs[i].0;
            let ts = &configs[i].1;
            let ghost rs = routers_of(configs@[i as int]);
            let ghost l0 = self.cache@;
            let ghost f0 = self.first@;
            let ghost g0 = self.configs_view();
            self.config_dependency.insert_node(c);
            let mut k: usize = 0;
            proof {
                assert(touch_last(l0, c, rs.take(0)) =~= l0);
                assert(touch_first(f0, c, rs.take(0)) =~= f0);
            }
            while k < ts.len()
                invariant
                    self.config_dependency.wf(),
                    self.node_dependency.wf(),
                    self.configs_view() == g0.with_node(c),
                    self.nodes_view() == old(self).nodes_view(),
                    forall|e: (RouterId, RouterId)| #[trigger] self.node_edges@.contains(e) <==> self.node_dependency@.edges.contains(e),
                    forall|x: RouterId| #[trigger] l0.contains_key(x) ==> g0.nodes.contains(l0[x]),
                    forall|x: RouterId| #[trigger] f0.contains_key(x) ==> g0.nodes.contains(f0[x]),
                    *ts == configs@[i as int].1,
                    c == configs@[i as int].0,
                    rs == routers_of(configs@[i as int]),
                    0 <= k <= ts.len(),
                    self.cache@ == touch_last(l0, c, rs.take(k as int)),
                    self.first@ == touch_first(f0, c, rs.take(k as int)),
                decreases ts.len() - k,
            {
                let x = ts[k].0;
                self.cache.insert(x, c);
                if !self.first.contains_key(&x) {
                    self.first.insert(x, c);
                }
                proof {
                    assert(rs[k as int] == x);
                    assert forall|z: RouterId| rs.take(k + 1).contains(z) <==> rs.take(k as int).contains(z) || z == x by {
                        if rs.take(k + 1).contains(z) && z != x {
                            let j = choose|j: int| 0 <= j < k + 1 && #[trigger] rs.take(k + 1)[j] == z;
                            assert(rs.take(k as int)[j] == z);
                        }
                        if rs.take(k as int).contains(z) {
                            let j = choose|j: int| 0 <= j < k && #[trigger] rs.take(k as int)[j] == z;
                            assert(rs.take(k + 1)[j] == z);
                        }
                        if z == x {
                            assert(rs.take(k + 1)[k as int] == z);
                        }
                    }
                    assert(self.cache@ =~= touch_last(l0, c, rs.take(k + 1)));
                    assert(self.first@ =~= touch_first(f0, c, rs.take(k + 1)));
                }
                k = k + 1;
            }
            proof {
                assert(rs.take(ts.len() as int) =~= rs);
                assert(configs@.take(i + 1).drop_last() =~= configs@.take(i as int));
                assert(configs@.take(i + 1).last() == configs@[i as int]);
            }
            match prev {
                Some(pc) => {
                    let _ = self.config_dependency.add_dependency(pc, c);
                },
                None => {},
            }
            proof {
                assert(ids[i as int] == c);
                assert(ids.take(i + 1).to_set() =~= ids.take(i as int).to_set().insert(c)) by {
                    assert forall|z: usize| ids.take(i + 1).contains(z) <==> ids.take(i as int).contains(z) || z == c by {
                        if ids.take(i + 1).contains(z) && z != c {
                            let j = choose|j: int| 0 <= j < i + 1 && #[trigger] ids.take(i + 1)[j] == z;
                            assert(ids.take(i as int)[j] == z);
                        }
                        if ids.take(i as int).contains(z) {
                            let j = choose|j: int| 0 <= j < i && #[trigger] ids.take(i as int)[j] == z;
                            assert(ids.take(i + 1)[j] == z);
                        }
                        if z == c {
                            assert(ids.take(i + 1)[i as int] == z);
                        }
                    }
                }
                assert(self.configs_view().nodes =~= old(self).configs_view().nodes.union(ids.take(i + 1).to_set()));
                let t0 = ids.take(i as int);
                let t1 = ids.take(i + 1);
                assert forall|e: (usize, usize)| chain_edges(t1).contains(e) <==> chain_edges(t0).contains(e) || (i > 0 && e == (ids[i - 1], c)) by {
                    if chain_edges(t1).contains(e) {
                        let j = choose|j: int| 0 <= j < t1.len() - 1 && e == (t1[j], #[trigger] t1[j + 1]);
                        if j + 1 < i {
                            assert(t0[j] == t1[j] && t0[j + 1] == t1[j + 1]);
                        }
                    }
                    if chain_edges(t0).contains(e) {
                        let j = choose|j: int| 0 <= j < t0.len() - 1 && e == (t0[j], #[trigger] t0[j + 1]);
                        assert(t0[j] == t1[j] && t0[j + 1] == t1[j + 1]);
                    }
                    if i > 0 && e == (ids[i - 1], c) {
                        let j = i - 1;
                        assert(e == (t1[j], t1[j + 1]));
                    }
                }
                assert(self.configs_view().edges =~= old(self).configs_view().edges.union(chain_edges(ids.take(i + 1))));
            }
            prev = Some(c);
            i = i + 1;
        }
        proof {
            assert(ids.take(configs.len() as int) =~= ids);
            assert(configs@.take(configs.len() as int) =~= configs@);
        }
        Ok(())
    }

    /// Turns every router-level dependency `x -> y` into the configuration edge from the last
    /// configuration touching `x` to the first touching `y`, where both are known.
    pub fn construct_config_dependency(&mut self) -> (r: Result<(), DagError>)
        requires
            old(self).wf(),
        ensures
            final(self).wf(),
            r == Ok::<(), DagError>(()),
            final(self).nodes_view() == old(self).nodes_view(),
            final(self).last_config() == old(self).last_config(),
            final(self).first_config() == old(self).first_config(),
            final(self).configs_view().nodes == old(self).configs_view().nodes,
            final(self).configs_view().edges == old(self).configs_view().edges.union(
                translated_edges(old(self).nodes_view().edges, old(self).last_config(), old(self).first_config()),
            ),
    {
        let mut k: usize = 0;
        while k < self.node_edges.len()
            invariant
                self.wf(),
                0 <= k <= self.node_edges.len(),
                self.node_edges == old(self).node_edges,
                self.nodes_view() == old(self).nodes_view(),
                self.last_config() == old(self).last_config(),
                self.first_config() == old(self).first_config(),
                self.configs_view().nodes == old(self).configs_view().nodes,
                forall|e: (usize, usize)| #[trigger] self.configs_view().edges.contains(e) <==> old(self).configs_view().edges.contains(e)
                    || exists|j: int| 0 <= j < k && self.cache@.contains_key(#[trigger] self.node_edges@[j].0)
                        && self.first@.contains_key(self.node_edges@[j].1) && e == (self.cache@[self.node_edges@[j].0], self.first@[self.node_edges@[j].1]),
            decreases self.node_edges.len() - k,
        {
            let (x, y) = self.node_edges[k];
            let ghost before = self.configs_view();
            let a = self.cache.get(&x);
            let b = self.first.get(&y);
            match (a, b) {
                (Some(ca), Some(cb)) => {
                    let ca = *ca;
                    let cb = *cb;
                    let _ = self.config_dependency.add_dependency(ca, cb);
                    proof {
                        assert forall|e: (usize, usize)| #[trigger] self.configs_view().edges.contains(e) <==> old(self).configs_view().edges.contains(e)
                            || exists|j: int| 0 <= j < k + 1 && self.cache@.contains_key(#[trigger] self.node_edges@[j].0)
                                && self.first@.contains_key(self.node_edges@[j].1) && e == (self.cache@[self.node_edges@[j].0], self.first@[self.node_edges@[j].1]) by {
                            if e == (ca, cb) {
                                assert(self.node_edges@[k as int].0 == x);
                            }
                            if before.edges.contains(e) {
                            }
                        }
                    }
                },
                _ => {
                    proof {
                        assert forall|e: (usize, usize)| #[trigger] self.configs_view().edges.contains(e) <==> old(self).configs_view().edges.contains(e)
                            || exists|j: int| 0 <= j < k + 1 && self.cache@.contains_key(#[trigger] self.node_edges@[j].0)
                                && self.first@.contains_key(self.node_edges@[j].1) && e == (self.cache@[self.node_edges@[j].0], self.first@[self.node_edges@[j].1]) by {
                            if exists|j: int| 0 <= j < k + 1 && self.cache@.contains_key(#[trigger] self.node_edges@[j].0)
                                && self.first@.contains_key(self.node_edges@[j].1) && e == (self.cache@[self.node_edges@[j].0], self.first@[self.node_edges@[j].1]) {
                                let j = choose|j: int| 0 <= j < k + 1 && self.cache@.contains_key(#[trigger] self.node_edges@[j].0)
                                    && self.first@.contains_key(self.node_edges@[j].1) && e == (self.cache@[self.node_edges@[j].0], self.first@[self.node_edges@[j].1]);
                                if j == k {
                                    assert(self.node_edges@[k as int] == (x, y));
                                }
                            }
                        }
                    }
                },
            }
            k = k + 1;
        }
        proof {
            let t = translated_edges(old(self).nodes_view().edges, old(self).last_config(), old(self).first_config());
            assert forall|e: (usize, usize)| self.configs_view().edges.contains(e) <==> old(self).configs_view().edges.contains(e) || t.contains(e) by {
                if t.contains(e) {
                    let (x, y) = choose|x: RouterId, y: RouterId| #[trigger] old(self).nodes_view().edges.contains((x, y)) && old(self).last_config().contains_key(x)
                        && old(self).first_config().contains_key(y) && e == (old(self).last_config()[x], old(self).first_config()[y]);
                    assert(self.node_edges@.contains((x, y)));
                    let j = choose|j: int| 0 <= j < self.node_edges@.len() && self.node_edges@[j] == (x, y);
                    assert(self.cache@.contains_key(self.node_edges@[j].0));
                }
                if exists|j: int| 0 <= j < self.node_edges@.len() && self.cache@.contains_key(#[trigger] self.node_edges@[j].0)
                    && self.first@.contains_key(self.node_edges@[j].1) && e == (self.cache@[self.node_edges@[j].0], self.first@[self.node_edges@[j].1]) {
                    let j = choose|j: int| 0 <= j < self.node_edges@.len() && self.cache@.contains_key(#[trigger] self.node_edges@[j].0)
                        && self.first@.contains_key(self.node_edges@[j].1) && e == (self.cache@[self.node_edges@[j].0], self.first@[self.node_edges@[j].1]);
                    let (x, y) = self.node_edges@[j];
                    assert(self.node_edges@.contains((x, y)));
                    assert(old(self).nodes_view().edges.contains((x, y)));
                }
            }
            assert(self.configs_view().edges =~= old(self).configs_view().edges.union(t));
        }
        Ok(())
    }

    /// Inserts each zone's ordering, translates the router-level dependencies, and returns the
    /// configuration-level graph when it has no cycle, `DagHasCycle` otherwise.
    pub fn assemble(&mut self, orderings: &Vec<Vec<(ConfigId, Vec<(RouterId, Prefix)>)>>) -> (r: Result<Dag, DagError>)
        requires
            old(self).wf(),
        ensures
            final(self).wf(),
            final(self).nodes_view() == old(self).nodes_view(),
            old(self).configs_view().edges.subset_of(final(self).configs_view().edges),
            forall|z: int| 0 <= z < orderings@.len() ==> chain_edges(ids_of((#[trigger] orderings@[z])@)).subset_of(
                final(self).configs_view().edges,
            ) && forall|k: int| 0 <= k < orderings@[z]@.len() ==> final(self).configs_view().nodes.contains(
                #[trigger] orderings@[z]@[k].0,
            ),
            final(self).configs_view().nodes == old(self).configs_view().nodes.union(orderings_ids(orderings@, orderings@.len() as int)),
            final(self).configs_view().edges == old(self).configs_view().edges.union(
                orderings_chains(orderings@, orderings@.len() as int),
            ).union(translated_edges(old(self).nodes_view().edges, final(self).last_config(), final(self).first_config())),
            final(self).last_config() == fold_orderings_last(old(self).last_config(), orderings@, orderings@.len() as int),
            final(self).first_config() == fold_orderings_first(old(self).first_config(), orderings@, orderings@.len() as int),
            r.is_ok() <==> final(self).configs_view().acyclic(),
            r.is_ok() ==> r.unwrap().wf() && r.unwrap()@ == final(self).configs_view(),
            r.is_err() ==> r == Err::<Dag, DagError>(DagError::DagHasCycle),
    {
        let mut z: usize = 0;
        proof {
            assert(orderings_ids(orderings@, 0) =~= Set::<ConfigId>::empty());
            assert(orderings_chains(orderings@, 0) =~= Set::<(ConfigId, ConfigId)>::empty());
            assert(self.configs_view().nodes =~= old(self).configs_view().nodes.union(orderings_ids(orderings@, 0)));
            assert(self.configs_view().edges =~= old(self).configs_view().edges.union(orderings_chains(orderings@, 0)));
        }
        while z < orderings.len()
            invariant
                self.wf(),
                0 <= z <= orderings@.len(),
                self.nodes_view() == old(self).nodes_view(),
                old(self).configs_view().edges.subset_of(self.configs_view().edges),
                forall|z2: int| 0 <= z2 < z ==> chain_edges(ids_of((#[trigger] orderings@[z2])@)).subset_of(
                    self.configs_view().edges,
                ) && forall|k: int| 0 <= k < orderings@[z2]@.len() ==> self.configs_view().nodes.contains(
                    #[trigger] orderings@[z2]@[k].0,
                ),
                self.configs_view().nodes == old(self).configs_view().nodes.union(orderings_ids(orderings@, z as int)),
                self.configs_view().edges == old(self).configs_view().edges.union(orderings_chains(orderings@, z as int)),
                self.last_config() == fold_orderings_last(old(self).last_config(), orderings@, z as int),
                self.first_config() == fold_orderings_first(old(self).first_config(), orderings@, z as int),
            decreases orderings@.len() - z,
        {
            let ghost before = self.configs_view();
            let _ = self.insert_config_ordering(&orderings[z]);
            proof {
                assert forall|z2: int| 0 <= z2 < z + 1 implies chain_edges(ids_of((#[trigger] orderings@[z2])@)).subset_of(
                    self.configs_view().edges,
                ) && forall|k: int| 0 <= k < orderings@[z2]@.len() ==> self.configs_view().nodes.contains(
                    #[trigger] orderings@[z2]@[k].0,
                ) by {
                    if z2 == z {
                        assert forall|k: int| 0 <= k < orderings@[z2]@.len() implies self.configs_view().nodes.contains(
                            #[trigger] orderings@[z2]@[k].0,
                        ) by {
                            assert(ids_of(orderings@[z2]@)[k] == orderings@[z2]@[k].0);
                            assert(ids_of(orderings@[z2]@).to_set().contains(orderings@[z2]@[k].0));
                        }
                    }
                }
                let zi = z as int;
                assert(orderings_ids(orderings@, zi + 1) =~= orderings_ids(orderings@, zi).union(ids_of(orderings@[zi]@).to_set())) by {
                    assert forall|x: ConfigId| orderings_ids(orderings@, zi + 1).contains(x) <==> orderings_ids(orderings@, zi).contains(x)
                        || ids_of(orderings@[zi]@).to_set().contains(x) by {
                        if orderings_ids(orderings@, zi + 1).contains(x) {
                            let (z2, k) = choose|z2: int, k: int| 0 <= z2 < zi + 1 && 0 <= k < orderings@[z2]@.len() && #[trigger] orderings@[z2]@[k].0 == x;
                            if z2 == zi {
                                assert(ids_of(orderings@[zi]@)[k] == x);
                            }
                        }
                        if ids_of(orderings@[zi]@).to_set().contains(x) {
                            let k = choose|k: int| 0 <= k < ids_of(orderings@[zi]@).len() && ids_of(orderings@[zi]@)[k] == x;
                            assert(orderings@[zi]@[k].0 == x);
                        }
                    }
                }
                assert(orderings_chains(orderings@, zi + 1) =~= orderings_chains(orderings@, zi).union(chain_edges(ids_of(orderings@[zi]@)))) by {
                    assert forall|e: (ConfigId, ConfigId)| orderings_chains(orderings@, zi + 1).contains(e) implies orderings_chains(orderings@, zi).contains(e)
                        || chain_edges(ids_of(orderings@[zi]@)).contains(e) by {
                        let z2 = choose|z2: int| 0 <= z2 < zi + 1 && #[trigger] chain_edges(ids_of(orderings@[z2]@)).contains(e);
                    }
                }
                assert(self.configs_view().nodes =~= old(self).configs_view().nodes.union(orderings_ids(orderings@, zi + 1)));
                assert(self.configs_view().edges =~= old(self).configs_view().edges.union(orderings_chains(orderings@, zi + 1)));
            }
            z = z + 1;
        }
        let _ = self.construct_config_dependency();
        match self.config_dependency.check_cycle() {
            Ok(()) => Ok(self.config_dependency.duplicate()),
            Err(e) => Err(e),
        }
    }

    pub fn get_node_dependency(&self) -> (r: &Dag)
        ensures
            r@ == self.nodes_view(),
    {
        &self.node_dependency
    }

    pub fn get_config_dependency(&self) -> (r: &Dag)
        requires
            self.wf(),
        ensures
            r@ == self.configs_view(),
            r.wf(),
    {
        &self.config_dependency
    }
}

} // verus!
