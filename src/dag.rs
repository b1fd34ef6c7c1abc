use vstd::prelude::*;
use crate::types::DagError;

verus! {

/// One node of a dependency graph, with the ids of its direct predecessors and successors.
#[derive(Debug)]
pub struct Node {
    id: usize,
    prev_count: usize,
    prev: Vec<usize>,
    next: Vec<usize>,
}

impl Node {
    pub closed spec fn spec_id(&self) -> usize {
        self.id
    }

    pub closed spec fn prev_ids(&self) -> Seq<usize> {
        self.prev@
    }

    pub closed spec fn next_ids(&self) -> Seq<usize> {
        self.next@
    }

    pub closed spec fn completed(&self) -> nat {
        self.prev_count as nat
    }

    pub closed spec fn wf(&self) -> bool {
        self.prev@.no_duplicates() && self.next@.no_duplicates()
    }

    pub fn new(id: usize) -> (r: Node)
        ensures
            r.wf(),
            r.spec_id() == id,
            r.prev_ids() == Seq::<usize>::empty(),
            r.next_ids() == Seq::<usize>::empty(),
            r.completed() == 0,
    {
        Node { id, prev_count: 0, prev: Vec::new(), next: Vec::new() }
    }

    pub fn get_id(&self) -> (r: usize)
        ensures
            r == self.spec_id(),
    {
        self.id
    }

    /// Whether every predecessor has been marked complete.
    pub fn get_status(&self) -> (r: bool)
        ensures
            r == (self.completed() == self.prev_ids().len()),
    {
        self.prev_count == self.prev.len()
    }

    pub fn get_prev(&self) -> (r: Vec<usize>)
        ensures
            r@ == self.prev_ids(),
    {
        copy_ids(&self.prev)
    }

    pub fn get_next(&self) -> (r: Vec<usize>)
        ensures
            r@ == self.next_ids(),
    {
        copy_ids(&self.next)
    }

    /// Records `node` as a predecessor. Returns `None` when it is new, `Some(node)` when it was
    /// already recorded.
    pub fn add_prev(&mut self, node: usize) -> (r: Option<usize>)
        requires
            old(self).wf(),
        ensures
            final(self).wf(),
            final(self).spec_id() == old(self).spec_id(),
            final(self).completed() == old(self).completed(),
            final(self).next_ids() == old(self).next_ids(),
            r == (if old(self).prev_ids().contains(node) { Some(node) } else { None::<usize> }),
            final(self).prev_ids() == (if old(self).prev_ids().contains(node) {
                old(self).prev_ids()
            } else {
                old(self).prev_ids().push(node)
            }),
    {
        if vec_contains(&self.prev, node) {
            return Some(node);
        }
        self.prev.push(node);
        proof {
            assert forall|a: int, b: int| 0 <= a < b < self.prev@.len() implies self.prev@[a] != self.prev@[b] by {
                if b == self.prev@.len() - 1 {
                    assert(old(self).prev@.contains(self.prev@[a]));
                }
            }
        }
        None
    }

    /// Records `node` as a successor. Returns `None` when it is new, `Some(node)` when it was
    /// already recorded.
    pub fn add_next(&mut self, node: usize) -> (r: Option<usize>)
        requires
            old(self).wf(),
        ensures
            final(self).wf(),
            final(self).spec_id() == old(self).spec_id(),
            final(self).completed() == old(self).completed(),
            final(self).prev_ids() == old(self).prev_ids(),
            r == (if old(self).next_ids().contains(node) { Some(node) } else { None::<usize> }),
            final(self).next_ids() == (if old(self).next_ids().contains(node) {
                old(self).next_ids()
            } else {
                old(self).next_ids().push(node)
            }),
    {
        if vec_contains(&self.next, node) {
            return Some(node);
        }
        self.next.push(node);
        proof {
            assert forall|a: int, b: int| 0 <= a < b < self.next@.len() implies self.next@[a] != self.next@[b] by {
                if b == self.next@.len() - 1 {
                    assert(old(self).next@.contains(self.next@[a]));
                }
            }
        }
        None
    }

    /// Called when the predecessor `node` has completed. Returns `None` when `node` is no
    /// predecessor, else whether all predecessors have now completed.
    pub fn mark_prev_complete(&mut self, node: usize) -> (r: Option<bool>)
        requires
            old(self).wf(),
            old(self).completed() < usize::MAX,
        ensures
            final(self).wf(),
            final(self).spec_id() == old(self).spec_id(),
            final(self).prev_ids() == old(self).prev_ids(),
            final(self).next_ids() == old(self).next_ids(),
            old(self).prev_ids().contains(node) ==> final(self).completed() == old(self).completed() + 1
                && r == Some(final(self).completed() == final(self).prev_ids().len()),
            !old(self).prev_ids().contains(node) ==> final(self).completed() == old(self).completed()
                && r.is_none(),
    {
        if vec_contains(&self.prev, node) {
            self.prev_count = self.prev_count + 1;
            return Some(self.get_status());
        }
        None
    }
}

pub(crate) fn vec_contains(v: &Vec<usize>, x: usize) -> (r: bool)
    ensures
        r == v@.contains(x),
{
    let mut i: usize = 0;
    while i < v.len()
        invariant
            0 <= i <= v.len(),
            forall|j: int| 0 <= j < i ==> v@[j] != x,
        decreases v.len() - i,
    {
        if v[i] == x {
            return true;
        }
        i = i + 1;
    }
    false
}

/// Copies a list of ids.
pub(crate) fn copy_ids(v: &Vec<usize>) -> (r: Vec<usize>)
    ensures
        r@ == v@,
{
    let mut r: Vec<usize> = Vec::new();
    let mut i: usize = 0;
    while i < v.len()
        invariant
            0 <= i <= v.len(),
            r@ == v@.subrange(0, i as int),
        decreases v.len() - i,
    {
        r.push(v[i]);
        i = i + 1;
    }
    assert(r@ =~= v@);
    r
}

/// Two duplicate-free lists, the first one held in the second: the first is not longer.
pub proof fn lemma_unique_subseq_len(a: Seq<usize>, b: Seq<usize>)
    requires
        a.no_duplicates(),
        b.no_duplicates(),
        forall|x: usize| a.contains(x) ==> b.contains(x),
    ensures
        a.len() <= b.len(),
        a.len() == b.len() ==> forall|x: usize| b.contains(x) ==> a.contains(x),
{
    a.unique_seq_to_set();
    b.unique_seq_to_set();
    assert(a.to_set().subset_of(b.to_set()));
    vstd::set_lib::lemma_len_subset(a.to_set(), b.to_set());
    if a.len() == b.len() {
        vstd::set_lib::lemma_subset_equality(a.to_set(), b.to_set());
        assert forall|x: usize| b.contains(x) implies a.contains(x) by {
            assert(b.to_set().contains(x));
        }
    }
}

/// Whether every element of `v` is in `w`.
pub(crate) fn all_in(v: &Vec<usize>, w: &Vec<usize>) -> (r: bool)
    ensures
        r == (forall|x: usize| v@.contains(x) ==> w@.contains(x)),
{
    let mut i: usize = 0;
    while i < v.len()
        invariant
            0 <= i <= v.len(),
            forall|j: int| 0 <= j < i ==> w@.contains(v@[j]),
        decreases v.len() - i,
    {
        if !vec_contains(w, v[i]) {
            assert(v@.contains(v@[i as int]));
            return false;
        }
        i = i + 1;
    }
    assert forall|x: usize| v@.contains(x) implies w@.contains(x) by {
        let j = choose|j: int| 0 <= j < v@.len() && v@[j] == x;
    }
    true
}

/// What a dependency graph holds: its node ids and its edges `(from, to)`.
pub struct DagView {
    pub nodes: Set<usize>,
    pub edges: Set<(usize, usize)>,
}

impl DagView {
    /// `x` has at least one direct predecessor.
    pub open spec fn has_pred(self, x: usize) -> bool {
        exists|y: usize| self.edges.contains((y, x))
    }

    /// `o` lists every node once, and every edge points forward in it.
    pub open spec fn is_topological_order(self, o: Seq<usize>) -> bool {
        &&& o.no_duplicates()
        &&& forall|x: usize| o.contains(x) <==> self.nodes.contains(x)
        &&& forall|i: int, j: int|
            0 <= i < o.len() && 0 <= j < o.len() && #[trigger] self.edges.contains((o[i], o[j]))
                ==> i < j
    }

    /// The graph has no cycle: its nodes can be put in an order that every edge respects.
    pub open spec fn acyclic(self) -> bool {
        exists|o: Seq<usize>| self.is_topological_order(o)
    }

    /// What `insert_node` answers: `None` for a new node, the id itself for a known one.
    pub open spec fn insert_answer(self, nid: usize) -> Option<usize> {
        if self.nodes.contains(nid) {
            Some(nid)
        } else {
            None
        }
    }

    /// The graph after `insert_node(nid)`: one more node, the same edges.
    pub open spec fn with_node(self, nid: usize) -> DagView {
        DagView { nodes: self.nodes.insert(nid), edges: self.edges }
    }

    /// `s` is a walk along edges of the graph.
    pub open spec fn is_path(self, s: Seq<usize>) -> bool {
        &&& s.len() > 0
        &&& forall|k: usize| s.contains(k) ==> self.nodes.contains(k)
        &&& forall|i: int| 0 <= i < s.len() - 1 ==> #[trigger] self.edges.contains((s[i], s[i + 1]))
    }
}

proof fn lemma_stuck_prefix(g: DagView, done: Seq<usize>, o: Seq<usize>, k: int)
    requires
        g.is_topological_order(o),
        0 <= k <= o.len(),
        forall|y: usize, x: usize| #[trigger] g.edges.contains((y, x)) ==> g.nodes.contains(y),
        forall|x: usize|
            g.nodes.contains(x) && !done.contains(x) ==> exists|y: usize|
                #[trigger] g.edges.contains((y, x)) && !done.contains(y),
    ensures
        forall|i: int| 0 <= i < k ==> done.contains(o[i]),
    decreases k,
{
    if k > 0 {
        lemma_stuck_prefix(g, done, o, k - 1);
        let x = o[k - 1];
        assert(o.contains(x));
        if !done.contains(x) {
            let y = choose|y: usize| #[trigger] g.edges.contains((y, x)) && !done.contains(y);
            assert(o.contains(y));
            let j = choose|j: int| 0 <= j < o.len() && o[j] == y;
            assert(g.edges.contains((o[j], o[k - 1])));
        }
    }
}

/// A set of nodes, none of which has all its predecessors outside the set, rules out any
/// topological order when it is not empty.
proof fn lemma_stuck_not_acyclic(g: DagView, done: Seq<usize>, x0: usize)
    requires
        g.nodes.contains(x0),
        !done.contains(x0),
        forall|y: usize, x: usize| #[trigger] g.edges.contains((y, x)) ==> g.nodes.contains(y),
        forall|x: usize|
            g.nodes.contains(x) && !done.contains(x) ==> exists|y: usize|
                #[trigger] g.edges.contains((y, x)) && !done.contains(y),
    ensures
        !g.acyclic(),
{
    assert forall|o: Seq<usize>| !g.is_topological_order(o) by {
        if g.is_topological_order(o) {
            lemma_stuck_prefix(g, done, o, o.len() as int);
            assert(o.contains(x0));
        }
    }
}

/// Inserting the same node twice: the first insertion reports a new node, the second reports
/// that it exists and changes nothing; the edges stay as they were throughout.
pub proof fn lemma_insert_node_twice(g: DagView, nid: usize)
    requires
        !g.nodes.contains(nid),
    ensures
        g.insert_answer(nid) == None::<usize>,
        g.with_node(nid).insert_answer(nid) == Some(nid),
        g.with_node(nid).with_node(nid) == g.with_node(nid),
        g.with_node(nid).edges == g.edges,
{
    assert(g.with_node(nid).nodes.insert(nid) =~= g.with_node(nid).nodes);
}

/// A directed graph of "must happen before" constraints, kept as a table of nodes keyed by id.
pub struct Dag {
    nodes: Vec<Node>,
    edges: Ghost<Set<(usize, usize)>>,
}

impl View for Dag {
    type V = DagView;

    closed spec fn view(&self) -> DagView {
        DagView { nodes: self.ids().to_set(), edges: self.edges@ }
    }
}

impl Dag {
    closed spec fn ids(&self) -> Seq<usize> {
        self.nodes@.map_values(|n: Node| n.id)
    }

    /// The table is consistent: ids are unique, and both adjacency lists of each node agree
    /// with the edge set.
    pub closed spec fn wf(&self) -> bool {
        &&& self.ids().no_duplicates()
        &&& forall|i: int| 0 <= i < self.nodes.len() ==> (#[trigger] self.nodes@[i]).wf()
        &&& forall|i: int, b: usize|
            0 <= i < self.nodes.len() ==> (#[trigger] self.nodes@[i].next@.contains(b)
                <==> self.edges@.contains((self.nodes@[i].id, b)))
        &&& forall|i: int, a: usize|
            0 <= i < self.nodes.len() ==> (#[trigger] self.nodes@[i].prev@.contains(a)
                <==> self.edges@.contains((a, self.nodes@[i].id)))
        &&& forall|a: usize, b: usize|
            #[trigger] self.edges@.contains((a, b)) ==> self.ids().contains(a) && self.ids().contains(
                b,
            )
    }

    /// Both ends of an edge are nodes.
    pub proof fn edges_in_nodes(&self, a: usize, b: usize)
        requires
            self.wf(),
            self@.edges.contains((a, b)),
        ensures
            self@.nodes.contains(a),
            self@.nodes.contains(b),
    {
    }

    fn find(&self, x: usize) -> (r: Option<usize>)
        requires
            self.wf(),
        ensures
            r.is_none() <==> !self@.nodes.contains(x),
            r.is_some() ==> r.unwrap() < self.nodes.len() && self.nodes@[r.unwrap() as int].id == x,
    {
        let mut i: usize = 0;
        while i < self.nodes.len()
            invariant
                0 <= i <= self.nodes.len(),
                forall|j: int| 0 <= j < i ==> self.nodes@[j].id != x,
            decreases self.nodes.len() - i,
        {
            if self.nodes[i].id == x {
                assert(self.ids()[i as int] == x);
                return Some(i);
            }
            i = i + 1;
        }
        assert(!self.ids().contains(x));
        None
    }

    /// An empty graph.
    pub fn new() -> (r: Dag)
        ensures
            r.wf(),
            r@.nodes == Set::<usize>::empty(),
            r@.edges == Set::<(usize, usize)>::empty(),
    {
        let r = Dag { nodes: Vec::new(), edges: Ghost(Set::empty()) };
        assert(r.ids() =~= Seq::<usize>::empty());
        assert(r@.nodes =~= Set::<usize>::empty());
        r
    }

    /// Adds a node without edges. Returns `None` when the node is new, and `Some(nid)`, with the
    /// graph unchanged, when it was already there.
    pub fn insert_node(&mut self, nid: usize) -> (r: Option<usize>)
        requires
            old(self).wf(),
        ensures
            final(self).wf(),
            r == old(self)@.insert_answer(nid),
            final(self)@ == old(self)@.with_node(nid),
    {
        match self.find(nid) {
            Some(_) => {
                assert(self@.nodes.insert(nid) =~= self@.nodes);
                Some(nid)
            },
            None => {
                let ghost old_ids = self.ids();
                self.nodes.push(Node::new(nid));
                assert(self.ids() =~= old_ids.push(nid));
                assert(self@.nodes =~= old(self)@.nodes.insert(nid)) by {
                    assert forall|x: usize| self.ids().contains(x) <==> old_ids.contains(x) || x == nid by {
                        if x == nid {
                            assert(self.ids()[old_ids.len() as int] == nid);
                        }
                        if old_ids.contains(x) {
                            let k = choose|k: int| 0 <= k < old_ids.len() && old_ids[k] == x;
                            assert(self.ids()[k] == x);
                        }
                    }
                }
                assert forall|i: int, b: usize| 0 <= i < self.nodes.len() implies (#[trigger] self.nodes@[i].next@.contains(b)
                    <==> self.edges@.contains((self.nodes@[i].id, b))) by {
                    if i == old_ids.len() {
                        if self.edges@.contains((nid, b)) {
                            assert(old_ids.contains(nid));
                        }
                    } else {
                        assert(self.nodes@[i] == old(self).nodes@[i]);
                    }
                }
                assert forall|i: int, a: usize| 0 <= i < self.nodes.len() implies (#[trigger] self.nodes@[i].prev@.contains(a)
                    <==> self.edges@.contains((a, self.nodes@[i].id))) by {
                    if i == old_ids.len() {
                        assert(self.nodes@[i].id == nid);
                        assert(self.nodes@[i].prev@ == Seq::<usize>::empty());
                        if self.edges@.contains((a, nid)) {
                            assert(old_ids.contains(nid));
                        }
                    } else {
                        assert(self.nodes@[i] == old(self).nodes@[i]);
                        assert(old(self).nodes@[i].prev@.contains(a) <==> old(self).edges@.contains((a, old(self).nodes@[i].id)));
                    }
                }
                assert forall|i: int| 0 <= i < self.nodes.len() implies (#[trigger] self.nodes@[i]).wf() by {
                    if i < old_ids.len() {
                        assert(self.nodes@[i] == old(self).nodes@[i]);
                    }
                }
                assert forall|a: usize, b: usize| #[trigger] self.edges@.contains((a, b)) implies self.ids().contains(a) && self.ids().contains(b) by {
                    let ka = choose|k: int| 0 <= k < old_ids.len() && old_ids[k] == a;
                    let kb = choose|k: int| 0 <= k < old_ids.len() && old_ids[k] == b;
                    assert(self.ids()[ka] == a);
                    assert(self.ids()[kb] == b);
                }
                None
            },
        }
    }

    /// Adds the edge `from -> to`; adding an existing edge changes nothing. Fails with
    /// `NodeDoesNotExist` naming `from` when it is missing, else naming `to` when that is missing.
    pub fn add_dependency(&mut self, from: usize, to: usize) -> (r: Result<(), DagError>)
        requires
            old(self).wf(),
        ensures
            final(self).wf(),
            final(self)@.nodes == old(self)@.nodes,
            !old(self)@.nodes.contains(from) ==> r == Err::<(), DagError>(DagError::NodeDoesNotExist(from))
                && final(self)@.edges == old(self)@.edges,
            old(self)@.nodes.contains(from) && !old(self)@.nodes.contains(to) ==> r == Err::<(), DagError>(
                DagError::NodeDoesNotExist(to),
            ) && final(self)@.edges == old(self)@.edges,
            old(self)@.nodes.contains(from) && old(self)@.nodes.contains(to) ==> r == Ok::<(), DagError>(())
                && final(self)@.edges == old(self)@.edges.insert((from, to)),
    {
        let i = match self.find(from) {
            Some(i) => i,
            None => return Err(DagError::NodeDoesNotExist(from)),
        };
        let j = match self.find(to) {
            Some(j) => j,
            None => return Err(DagError::NodeDoesNotExist(to)),
        };
        let ghost old_nodes = self.nodes@;
        let ghost old_ids = self.ids();
        self.nodes[i].add_next(to);
        let ghost mid_nodes = self.nodes@;
        self.nodes[j].add_prev(from);
        self.edges = Ghost(self.edges@.insert((from, to)));
        proof {
            assert(self.ids() =~= old_ids) by {
                assert forall|k: int| 0 <= k < old_ids.len() implies self.ids()[k] == old_ids[k] by {
                    assert(self.nodes@[k].id == old_nodes[k].id);
                }
            }
            assert forall|k: int| 0 <= k < self.nodes.len() implies (#[trigger] self.nodes@[k]).wf() by {
                assert(old_nodes[k].wf());
            }
            assert forall|k: int, b: usize| 0 <= k < self.nodes.len() implies (#[trigger] self.nodes@[k].next@.contains(b)
                <==> self.edges@.contains((self.nodes@[k].id, b))) by {
                assert(self.nodes@[k].next@ == mid_nodes[k].next@);
                if k != i {
                    assert(mid_nodes[k] == old_nodes[k]);
                    assert(old_ids[k] != old_ids[i as int]);
                } else {
                    if !old_nodes[k].next@.contains(to) {
                        assert(mid_nodes[k].next@ == old_nodes[k].next@.push(to));
                        if b != to {
                            assert(mid_nodes[k].next@.contains(b) ==> old_nodes[k].next@.contains(b)) by {
                                if mid_nodes[k].next@.contains(b) {
                                    let q = choose|q: int| 0 <= q < mid_nodes[k].next@.len() && mid_nodes[k].next@[q] == b;
                                    assert(old_nodes[k].next@[q] == b);
                                }
                            }
                            assert(old_nodes[k].next@.contains(b) ==> mid_nodes[k].next@.contains(b)) by {
                                if old_nodes[k].next@.contains(b) {
                                    let q = choose|q: int| 0 <= q < old_nodes[k].next@.len() && old_nodes[k].next@[q] == b;
                                    assert(mid_nodes[k].next@[q] == b);
                                }
                            }
                        } else {
                            assert(mid_nodes[k].next@[old_nodes[k].next@.len() as int] == to);
                        }
                    }
                }
                assert(old_ids[k] == old_nodes[k].id);
                assert(old_ids[i as int] == from);
                if k != i {
                    assert(self.nodes@[k].next@ == old_nodes[k].next@);
                }
                assert(old_nodes[k].next@.contains(b) <==> old(self).edges@.contains((old_nodes[k].id, b)));
            }
            assert forall|k: int, a: usize| 0 <= k < self.nodes.len() implies (#[trigger] self.nodes@[k].prev@.contains(a)
                <==> self.edges@.contains((a, self.nodes@[k].id))) by {
                assert(mid_nodes[k].prev@ == old_nodes[k].prev@);
                if k != j {
                    assert(self.nodes@[k] == mid_nodes[k]);
                    assert(old_ids[k] != old_ids[j as int]);
                } else {
                    let sp = self.nodes@[k].prev@;
                    let op = old_nodes[k].prev@;
                    if !op.contains(from) {
                        assert(sp == op.push(from));
                        if a != from {
                            assert(sp.contains(a) ==> op.contains(a)) by {
                                if sp.contains(a) {
                                    let q = choose|q: int| 0 <= q < sp.len() && sp[q] == a;
                                    assert(op[q] == a);
                                }
                            }
                            assert(op.contains(a) ==> sp.contains(a)) by {
                                if op.contains(a) {
                                    let q = choose|q: int| 0 <= q < op.len() && op[q] == a;
                                    assert(sp[q] == a);
                                }
                            }
                        } else {
                            assert(sp[op.len() as int] == from);
                        }
                    }
                }
                assert(old_ids[k] == old_nodes[k].id);
                assert(old_ids[j as int] == to);
                if k != j {
                    assert(self.nodes@[k].prev@ == old_nodes[k].prev@);
                }
                assert(old_nodes[k].prev@.contains(a) <==> old(self).edges@.contains((a, old_nodes[k].id)));
            }
            assert forall|a: usize, b: usize| #[trigger] self.edges@.contains((a, b)) implies self.ids().contains(a) && self.ids().contains(b) by {
                if (a, b) == (from, to) {
                    assert(old_ids[i as int] == from);
                    assert(old_ids[j as int] == to);
                }
            }
        }
        Ok(())
    }

    /// The successors of `node`, or `NodeDoesNotExist` when it is not in the graph.
    pub fn get_next_of_node(&self, node: usize) -> (r: Result<Vec<usize>, DagError>)
        requires
            self.wf(),
        ensures
            !self@.nodes.contains(node) ==> r == Err::<Vec<usize>, DagError>(DagError::NodeDoesNotExist(node)),
            self@.nodes.contains(node) ==> r.is_ok() && r.unwrap()@.no_duplicates()
                && forall|y: usize| #[trigger] r.unwrap()@.contains(y) <==> self@.edges.contains((node, y)),
    {
        match self.find(node) {
            Some(i) => Ok(self.nodes[i].get_next()),
            None => Err(DagError::NodeDoesNotExist(node)),
        }
    }

    /// The nodes without predecessor, in insertion order; `None` when there is none, which an
    /// empty or a cyclic graph gives.
    pub fn get_starter_nodes(&self) -> (r: Option<Vec<usize>>)
        requires
            self.wf(),
        ensures
            r.is_none() ==> forall|x: usize| #[trigger] self@.nodes.contains(x) ==> self@.has_pred(x),
            r.is_some() ==> r.unwrap()@.len() > 0 && r.unwrap()@.no_duplicates() && forall|x: usize|
                #[trigger] r.unwrap()@.contains(x) <==> (self@.nodes.contains(x) && !self@.has_pred(x)),
    {
        let mut ready: Vec<usize> = Vec::new();
        let ghost mut at: Seq<int> = Seq::empty();
        let mut i: usize = 0;
        while i < self.nodes.len()
            invariant
                self.wf(),
                0 <= i <= self.nodes.len(),
                ready@.no_duplicates(),
                at.len() == ready@.len(),
                forall|q: int| 0 <= q < at.len() ==> 0 <= #[trigger] at[q] < i
                    && self.nodes@[at[q]].id == ready@[q] && self.nodes@[at[q]].prev@.len() == 0,
                forall|k: int| 0 <= k < i && (#[trigger] self.nodes@[k]).prev@.len() == 0
                    ==> ready@.contains(self.nodes@[k].id),
            decreases self.nodes.len() - i,
        {
            if self.nodes[i].prev.len() == 0 {
                let x = self.nodes[i].id;
                proof {
                    if ready@.contains(x) {
                        let q = choose|q: int| 0 <= q < ready@.len() && ready@[q] == x;
                        assert(self.ids()[at[q]] == self.ids()[i as int]);
                    }
                }
                let ghost before = ready@;
                ready.push(x);
                proof {
                    at = at.push(i as int);
                    assert forall|k: int| 0 <= k < i + 1 && (#[trigger] self.nodes@[k]).prev@.len() == 0
                        implies ready@.contains(self.nodes@[k].id) by {
                        if k < i {
                            let q = choose|q: int| 0 <= q < before.len() && before[q] == self.nodes@[k].id;
                            assert(ready@[q] == self.nodes@[k].id);
                        } else {
                            assert(ready@[before.len() as int] == x);
                        }
                    }
                }
            }
            i = i + 1;
        }
        proof {
            assert forall|x: usize| self@.nodes.contains(x) implies (ready@.contains(x) <==> !self@.has_pred(x)) by {
                assert(self.ids().contains(x));
                let k = choose|k: int| 0 <= k < self.ids().len() && self.ids()[k] == x;
                assert(self.nodes@[k].id == x);
                if self.nodes@[k].prev@.len() == 0 {
                    assert forall|y: usize| !self@.edges.contains((y, x)) by {
                        assert(!self.nodes@[k].prev@.contains(y));
                    }
                } else {
                    assert(self.nodes@[k].prev@.contains(self.nodes@[k].prev@[0]));
                    assert(self@.edges.contains((self.nodes@[k].prev@[0], x)));
                    if ready@.contains(x) {
                        let q = choose|q: int| 0 <= q < ready@.len() && ready@[q] == x;
                        assert(self.ids()[at[q]] == self.ids()[k]);
                    }
                }
            }
            assert forall|x: usize| ready@.contains(x) implies self@.nodes.contains(x) by {
                let q = choose|q: int| 0 <= q < ready@.len() && ready@[q] == x;
                assert(self.ids()[at[q]] == x);
            }
        }
        if ready.len() == 0 {
            proof {
                assert forall|x: usize| #[trigger] self@.nodes.contains(x) implies self@.has_pred(x) by {
                    if !self@.has_pred(x) {
                        assert(ready@.contains(x));
                    }
                }
            }
            return None;
        }
        Some(ready)
    }

    /// The nodes in an order that every edge respects (Kahn's method, in rounds over the node
    /// table), or `None` when no such order exists.
    pub fn topological_order(&self) -> (r: Option<Vec<usize>>)
        requires
            self.wf(),
        ensures
            r.is_some() ==> self@.is_topological_order(r.unwrap()@),
            r.is_none() ==> !self@.acyclic(),
    {
        let n = self.nodes.len();
        let mut order: Vec<usize> = Vec::new();
        loop
            invariant
                self.wf(),
                n == self.nodes.len(),
                order@.no_duplicates(),
                forall|x: usize| #[trigger] order@.contains(x) ==> self.ids().contains(x),
                forall|y: usize, x: usize|
                    order@.contains(x) && #[trigger] self@.edges.contains((y, x)) ==> order@.contains(y),
                forall|i: int, j: int|
                    0 <= i < order@.len() && 0 <= j < order@.len() && #[trigger] self@.edges.contains(
                        (order@[i], order@[j]),
                    ) ==> i < j,
            ensures
                order@.no_duplicates(),
                forall|x: usize| #[trigger] order@.contains(x) ==> self.ids().contains(x),
                forall|i: int, j: int|
                    0 <= i < order@.len() && 0 <= j < order@.len() && #[trigger] self@.edges.contains(
                        (order@[i], order@[j]),
                    ) ==> i < j,
                forall|k: int|
                    0 <= k < n && !order@.contains(#[trigger] self.ids()[k]) ==> exists|y: usize|
                        #[trigger] self@.edges.contains((y, self.ids()[k])) && !order@.contains(y),
            decreases n - order@.len(),
        {
            proof {
                lemma_unique_subseq_len(order@, self.ids());
            }
            let ghost start = order@;
            let mut progress = false;
            let mut k: usize = 0;
            while k < n
                invariant
                    self.wf(),
                    n == self.nodes.len(),
                    0 <= k <= n,
                    order@.no_duplicates(),
                    forall|x: usize| #[trigger] order@.contains(x) ==> self.ids().contains(x),
                    forall|y: usize, x: usize|
                        order@.contains(x) && #[trigger] self@.edges.contains((y, x)) ==> order@.contains(y),
                    forall|i: int, j: int|
                        0 <= i < order@.len() && 0 <= j < order@.len() && #[trigger] self@.edges.contains(
                            (order@[i], order@[j]),
                        ) ==> i < j,
                    !progress ==> order@ == start,
                    progress ==> order@.len() > start.len(),
                    !progress ==> forall|k2: int|
                        0 <= k2 < k && !order@.contains(#[trigger] self.ids()[k2]) ==> exists|y: usize|
                            #[trigger] self@.edges.contains((y, self.ids()[k2])) && !order@.contains(y),
                decreases n - k,
            {
                let x = self.nodes[k].id;
                assert(self.ids()[k as int] == x);
                if !vec_contains(&order, x) {
                    if all_in(&self.nodes[k].prev, &order) {
                        let ghost before = order@;
                        proof {
                            assert forall|y: usize| #[trigger] self@.edges.contains((y, x)) implies before.contains(y) by {
                                assert(self.nodes@[k as int].prev@.contains(y));
                            }
                        }
                        order.push(x);
                        progress = true;
                        proof {
                            assert forall|z: usize| #[trigger] order@.contains(z) implies before.contains(z) || z == x by {
                                let q = choose|q: int| 0 <= q < order@.len() && order@[q] == z;
                                if q < before.len() {
                                    assert(before[q] == z);
                                }
                            }
                            assert forall|z: usize| before.contains(z) implies #[trigger] order@.contains(z) by {
                                let q = choose|q: int| 0 <= q < before.len() && before[q] == z;
                                assert(order@[q] == z);
                            }
                            assert(order@[before.len() as int] == x);
                            assert forall|i: int, j: int|
                                0 <= i < order@.len() && 0 <= j < order@.len() && #[trigger] self@.edges.contains(
                                    (order@[i], order@[j]),
                                ) implies i < j by {
                                if j == before.len() && i == before.len() {
                                    assert(before.contains(x));
                                } else if i == before.len() {
                                    assert(before.contains(order@[j]));
                                    assert(before.contains(x));
                                } else if j < before.len() {
                                    assert(before[i] == order@[i] && before[j] == order@[j]);
                                }
                            }
                        }
                    } else {
                        proof {
                            let p = choose|p: usize| self.nodes@[k as int].prev@.contains(p) && !order@.contains(p);
                            assert(self@.edges.contains((p, x)));
                        }
                    }
                }
                k = k + 1;
            }
            proof {
                lemma_unique_subseq_len(order@, self.ids());
            }
            if !progress {
                break;
            }
        }
        proof {
            lemma_unique_subseq_len(order@, self.ids());
        }
        if order.len() == n {
            proof {
                assert forall|x: usize| order@.contains(x) <==> self@.nodes.contains(x) by {
                    if self.ids().contains(x) {
                        assert(order@.contains(x));
                    }
                }
            }
            Some(order)
        } else {
            proof {
                if forall|x: usize| self.ids().contains(x) ==> order@.contains(x) {
                    lemma_unique_subseq_len(self.ids(), order@);
                }
                let x0 = choose|x: usize| self.ids().contains(x) && !order@.contains(x);
                assert forall|x: usize| self@.nodes.contains(x) && !order@.contains(x) implies exists|y: usize|
                    #[trigger] self@.edges.contains((y, x)) && !order@.contains(y) by {
                    let k = choose|k: int| 0 <= k < self.ids().len() && self.ids()[k] == x;
                }
                lemma_stuck_not_acyclic(self@, order@, x0);
            }
            None
        }
    }

    /// `Ok` exactly when the graph has no cycle.
    pub fn check_cycle(&self) -> (r: Result<(), DagError>)
        requires
            self.wf(),
        ensures
            r.is_ok() <==> self@.acyclic(),
            r.is_err() ==> r == Err::<(), DagError>(DagError::DagHasCycle),
    {
        match self.topological_order() {
            Some(_) => Ok(()),
            None => Err(DagError::DagHasCycle),
        }
    }

    /// The node ids, in insertion order.
    pub fn get_nodes(&self) -> (r: Vec<usize>)
        requires
            self.wf(),
        ensures
            r@.no_duplicates(),
            forall|x: usize| #[trigger] r@.contains(x) <==> self@.nodes.contains(x),
    {
        let mut r: Vec<usize> = Vec::new();
        let mut i: usize = 0;
        while i < self.nodes.len()
            invariant
                self.wf(),
                0 <= i <= self.nodes.len(),
                r@ == self.ids().take(i as int),
            decreases self.nodes.len() - i,
        {
            r.push(self.nodes[i].id);
            proof {
                assert(r@ =~= self.ids().take(i + 1));
            }
            i = i + 1;
        }
        proof {
            assert(self.ids().take(self.nodes.len() as int) =~= self.ids());
        }
        r
    }

    /// A copy of the graph.
    pub fn duplicate(&self) -> (r: Dag)
        requires
            self.wf(),
        ensures
            r.wf(),
            r@ == self@,
    {
        let mut nodes: Vec<Node> = Vec::new();
        let mut i: usize = 0;
        while i < self.nodes.len()
            invariant
                0 <= i <= self.nodes.len(),
                nodes@.len() == i,
                forall|k: int| 0 <= k < i ==> (#[trigger] nodes@[k]).id == self.nodes@[k].id && nodes@[k].prev@
                    == self.nodes@[k].prev@ && nodes@[k].next@ == self.nodes@[k].next@,
            decreases self.nodes.len() - i,
        {
            let n = &self.nodes[i];
            nodes.push(Node { id: n.id, prev_count: n.prev_count, prev: copy_ids(&n.prev), next: copy_ids(&n.next) });
            i = i + 1;
        }
        let r = Dag { nodes, edges: Ghost(self.edges@) };
        proof {
            assert(r.ids() =~= self.ids());
            assert forall|k: int| 0 <= k < r.nodes.len() implies (#[trigger] r.nodes@[k]).wf() by {
                assert(self.nodes@[k].wf());
            }
        }
        r
    }

    /// Whether `node` is in the graph.
    pub fn has_node(&self, node: usize) -> (r: bool)
        requires
            self.wf(),
        ensures
            r == self@.nodes.contains(node),
    {
        self.find(node).is_some()
    }
}

} // verus!
