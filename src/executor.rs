use vstd::prelude::*;
use crate::dag::{Dag, DagView};
use crate::types::{DagError, ExecutorError};

verus! {

/// The summed cost of the nodes on `s`.
pub open spec fn path_cost(s: Seq<usize>, costs: Seq<u64>) -> int
    decreases s.len(),
{
    if s.len() == 0 {
        0
    } else {
        costs[s[0] as int] + path_cost(s.skip(1), costs)
    }
}

/// A cost capped at the largest `u64`.
pub open spec fn capped(x: int) -> int {
    if x < u64::MAX {
        x
    } else {
        u64::MAX as int
    }
}

/// `t` is the critical-path length of `g`: the largest summed cost of a path, capped at the
/// largest `u64`.
pub open spec fn is_critical_path_length(g: DagView, costs: Seq<u64>, t: int) -> bool {
    &&& exists|s: Seq<usize>| g.is_path(s) && capped(path_cost(s, costs)) == t
    &&& forall|s: Seq<usize>| g.is_path(s) ==> capped(path_cost(s, costs)) <= t
}

/// Runs a dependency graph of configuration changes, given what each change costs.
pub trait Executor {
    /// Checks the graph for a cycle, then reports how long the changes take when each runs as
    /// soon as its predecessors are done.
    fn execute(dag: &Dag, costs: &Vec<u64>) -> (r: Result<u64, ExecutorError>)
        requires
            dag.wf(),
            forall|x: usize| #[trigger] dag@.nodes.contains(x) ==> x < costs@.len(),
        ensures
            !dag@.acyclic() ==> r == Err::<u64, ExecutorError>(ExecutorError::DagError(DagError::DagHasCycle)),
            dag@.acyclic() && dag@.nodes.is_empty() ==> r == Err::<u64, ExecutorError>(ExecutorError::ExecutionFailed),
            dag@.acyclic() && !dag@.nodes.is_empty() ==> r.is_ok() && is_critical_path_length(dag@, costs@, r.unwrap() as int),
    ;
}

/// Measures a graph by its critical path: the largest summed cost along any chain of
/// dependencies.
pub struct MaxDepthExec {}

proof fn lemma_capped_add(c: int, x: int)
    requires
        0 <= c <= u64::MAX,
        0 <= x,
    ensures
        capped(c + x) == capped(c + capped(x)),
{
}

proof fn lemma_cost_nonneg(s: Seq<usize>, costs: Seq<u64>)
    ensures
        path_cost(s, costs) >= 0,
    decreases s.len(),
{
    if s.len() > 0 {
        lemma_cost_nonneg(s.skip(1), costs);
    }
}

fn position(o: &Vec<usize>, x: usize) -> (r: usize)
    requires
        o@.contains(x),
    ensures
        r < o.len(),
        o@[r as int] == x,
{
    let mut i: usize = 0;
    while i < o.len()
        invariant
            0 <= i <= o.len(),
            o@.contains(x),
            forall|j: int| 0 <= j < i ==> o@[j] != x,
        decreases o.len() - i,
    {
        if o[i] == x {
            return i;
        }
        i = i + 1;
    }
    proof {
        let j = choose|j: int| 0 <= j < o@.len() && o@[j] == x;
    }
    0
}

/// The critical-path length of an acyclic graph, from the last node of `order` back to the
/// first.
fn critical_path(dag: &Dag, costs: &Vec<u64>, order: &Vec<usize>) -> (t: u64)
    requires
        dag.wf(),
        dag@.is_topological_order(order@),
        order@.len() > 0,
        forall|x: usize| #[trigger] dag@.nodes.contains(x) ==> x < costs@.len(),
    ensures
        is_critical_path_length(dag@, costs@, t as int),
{
    let g = Ghost(dag@);
    let n = order.len();
    let mut dist: Vec<u64> = Vec::new();
    let mut k: usize = 0;
    while k < n
        invariant
            0 <= k <= n,
            dist@.len() == k,
        decreases n - k,
    {
        dist.push(0);
        k = k + 1;
    }
    let ghost mut wit: Seq<Seq<usize>> = Seq::new(n as nat, |i: int| Seq::<usize>::empty());
    let mut i: usize = n;
    while i > 0
        invariant
            dag.wf(),
            g@ == dag@,
            n == order@.len(),
            g@.is_topological_order(order@),
            forall|x: usize| #[trigger] g@.nodes.contains(x) ==> x < costs@.len(),
            0 <= i <= n,
            dist@.len() == n,
            wit.len() == n,
            forall|j: int| i <= j < n ==> #[trigger] wit[j].len() > 0 && wit[j][0] == order@[j] && g@.is_path(wit[j])
                && capped(path_cost(wit[j], costs@)) == dist@[j],
            forall|j: int, s: Seq<usize>|
                #![trigger g@.is_path(s), dist@[j]]
                i <= j < n && g@.is_path(s) && s[0] == order@[j] ==> capped(path_cost(s, costs@)) <= dist@[j],
        decreases i,
    {
        i = i - 1;
        let v = order[i];
        assert(order@.contains(v));
        let nexts = match dag.get_next_of_node(v) {
            Ok(x) => x,
            Err(_) => Vec::new(),
        };
        let mut mx: u64 = 0;
        let ghost mut best: Seq<usize> = Seq::empty();
        let mut q: usize = 0;
        while q < nexts.len()
            invariant
                dag.wf(),
                g@ == dag@,
                n == order@.len(),
                g@.is_topological_order(order@),
                0 <= i < n,
                v == order@[i as int],
                dist@.len() == n,
                wit.len() == n,
                forall|y: usize| #[trigger] nexts@.contains(y) <==> g@.edges.contains((v, y)),
                0 <= q <= nexts.len(),
                forall|j: int| i < j < n ==> #[trigger] wit[j].len() > 0 && wit[j][0] == order@[j] && g@.is_path(wit[j])
                    && capped(path_cost(wit[j], costs@)) == dist@[j],
                forall|j: int, s: Seq<usize>|
                    #![trigger g@.is_path(s), dist@[j]]
                    i < j < n && g@.is_path(s) && s[0] == order@[j] ==> capped(path_cost(s, costs@)) <= dist@[j],
                forall|y: int|
                    #![trigger nexts@[y]]
                    0 <= y < q ==> exists|j: int| i < j < n && order@[j] == nexts@[y] && #[trigger] dist@[j] <= mx,
                mx == 0 ==> best.len() == 0,
                best.len() == 0 ==> mx == 0,
                best.len() == 0 || (best.len() > 0 && best[0] != v && g@.edges.contains((v, best[0])) && g@.is_path(best)
                    && capped(path_cost(best, costs@)) == mx),
            decreases nexts.len() - q,
        {
            let w = nexts[q];
            assert(nexts@.contains(w));
            proof {
                dag.edges_in_nodes(v, w);
            }
            let pw = position(order, w);
            proof {
                assert(g@.edges.contains((order@[i as int], order@[pw as int])));
            }
            if dist[pw] > mx {
                mx = dist[pw];
                proof {
                    assert(wit[pw as int].len() > 0);
                    best = wit[pw as int];
                    assert(best[0] == w);
                    if w == v {
                        assert(g@.edges.contains((order@[i as int], order@[i as int])));
                    }
                }
            }
            q = q + 1;
        }
        proof {
            assert(g@.nodes.contains(v));
        }
        let c = costs[v];
        let d: u64 = if mx > u64::MAX - c { u64::MAX } else { c + mx };
        let ghost mine: Seq<usize> = if best.len() > 0 { seq![v] + best } else { seq![v] };
        proof {
            assert(mine[0] == v);
            assert(mine.skip(1) =~= if best.len() > 0 { best } else { Seq::<usize>::empty() });
            assert(path_cost(mine, costs@) == c + path_cost(mine.skip(1), costs@));
            if best.len() > 0 {
                lemma_cost_nonneg(best, costs@);
                lemma_capped_add(c as int, path_cost(best, costs@));
                assert forall|k2: int| 0 <= k2 < mine.len() - 1 implies #[trigger] g@.edges.contains((mine[k2], mine[k2 + 1])) by {
                    if k2 > 0 {
                        assert(mine[k2] == best[k2 - 1]);
                        assert(mine[k2 + 1] == best[k2]);
                    }
                }
                assert forall|x: usize| mine.contains(x) implies g@.nodes.contains(x) by {
                    let z = choose|z: int| 0 <= z < mine.len() && mine[z] == x;
                    if z > 0 {
                        assert(best[z - 1] == x);
                        assert(best.contains(best[z - 1]));
                    }
                }
            } else {
                assert(path_cost(Seq::<usize>::empty(), costs@) == 0);
                assert forall|x: usize| mine.contains(x) implies g@.nodes.contains(x) by {}
            }
            assert(capped(path_cost(mine, costs@)) == d);
            assert forall|s: Seq<usize>| g@.is_path(s) && s[0] == v implies capped(path_cost(s, costs@)) <= d by {
                assert(path_cost(s, costs@) == c + path_cost(s.skip(1), costs@));
                if s.len() > 1 {
                    let w = s[1];
                    assert(g@.edges.contains((s[0], s[1])));
                    assert(nexts@.contains(w));
                    let y = choose|y: int| 0 <= y < nexts@.len() && nexts@[y] == w;
                    let j = choose|j: int| i < j < n && order@[j] == nexts@[y] && #[trigger] dist@[j] <= mx;
                    let t = s.skip(1);
                    assert(g@.is_path(t)) by {
                        assert forall|k2: int| 0 <= k2 < t.len() - 1 implies #[trigger] g@.edges.contains((t[k2], t[k2 + 1])) by {
                            let i2 = k2 + 1;
                            assert(g@.edges.contains((s[i2], s[i2 + 1])));
                            assert(t[k2] == s[i2] && t[k2 + 1] == s[i2 + 1]);
                        }
                        assert forall|x: usize| t.contains(x) implies g@.nodes.contains(x) by {
                            let z = choose|z: int| 0 <= z < t.len() && t[z] == x;
                            assert(s[z + 1] == x);
                            assert(s.contains(s[z + 1]));
                        }
                    }
                    assert(t[0] == order@[j]);
                    assert(capped(path_cost(t, costs@)) <= dist@[j]);
                    lemma_cost_nonneg(t, costs@);
                    lemma_capped_add(c as int, path_cost(t, costs@));
                } else {
                    assert(s.skip(1) =~= Seq::<usize>::empty());
                }
            }
        }
        dist.set(i, d);
        proof {
            wit = wit.update(i as int, mine);
        }
    }
    let mut t: u64 = 0;
    let mut at: usize = 0;
    let mut j: usize = 0;
    while j < n
        invariant
            0 <= j <= n,
            n == order@.len(),
            dist@.len() == n,
            at < n,
            j > 0 ==> at < j && dist@[at as int] == t,
            j == 0 ==> t == 0 && at == 0,
            forall|k2: int| 0 <= k2 < j ==> #[trigger] dist@[k2] <= t,
        decreases n - j,
    {
        if j == 0 || dist[j] > t {
            t = dist[j];
            at = j;
        }
        j = j + 1;
    }
    proof {
        assert(g@.is_path(wit[at as int]));
        assert forall|s: Seq<usize>| g@.is_path(s) implies capped(path_cost(s, costs@)) <= t by {
            assert(s.contains(s[0]));
            assert(order@.contains(s[0]));
            let k2 = choose|k2: int| 0 <= k2 < n && order@[k2] == s[0];
            assert(capped(path_cost(s, costs@)) <= dist@[k2]);
        }
    }
    t
}

impl Executor for MaxDepthExec {
    fn execute(dag: &Dag, costs: &Vec<u64>) -> (r: Result<u64, ExecutorError>) {
        match dag.check_cycle() {
            Ok(()) => {},
            Err(e) => return Err(ExecutorError::DagError(e)),
        }
        match dag.get_starter_nodes() {
            Some(st) => {
                proof {
                    assert(st@.contains(st@[0]));
                }
            },
            None => {
                proof {
                    let o = choose|o: Seq<usize>| dag@.is_topological_order(o);
                    if !dag@.nodes.is_empty() {
                        let x = dag@.nodes.choose();
                        assert(dag@.nodes.contains(x));
                        assert(o.contains(x));
                        assert(o.len() > 0);
                        assert(o.contains(o[0]));
                        assert(dag@.nodes.contains(o[0]));
                        assert(dag@.has_pred(o[0]));
                        let y = choose|y: usize| dag@.edges.contains((y, o[0]));
                        dag.edges_in_nodes(y, o[0]);
                        assert(o.contains(y));
                        let k = choose|k: int| 0 <= k < o.len() && o[k] == y;
                        assert(dag@.edges.contains((o[k], o[0])));
                    }
                }
                return Err(ExecutorError::ExecutionFailed);
            },
        }
        match dag.topological_order() {
            Some(order) => {
                proof {
                    let x = dag@.nodes.choose();
                    assert(dag@.nodes.contains(x));
                    assert(order@.contains(x));
                }
                Ok(critical_path(dag, costs, &order))
            },
            None => Err(ExecutorError::DagError(DagError::DagHasCycle)),
        }
    }
}

} // verus!
