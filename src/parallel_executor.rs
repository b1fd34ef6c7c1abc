use vstd::prelude::*;
use crate::dag::{Dag, DagView};
use crate::executor::{Executor, MaxDepthExec, is_critical_path_length};

verus! {

/// A task of the parallel executor: a node of its dependency graph.
pub type ParallelNode = crate::dag::Node;

/// Errors of the parallel executor.
#[derive(Debug, Clone, Copy, PartialEq, Eq, Structural)]
pub enum ParallelError {
    /// A node named in a dependency is not in the graph.
    NodeDoesNotExist,
    /// The graph has a cycle.
    DagHasCycle,
    /// The graph is empty or cyclic, so it cannot run.
    ExecutionFailed,
}

/// A dependency graph of tasks together with the set of tasks that are ready to run.
pub struct ParallelExecutor {
    dag: Dag,
    ready: Vec<usize>,
}

impl ParallelExecutor {
    pub closed spec fn graph(&self) -> DagView {
        self.dag@
    }

    pub closed spec fn ready_tasks(&self) -> Seq<usize> {
        self.ready@
    }

    pub closed spec fn wf(&self) -> bool {
        self.dag.wf()
    }

    pub fn new() -> (r: ParallelExecutor)
        ensures
            r.wf(),
            r.graph().nodes == Set::<usize>::empty(),
            r.graph().edges == Set::<(usize, usize)>::empty(),
            r.ready_tasks() == Seq::<usize>::empty(),
    {
        ParallelExecutor { dag: Dag::new(), ready: Vec::new() }
    }

    /// Adds a task; `None` when it is new, `Some(nid)` when it was already there.
    pub fn insert_node(&mut self, nid: usize) -> (r: Option<usize>)
        requires
            old(self).wf(),
        ensures
            final(self).wf(),
            r == old(self).graph().insert_answer(nid),
            final(self).graph() == old(self).graph().with_node(nid),
            final(self).ready_tasks() == old(self).ready_tasks(),
    {
        self.dag.insert_node(nid)
    }

    /// Makes `to` wait for `from`; `NodeDoesNotExist` when either is missing.
    pub fn add_dependency(&mut self, from: usize, to: usize) -> (r: Result<(), ParallelError>)
        requires
            old(self).wf(),
        ensures
            final(self).wf(),
            final(self).graph().nodes == old(self).graph().nodes,
            final(self).ready_tasks() == old(self).ready_tasks(),
            old(self).graph().nodes.contains(from) && old(self).graph().nodes.contains(to) ==> r == Ok::<(), ParallelError>(())
                && final(self).graph().edges == old(self).graph().edges.insert((from, to)),
            !(old(self).graph().nodes.contains(from) && old(self).graph().nodes.contains(to)) ==> r
                == Err::<(), ParallelError>(ParallelError::NodeDoesNotExist) && final(self).graph().edges == old(self).graph().edges,
    {
        match self.dag.add_dependency(from, to) {
            Ok(()) => Ok(()),
            Err(_) => Err(ParallelError::NodeDoesNotExist),
        }
    }

    /// `Ok` exactly when the graph has no cycle.
    pub fn check_cycle(&self) -> (r: Result<(), ParallelError>)
        requires
            self.wf(),
        ensures
            r.is_ok() <==> self.graph().acyclic(),
            r.is_err() ==> r == Err::<(), ParallelError>(ParallelError::DagHasCycle),
    {
        match self.dag.check_cycle() {
            Ok(()) => Ok(()),
            Err(_) => Err(ParallelError::DagHasCycle),
        }
    }

    /// The tasks without predecessor; `None` when there is none.
    pub fn get_initial_tasks(&self) -> (r: Option<Vec<usize>>)
        requires
            self.wf(),
        ensures
            r.is_none() ==> forall|x: usize| #[trigger] self.graph().nodes.contains(x) ==> self.graph().has_pred(x),
            r.is_some() ==> r.unwrap()@.len() > 0 && r.unwrap()@.no_duplicates() && forall|x: usize|
                #[trigger] r.unwrap()@.contains(x) <==> (self.graph().nodes.contains(x) && !self.graph().has_pred(x)),
    {
        self.dag.get_starter_nodes()
    }

    /// The order in which a deployment applies the tasks one at a time: each task after all of
    /// its predecessors. `DagHasCycle` when there is no such order.
    pub fn execute_single_threaded(&self) -> (r: Result<Vec<usize>, ParallelError>)
        requires
            self.wf(),
        ensures
            r.is_ok() <==> self.graph().acyclic(),
            r.is_ok() ==> self.graph().is_topological_order(r.unwrap()@),
            r.is_err() ==> r == Err::<Vec<usize>, ParallelError>(ParallelError::DagHasCycle),
    {
        match self.dag.topological_order() {
            Some(o) => Ok(o),
            None => Err(ParallelError::DagHasCycle),
        }
    }

    /// Checks that the graph is not empty and has no cycle, marks the initial tasks ready, and
    /// returns the critical-path length for the given cost of each task.
    pub fn execute_maximum_depth(&mut self, costs: &Vec<u64>) -> (r: Result<u64, ParallelError>)
        requires
            old(self).wf(),
            forall|x: usize| #[trigger] old(self).graph().nodes.contains(x) ==> x < costs@.len(),
        ensures
            final(self).wf(),
            final(self).graph() == old(self).graph(),
            (old(self).graph().nodes.is_empty() || !old(self).graph().acyclic()) ==> r == Err::<u64, ParallelError>(
                ParallelError::ExecutionFailed,
            ),
            !old(self).graph().nodes.is_empty() && old(self).graph().acyclic() ==> r.is_ok()
                && is_critical_path_length(old(self).graph(), costs@, r.unwrap() as int) && forall|x: usize|
                #[trigger] final(self).ready_tasks().contains(x) <==> (old(self).graph().nodes.contains(x)
                    && !old(self).graph().has_pred(x)),
    {
        if self.check_cycle().is_err() {
            return Err(ParallelError::ExecutionFailed);
        }
        match self.get_initial_tasks() {
            Some(tasks) => {
                self.ready = tasks;
            },
            None => {
                proof {
                    let o = choose|o: Seq<usize>| self.graph().is_topological_order(o);
                    if !self.graph().nodes.is_empty() {
                        let x = self.graph().nodes.choose();
                        assert(self.graph().nodes.contains(x));
                        assert(o.contains(x));
                        assert(o.contains(o[0]));
                        assert(self.graph().has_pred(o[0]));
                        let y = choose|y: usize| self.graph().edges.contains((y, o[0]));
                        self.dag.edges_in_nodes(y, o[0]);
                        assert(o.contains(y));
                        let k = choose|k: int| 0 <= k < o.len() && o[k] == y;
                        assert(self.graph().edges.contains((o[k], o[0])));
                    }
                }
                return Err(ParallelError::ExecutionFailed);
            },
        }
        match MaxDepthExec::execute(&self.dag, costs) {
            Ok(t) => Ok(t),
            Err(_) => Err(ParallelError::ExecutionFailed),
        }
    }
}

} // verus!
