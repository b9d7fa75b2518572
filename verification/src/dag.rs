//! The project graph: activities, durations, demands and precedence edges.

use crate::graph::edge_set;
use crate::graph::graph_has_edge;
use crate::graph::node_total;
use crate::graph::PrecedenceGraph;
use crate::project::Project;
use crate::project::RESOURCES;
use vstd::prelude::*;

pub mod bounds;
pub mod construct;
pub mod evaluate;
pub mod moves;
pub mod ranks;

verus! {

/// A project whose precedence relation is known to be acyclic, with what the
/// search reads most kept ready: durations, demands and capacities by index,
/// the edges in an adjacency matrix, and the predecessors of each activity.
pub struct DAG {
    pub(crate) durations: Vec<u8>,
    pub(crate) requests: Vec<Vec<usize>>,
    pub(crate) capacities: Vec<usize>,
    pub(crate) graph: PrecedenceGraph,
    pub(crate) predecessors: Vec<Vec<u8>>,
    pub(crate) levels: Ghost<Seq<int>>,
}

impl View for DAG {
    type V = Project;

    open(crate) spec fn view(&self) -> Project {
        Project {
            durations: Seq::new(self.durations@.len(), |a: int| self.durations[a] as int),
            requests: Seq::new(
                self.requests@.len(),
                |a: int| Seq::new(self.requests[a]@.len(), |k: int| self.requests[a][k] as int),
            ),
            capacities: Seq::new(self.capacities@.len(), |k: int| self.capacities[k] as int),
            edges: edge_set(self.graph),
        }
    }
}

impl DAG {
    /// The stored data describe a project of the right shape: the matrix has a
    /// node for each activity, and the predecessor lists hold the edges.
    pub open(crate) spec fn consistent(&self) -> bool {
        &&& self@.shaped()
        &&& node_total(self.graph) == self.durations.len()
        &&& self.predecessors.len() == self.durations.len()
        &&& forall|v: int, i: int|
            0 <= v < self.predecessors.len() && 0 <= i < self.predecessors[v].len() ==> edge_set(
                self.graph,
            ).contains((#[trigger] self.predecessors[v][i] as int, v))
        &&& forall|u: int, v: int| #[trigger]
            edge_set(self.graph).contains((u, v)) ==> self.predecessors[v]@.contains(u as u8)
    }

    /// The invariant of the type: the data are consistent, and the project is
    /// valid.
    pub open(crate) spec fn wf(&self) -> bool {
        &&& self.consistent()
        &&& self@.valid()
        &&& self@.levelled_by(self.levels@)
    }

    /// A well-formed graph holds a valid project.
    pub proof fn lemma_valid(&self)
        requires
            self.wf(),
        ensures
            self@.valid(),
    {
    }

    /// The number of activities, source and sink included.
    pub fn jobs(&self) -> (n: usize)
        requires
            self.wf(),
        ensures
            n == self@.jobs(),
            2 <= n <= 256,
    {
        self.durations.len()
    }

    /// The duration of activity `a`.
    pub fn duration(&self, a: u8) -> (d: u8)
        requires
            self.wf(),
            a < self@.jobs(),
        ensures
            d == self@.duration(a as int),
    {
        self.durations[a as usize]
    }

    /// What activity `a` takes of resource `k` while it runs.
    pub fn demand(&self, a: u8, k: usize) -> (d: usize)
        requires
            self.wf(),
            a < self@.jobs(),
            k < RESOURCES,
        ensures
            d == self@.demand(a as int, k as int),
    {
        assert(self@.requests[a as int].len() == RESOURCES);
        self.requests[a as usize][k]
    }

    /// How much there is of resource `k`.
    pub fn capacity(&self, k: usize) -> (c: usize)
        requires
            self.wf(),
            k < RESOURCES,
        ensures
            c == self@.capacity(k as int),
    {
        self.capacities[k]
    }

    /// Whether `v` may not start before `u` has finished.
    pub fn has_edge(&self, u: u8, v: u8) -> (present: bool)
        requires
            self.wf(),
        ensures
            present == self@.edge(u as int, v as int),
    {
        let n = self.durations.len();
        if (u as usize) < n && (v as usize) < n {
            graph_has_edge(&self.graph, u, v)
        } else {
            false
        }
    }

    /// The sum of all durations: no serial schedule ends later.
    pub fn compute_upper_bound(&self) -> (bound: usize)
        requires
            self.wf(),
        ensures
            bound == self@.horizon(),
    {
        let n = self.durations.len();
        let mut bound: usize = 0;
        let mut a: usize = 0;
        while a < n
            invariant
                self.wf(),
                n == self.durations.len(),
                a <= n,
                bound == self@.duration_sum(a as int),
                bound <= 255 * a,
            decreases n - a,
        {
            bound = bound + self.durations[a] as usize;
            a += 1;
        }
        bound
    }
}

} // verus!
