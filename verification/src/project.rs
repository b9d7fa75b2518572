//! The mathematical model of a project: what every contract of this crate speaks of.

use vstd::prelude::*;

verus! {

/// The number of renewable resources of a project.
pub const RESOURCES: usize = 4;

/// A project: for each activity its duration and its demand on each resource,
/// the capacity of each resource, and the precedence edges `(u, v)`, each
/// saying that `v` may not start before `u` has finished.
pub struct Project {
    pub durations: Seq<int>,
    pub requests: Seq<Seq<int>>,
    pub capacities: Seq<int>,
    pub edges: Set<(int, int)>,
}

impl Project {
    /// The number of activities, source and sink included.
    pub open spec fn jobs(self) -> int {
        self.durations.len() as int
    }

    /// Activity `v` may not start before `u` has finished.
    pub open spec fn edge(self, u: int, v: int) -> bool {
        self.edges.contains((u, v))
    }

    /// The time that activity `a` takes.
    pub open spec fn duration(self, a: int) -> int {
        self.durations[a]
    }

    /// What activity `a` takes of resource `k` while it runs.
    pub open spec fn demand(self, a: int, k: int) -> int {
        self.requests[a][k]
    }

    /// How much there is of resource `k`.
    pub open spec fn capacity(self, k: int) -> int {
        self.capacities[k]
    }

    /// The last activity; the first one, 0, is the source.
    pub open spec fn sink(self) -> int {
        self.jobs() - 1
    }

    /// The sizes agree, every number is a byte and every edge joins two activities.
    pub open spec fn shaped(self) -> bool {
        &&& 2 <= self.jobs() <= 256
        &&& self.requests.len() == self.jobs()
        &&& self.capacities.len() == RESOURCES
        &&& forall|a: int| 0 <= a < self.jobs() ==> 0 <= #[trigger] self.durations[a] <= 255
        &&& forall|a: int| 0 <= a < self.jobs() ==> (#[trigger] self.requests[a]).len() == RESOURCES
        &&& forall|a: int, k: int|
            0 <= a < self.jobs() && 0 <= k < RESOURCES ==> 0 <= #[trigger] self.requests[a][k] <= 255
        &&& forall|k: int| 0 <= k < RESOURCES ==> 0 <= #[trigger] self.capacities[k] <= 255
        &&& forall|u: int, v: int| #[trigger]
            self.edges.contains((u, v)) ==> 0 <= u < self.jobs() && 0 <= v < self.jobs()
    }

    /// No demand of activity `a` exceeds the capacity of its resource.
    pub open spec fn within_capacity(self, a: int) -> bool {
        forall|k: int| 0 <= k < RESOURCES ==> #[trigger] self.requests[a][k] <= self.capacities[k]
    }

    /// Activity `a` takes no time and no resource.
    pub open spec fn idle(self, a: int) -> bool {
        &&& self.durations[a] == 0
        &&& forall|k: int| 0 <= k < RESOURCES ==> #[trigger] self.requests[a][k] == 0
    }

    /// Some edge leads to activity `a`.
    pub open spec fn has_predecessor(self, a: int) -> bool {
        exists|u: int| self.edges.contains((u, a))
    }

    /// Some edge leads from activity `a`.
    pub open spec fn has_successor(self, a: int) -> bool {
        exists|v: int| self.edges.contains((a, v))
    }

    /// The source alone has no predecessor, and the sink alone has no successor.
    pub open spec fn connected(self, a: int) -> bool {
        &&& a == 0 <==> !self.has_predecessor(a)
        &&& a == self.sink() <==> !self.has_successor(a)
    }

    /// `level` numbers the activities so that every edge leads to a higher number.
    pub open spec fn levelled_by(self, level: Seq<int>) -> bool {
        &&& level.len() == self.jobs()
        &&& forall|a: int| 0 <= a < self.jobs() ==> 0 <= #[trigger] level[a]
        &&& forall|u: int, v: int| #[trigger] self.edges.contains((u, v)) ==> level[u] < level[v]
    }

    /// The precedence relation has no cycle.
    pub open spec fn acyclic(self) -> bool {
        exists|level: Seq<int>| self.levelled_by(level)
    }

    /// `level` numbers some activities, the others get `-1`; a numbered activity
    /// has only numbered predecessors, each with a lower number.
    pub open spec fn partly_levelled_by(self, level: Seq<int>) -> bool {
        &&& level.len() == self.jobs()
        &&& forall|u: int, v: int| #[trigger]
            self.edges.contains((u, v)) && level[v] >= 0 ==> 0 <= level[u] < level[v]
    }

    /// Activity `a` and all that must precede it can be put in an order: no
    /// cycle leads to `a`.
    pub open spec fn orderable(self, a: int) -> bool {
        exists|level: Seq<int>| self.partly_levelled_by(level) && level[a] >= 0
    }

    /// What every project of a `DAG` satisfies.
    pub open spec fn valid(self) -> bool {
        &&& self.shaped()
        &&& forall|a: int| 0 <= a < self.jobs() ==> self.within_capacity(a)
        &&& self.idle(0)
        &&& self.idle(self.sink())
        &&& forall|a: int| 0 <= a < self.jobs() ==> self.connected(a)
        &&& self.acyclic()
    }

    /// The sum of the durations of the activities `0 .. n`.
    pub open spec fn duration_sum(self, n: int) -> int
        decreases n,
    {
        if n <= 0 {
            0
        } else {
            self.duration_sum(n - 1) + self.durations[n - 1]
        }
    }

    /// The sum of all durations: no serial schedule ends later.
    pub open spec fn horizon(self) -> int {
        self.duration_sum(self.jobs())
    }
}

} // verus!
