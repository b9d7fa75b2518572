//! Building the project graph from the description of a problem, and what
//! makes a description unfit.

use crate::counting::count_true;
use crate::counting::lemma_count_full;
use crate::counting::lemma_count_none;
use crate::counting::lemma_count_set;
use crate::dag::DAG;
use crate::graph::edge_set;
use crate::graph::graph_add_edge;
use crate::graph::graph_add_node;
use crate::graph::graph_has_edge;
use crate::graph::graph_new;
use crate::graph::graph_predecessors;
use crate::graph::node_total;
use crate::graph::PrecedenceGraph;
use crate::problem::PspLibProblem;
use crate::problem::PspLibRequestDuration;
use crate::project::Project;
use crate::project::RESOURCES;
use vstd::prelude::*;

verus! {

/// Why a problem gives no project graph. Each but the first names the job or
/// the activity at fault.
#[derive(Debug, Clone, Copy, PartialEq, Eq)]
pub enum DagError {
    /// There are fewer than 2 or more than 256 jobs, or not one row of
    /// durations for each.
    JobCount,
    /// A job number that is not below the number of jobs.
    UnknownJob(u8),
    /// A job with two rows of durations.
    DuplicateJob(u8),
    /// An activity that takes more of a resource than there is.
    DemandExceedsCapacity(u8),
    /// The source or the sink takes time or a resource.
    Terminal(u8),
    /// An activity other than the source without a predecessor, or other than
    /// the sink without a successor; or the source with a predecessor, or the
    /// sink with a successor.
    Disconnected(u8),
    /// An activity to which a cycle of precedence edges leads.
    Cycle(u8),
}

/// The problem has at least 2 and at most 256 jobs, and one row of durations
/// for each.
pub open spec fn counts_ok(psp: PspLibProblem) -> bool {
    &&& 2 <= psp.jobs <= 256
    &&& psp.request_durations.len() == psp.jobs
}

/// Row `i` of the durations names no job, or one that an earlier row names.
pub open spec fn request_bad(psp: PspLibProblem, i: int) -> bool {
    let id = psp.request_durations[i].job_number;
    id >= psp.jobs || exists|j: int|
        0 <= j < i && (#[trigger] psp.request_durations[j]).job_number == id
}

/// Some row of durations is bad.
pub open spec fn has_bad_request(psp: PspLibProblem) -> bool {
    exists|i: int| 0 <= i < psp.request_durations.len() && request_bad(psp, i)
}

/// The first row of durations that is bad.
pub open spec fn first_bad_request(psp: PspLibProblem) -> int {
    choose|i: int|
        0 <= i < psp.request_durations.len() && request_bad(psp, i) && forall|j: int|
            0 <= j < i ==> !request_bad(psp, j)
}

/// What the first bad row of durations is refused for.
pub open spec fn request_error(psp: PspLibProblem) -> DagError {
    let id = psp.request_durations[first_bad_request(psp)].job_number;
    if id >= psp.jobs {
        DagError::UnknownJob(id)
    } else {
        DagError::DuplicateJob(id)
    }
}

/// Successor `s` of precedence row `r` is no job.
pub open spec fn successor_bad(psp: PspLibProblem, r: int, s: int) -> bool {
    psp.precedence_relations[r].successors[s] >= psp.jobs
}

/// Precedence row `r` names something that is no job.
pub open spec fn relation_bad(psp: PspLibProblem, r: int) -> bool {
    psp.precedence_relations[r].job_number >= psp.jobs || exists|s: int|
        0 <= s < psp.precedence_relations[r].successors.len() && successor_bad(psp, r, s)
}

/// Some precedence row is bad.
pub open spec fn has_bad_relation(psp: PspLibProblem) -> bool {
    exists|r: int| 0 <= r < psp.precedence_relations.len() && relation_bad(psp, r)
}

/// The first precedence row that is bad.
pub open spec fn first_bad_relation(psp: PspLibProblem) -> int {
    choose|r: int|
        0 <= r < psp.precedence_relations.len() && relation_bad(psp, r) && forall|j: int|
            0 <= j < r ==> !relation_bad(psp, j)
}

/// The first successor of precedence row `r` that is no job.
pub open spec fn first_bad_successor(psp: PspLibProblem, r: int) -> int {
    choose|s: int|
        0 <= s < psp.precedence_relations[r].successors.len() && successor_bad(psp, r, s)
            && forall|j: int| 0 <= j < s ==> !successor_bad(psp, r, j)
}

/// What the first bad precedence row is refused for.
pub open spec fn relation_error(psp: PspLibProblem) -> DagError {
    let r = first_bad_relation(psp);
    let row = psp.precedence_relations[r];
    if row.job_number >= psp.jobs {
        DagError::UnknownJob(row.job_number)
    } else {
        DagError::UnknownJob(row.successors[first_bad_successor(psp, r)])
    }
}

/// The row of durations of job `a`.
pub open spec fn request_row(psp: PspLibProblem, a: int) -> int {
    choose|i: int|
        0 <= i < psp.request_durations.len() && (#[trigger] psp.request_durations[i]).job_number
            == a
}

/// The demands of one row, resource by resource.
pub open spec fn demands(row: PspLibRequestDuration) -> Seq<int> {
    seq![row.r1 as int, row.r2 as int, row.r3 as int, row.r4 as int]
}

/// Some precedence row lists `v` as a successor of `u`.
pub open spec fn listed(psp: PspLibProblem, u: int, v: int) -> bool {
    exists|r: int, s: int|
        0 <= r < psp.precedence_relations.len() && 0 <= s
            < psp.precedence_relations[r].successors.len()
            && psp.precedence_relations[r].job_number == u
            && #[trigger] psp.precedence_relations[r].successors[s] == v
}

/// The project that a problem describes.
pub open spec fn project_of(psp: PspLibProblem) -> Project {
    Project {
        durations: Seq::new(
            psp.jobs as nat,
            |a: int| psp.request_durations[request_row(psp, a)].duration as int,
        ),
        requests: Seq::new(
            psp.jobs as nat,
            |a: int| demands(psp.request_durations[request_row(psp, a)]),
        ),
        capacities: seq![
            psp.resource_availabilities.r1 as int,
            psp.resource_availabilities.r2 as int,
            psp.resource_availabilities.r3 as int,
            psp.resource_availabilities.r4 as int,
        ],
        edges: Set::new(|e: (int, int)| listed(psp, e.0, e.1)),
    }
}

impl Project {
    /// Some activity takes more of a resource than there is.
    pub open spec fn has_over_capacity(self) -> bool {
        exists|a: int| 0 <= a < self.jobs() && !self.within_capacity(a)
    }

    /// The first activity that takes more of a resource than there is.
    pub open spec fn first_over_capacity(self) -> int {
        choose|a: int|
            0 <= a < self.jobs() && !self.within_capacity(a) && forall|b: int|
                0 <= b < a ==> self.within_capacity(b)
    }

    /// Some activity is not connected as it should be.
    pub open spec fn has_unconnected(self) -> bool {
        exists|a: int| 0 <= a < self.jobs() && !self.connected(a)
    }

    /// The first activity that is not connected as it should be.
    pub open spec fn first_unconnected(self) -> int {
        choose|a: int|
            0 <= a < self.jobs() && !self.connected(a) && forall|b: int|
                0 <= b < a ==> self.connected(b)
    }

    /// A cycle leads to some activity.
    pub open spec fn has_unorderable(self) -> bool {
        exists|a: int| 0 <= a < self.jobs() && !self.orderable(a)
    }

    /// The first activity to which a cycle leads.
    pub open spec fn first_unorderable(self) -> int {
        choose|a: int|
            0 <= a < self.jobs() && !self.orderable(a) && forall|b: int|
                0 <= b < a ==> self.orderable(b)
    }

    /// What is wrong with a project of the right shape, if anything: the
    /// first of a demand over capacity, a source or sink that is not idle, an
    /// activity that is not connected, and a cycle.
    pub open spec fn defect(self) -> Option<DagError> {
        if self.has_over_capacity() {
            Some(DagError::DemandExceedsCapacity(self.first_over_capacity() as u8))
        } else if !self.idle(0) {
            Some(DagError::Terminal(0))
        } else if !self.idle(self.sink()) {
            Some(DagError::Terminal(self.sink() as u8))
        } else if self.has_unconnected() {
            Some(DagError::Disconnected(self.first_unconnected() as u8))
        } else if self.has_unorderable() {
            Some(DagError::Cycle(self.first_unorderable() as u8))
        } else {
            None
        }
    }
}

/// What is wrong with a problem, if anything. The checks come in this order:
/// the number of jobs, the rows of durations, the precedence rows, and then
/// what can be wrong with the project itself.
pub open spec fn problem_error(psp: PspLibProblem) -> Option<DagError> {
    if !counts_ok(psp) {
        Some(DagError::JobCount)
    } else if has_bad_request(psp) {
        Some(request_error(psp))
    } else if has_bad_relation(psp) {
        Some(relation_error(psp))
    } else {
        project_of(psp).defect()
    }
}

/// The durations and demands of the jobs, each under its job number.
struct Requests {
    durations: Vec<u8>,
    requests: Vec<Vec<usize>>,
}

/// The tables hold what the first `rows` rows of durations say.
spec fn tables_hold(psp: PspLibProblem, rows: int, durations: Seq<u8>, requests: Seq<Vec<usize>>) -> bool {
    &&& durations.len() == psp.jobs
    &&& requests.len() == psp.jobs
    &&& forall|a: int| 0 <= a < psp.jobs ==> (#[trigger] requests[a]).len() == RESOURCES
    &&& forall|a: int, k: int|
        0 <= a < psp.jobs && 0 <= k < RESOURCES ==> #[trigger] requests[a][k] <= 255
    &&& forall|i: int|
        0 <= i < rows ==> {
            let row = #[trigger] psp.request_durations[i];
            &&& durations[row.job_number as int] == row.duration
            &&& requests[row.job_number as int]@.map_values(|x: usize| x as int) == demands(row)
        }
}

/// Job `a` is named by one of the first `rows` rows of durations.
spec fn named(psp: PspLibProblem, rows: int, a: int) -> bool {
    exists|i: int| 0 <= i < rows && (#[trigger] psp.request_durations[i]).job_number == a
}

/// Reads the rows of durations into tables by job number.
fn read_requests(psp: &PspLibProblem) -> (result: Result<Requests, DagError>)
    requires
        counts_ok(*psp),
    ensures
        match result {
            Ok(tables) => {
                &&& !has_bad_request(*psp)
                &&& tables_hold(
                    *psp,
                    psp.request_durations.len() as int,
                    tables.durations@,
                    tables.requests@,
                )
                &&& forall|a: int|
                    0 <= a < psp.jobs ==> named(*psp, psp.request_durations.len() as int, a)
            },
            Err(e) => has_bad_request(*psp) && e == request_error(*psp),
        },
{
    let n = psp.jobs;
    let mut durations: Vec<u8> = Vec::new();
    let mut requests: Vec<Vec<usize>> = Vec::new();
    let mut seen: Vec<bool> = Vec::new();
    let mut a: usize = 0;
    while a < n
        invariant
            a <= n,
            durations.len() == a,
            requests.len() == a,
            seen.len() == a,
            forall|b: int| 0 <= b < a ==> !#[trigger] seen[b],
            forall|b: int| 0 <= b < a ==> (#[trigger] requests[b]).len() == RESOURCES,
            forall|b: int, k: int| 0 <= b < a && 0 <= k < RESOURCES ==> #[trigger] requests[b][k] <= 255,
        decreases n - a,
    {
        durations.push(0);
        requests.push(vec![0usize, 0usize, 0usize, 0usize]);
        seen.push(false);
        a += 1;
    }
    proof {
        lemma_count_none(seen@);
    }
    let mut i: usize = 0;
    while i < psp.request_durations.len()
        invariant
            counts_ok(*psp),
            n == psp.jobs,
            i <= psp.request_durations.len(),
            seen.len() == n,
            tables_hold(*psp, i as int, durations@, requests@),
            forall|j: int| 0 <= j < i ==> !request_bad(*psp, j),
            forall|a: int| 0 <= a < n ==> (#[trigger] seen[a] <==> named(*psp, i as int, a)),
            count_true(seen@) == i,
        decreases psp.request_durations.len() - i,
    {
        let row = &psp.request_durations[i];
        let id = row.job_number as usize;
        if id >= n {
            proof {
                assert(request_bad(*psp, i as int));
            }
            return Err(DagError::UnknownJob(row.job_number));
        }
        if seen[id] {
            proof {
                assert(named(*psp, i as int, id as int));
                assert(request_bad(*psp, i as int));
            }
            return Err(DagError::DuplicateJob(row.job_number));
        }
        proof {
            assert(!named(*psp, i as int, id as int));
            assert(!request_bad(*psp, i as int)) by {
                if request_bad(*psp, i as int) {
                    let j = choose|j: int|
                        0 <= j < i && (#[trigger] psp.request_durations[j]).job_number
                            == row.job_number;
                    assert(named(*psp, i as int, id as int));
                }
            }
            lemma_count_set(seen@, id as int);
        }
        let ghost seen0 = seen@;
        let ghost durations0 = durations@;
        let ghost requests0 = requests@;
        seen[id] = true;
        durations[id] = row.duration;
        requests[id] = vec![row.r1 as usize, row.r2 as usize, row.r3 as usize, row.r4 as usize];
        proof {
            assert(requests[id as int]@.map_values(|x: usize| x as int) =~= demands(*row));
            assert forall|j: int| 0 <= j < i + 1 implies {
                let other = #[trigger] psp.request_durations[j];
                &&& durations[other.job_number as int] == other.duration
                &&& requests[other.job_number as int]@.map_values(|x: usize| x as int) == demands(
                    other,
                )
            } by {
                if j < i {
                    let other = psp.request_durations[j];
                    assert(!request_bad(*psp, j));
                    assert(other.job_number < n);
                    assert(other.job_number != row.job_number) by {
                        if other.job_number == row.job_number {
                            assert(named(*psp, i as int, id as int));
                        }
                    }
                    assert(durations[other.job_number as int] == durations0[other.job_number as int]);
                    assert(requests[other.job_number as int] == requests0[other.job_number as int]);
                }
            }
            assert forall|a: int| 0 <= a < n implies (#[trigger] seen[a] <==> named(
                *psp,
                i as int + 1,
                a,
            )) by {
                if named(*psp, i as int + 1, a) {
                    let j = choose|j: int|
                        0 <= j < i + 1 && (#[trigger] psp.request_durations[j]).job_number == a;
                    if j < i {
                        assert(named(*psp, i as int, a));
                    }
                }
                if named(*psp, i as int, a) {
                    let j = choose|j: int|
                        0 <= j < i && (#[trigger] psp.request_durations[j]).job_number == a;
                    assert(0 <= j < i + 1);
                }
                if a == id {
                    assert(psp.request_durations[i as int].job_number == a);
                }
            }
        }
        i += 1;
    }
    proof {
        lemma_count_full(seen@);
        assert(!has_bad_request(*psp));
        assert forall|a: int| 0 <= a < psp.jobs implies named(
            *psp,
            psp.request_durations.len() as int,
            a,
        ) by {
            assert(seen[a]);
        }
    }
    Ok(Requests { durations, requests })
}

/// A precedence row before row `r`, or one of the first `s` successors of row
/// `r` itself, lists `v` as a successor of `u`.
spec fn listed_before(psp: PspLibProblem, r: int, s: int, u: int, v: int) -> bool {
    exists|r2: int, s2: int|
        0 <= r2 < psp.precedence_relations.len() && 0 <= s2
            < psp.precedence_relations[r2].successors.len() && (r2 < r || (r2 == r && s2 < s))
            && psp.precedence_relations[r2].job_number == u
            && #[trigger] psp.precedence_relations[r2].successors[s2] == v
}

/// Reads the precedence rows into a graph with one node for each job.
fn read_relations(psp: &PspLibProblem) -> (result: Result<PrecedenceGraph, DagError>)
    requires
        counts_ok(*psp),
    ensures
        match result {
            Ok(graph) => {
                &&& !has_bad_relation(*psp)
                &&& node_total(graph) == psp.jobs
                &&& forall|u: int, v: int| #[trigger]
                    edge_set(graph).contains((u, v)) <==> listed(*psp, u, v)
            },
            Err(e) => has_bad_relation(*psp) && e == relation_error(*psp),
        },
{
    let n = psp.jobs;
    let mut graph = graph_new();
    let mut a: usize = 0;
    while a < n
        invariant
            n <= 256,
            a <= n,
            node_total(graph) == a,
            edge_set(graph) == Set::<(int, int)>::empty(),
        decreases n - a,
    {
        let index = graph_add_node(&mut graph, 0);
        a += 1;
    }
    let mut r: usize = 0;
    while r < psp.precedence_relations.len()
        invariant
            counts_ok(*psp),
            n == psp.jobs,
            r <= psp.precedence_relations.len(),
            node_total(graph) == n,
            forall|j: int| 0 <= j < r ==> !relation_bad(*psp, j),
            forall|u: int, v: int| #[trigger]
                edge_set(graph).contains((u, v)) <==> listed_before(*psp, r as int, 0, u, v),
        decreases psp.precedence_relations.len() - r,
    {
        let row = &psp.precedence_relations[r];
        let job = row.job_number;
        if job as usize >= n {
            proof {
                assert(relation_bad(*psp, r as int));
            }
            return Err(DagError::UnknownJob(job));
        }
        let mut s: usize = 0;
        while s < row.successors.len()
            invariant
                counts_ok(*psp),
                n == psp.jobs,
                r < psp.precedence_relations.len(),
                row == &psp.precedence_relations[r as int],
                job == row.job_number,
                job < n,
                s <= row.successors.len(),
                node_total(graph) == n,
                forall|j: int| 0 <= j < r ==> !relation_bad(*psp, j),
                forall|j: int| 0 <= j < s ==> !successor_bad(*psp, r as int, j),
                forall|u: int, v: int| #[trigger]
                    edge_set(graph).contains((u, v)) <==> listed_before(
                        *psp,
                        r as int,
                        s as int,
                        u,
                        v,
                    ),
            decreases row.successors.len() - s,
        {
            let successor = row.successors[s];
            if successor as usize >= n {
                proof {
                    assert(successor_bad(*psp, r as int, s as int));
                    assert(relation_bad(*psp, r as int));
                }
                return Err(DagError::UnknownJob(successor));
            }
            let ghost edges0 = edge_set(graph);
            if !graph_has_edge(&graph, job, successor) {
                graph_add_edge(&mut graph, job, successor);
            }
            proof {
                assert forall|u: int, v: int| #[trigger]
                    edge_set(graph).contains((u, v)) <==> listed_before(
                        *psp,
                        r as int,
                        s as int + 1,
                        u,
                        v,
                    ) by {
                    assert(edge_set(graph).contains((u, v)) <==> (edges0.contains((u, v)) || (u
                        == job && v == successor)));
                    if listed_before(*psp, r as int, s as int + 1, u, v) {
                        let (r2, s2) = choose|r2: int, s2: int|
                            0 <= r2 < psp.precedence_relations.len() && 0 <= s2
                                < psp.precedence_relations[r2].successors.len() && (r2 < r || (r2
                                == r && s2 < s + 1)) && psp.precedence_relations[r2].job_number == u
                                && #[trigger] psp.precedence_relations[r2].successors[s2] == v;
                        if r2 < r || s2 < s {
                            assert(listed_before(*psp, r as int, s as int, u, v));
                        }
                    }
                    if listed_before(*psp, r as int, s as int, u, v) {
                        let (r2, s2) = choose|r2: int, s2: int|
                            0 <= r2 < psp.precedence_relations.len() && 0 <= s2
                                < psp.precedence_relations[r2].successors.len() && (r2 < r || (r2
                                == r && s2 < s)) && psp.precedence_relations[r2].job_number == u
                                && #[trigger] psp.precedence_relations[r2].successors[s2] == v;
                        assert(r2 < r || (r2 == r && s2 < s + 1));
                    }
                    if u == job && v == successor {
                        assert(psp.precedence_relations[r as int].successors[s as int] == v);
                    }
                }
            }
            s += 1;
        }
        proof {
            assert(!relation_bad(*psp, r as int));
            assert forall|u: int, v: int| #[trigger]
                edge_set(graph).contains((u, v)) <==> listed_before(
                    *psp,
                    r as int + 1,
                    0,
                    u,
                    v,
                ) by {
                if listed_before(*psp, r as int + 1, 0, u, v) {
                    let (r2, s2) = choose|r2: int, s2: int|
                        0 <= r2 < psp.precedence_relations.len() && 0 <= s2
                            < psp.precedence_relations[r2].successors.len() && (r2 < r + 1 || (r2
                            == r + 1 && s2 < 0)) && psp.precedence_relations[r2].job_number == u
                            && #[trigger] psp.precedence_relations[r2].successors[s2] == v;
                    assert(r2 < r || (r2 == r && s2 < s));
                }
                if listed_before(*psp, r as int, s as int, u, v) {
                    let (r2, s2) = choose|r2: int, s2: int|
                        0 <= r2 < psp.precedence_relations.len() && 0 <= s2
                            < psp.precedence_relations[r2].successors.len() && (r2 < r || (r2 == r
                            && s2 < s)) && psp.precedence_relations[r2].job_number == u
                            && #[trigger] psp.precedence_relations[r2].successors[s2] == v;
                    assert(r2 < r + 1);
                }
            }
        }
        r += 1;
    }
    proof {
        assert(!has_bad_relation(*psp));
        assert forall|u: int, v: int| #[trigger]
            edge_set(graph).contains((u, v)) <==> listed(*psp, u, v) by {
            if listed(*psp, u, v) {
                let (r2, s2) = choose|r2: int, s2: int|
                    0 <= r2 < psp.precedence_relations.len() && 0 <= s2
                        < psp.precedence_relations[r2].successors.len()
                        && psp.precedence_relations[r2].job_number == u
                        && #[trigger] psp.precedence_relations[r2].successors[s2] == v;
                assert(r2 < r);
                assert(listed_before(*psp, r as int, 0, u, v));
            }
        }
    }
    Ok(graph)
}

/// The predecessors of every node of the graph.
fn collect_predecessors(graph: &PrecedenceGraph, n: usize) -> (lists: Vec<Vec<u8>>)
    requires
        node_total(*graph) == n,
        n <= 256,
    ensures
        lists.len() == n,
        forall|v: int, i: int|
            0 <= v < n && 0 <= i < lists[v].len() ==> edge_set(*graph).contains(
                (#[trigger] lists[v][i] as int, v),
            ),
        forall|u: int, v: int|
            0 <= u < 256 && 0 <= v < n && #[trigger] edge_set(*graph).contains((u, v))
                ==> lists[v]@.contains(u as u8),
{
    let mut lists: Vec<Vec<u8>> = Vec::new();
    let mut v: usize = 0;
    while v < n
        invariant
            node_total(*graph) == n,
            n <= 256,
            v <= n,
            lists.len() == v,
            forall|w: int, i: int|
                0 <= w < v && 0 <= i < lists[w].len() ==> edge_set(*graph).contains(
                    (#[trigger] lists[w][i] as int, w),
                ),
            forall|u: int, w: int|
                0 <= u < 256 && 0 <= w < v && #[trigger] edge_set(*graph).contains((u, w))
                    ==> lists[w]@.contains(u as u8),
        decreases n - v,
    {
        let tails = graph_predecessors(graph, v as u8);
        lists.push(tails);
        v += 1;
    }
    lists
}

/// The first entry that is not set, if there is one.
fn first_unmarked(marks: &Vec<bool>) -> (found: Option<usize>)
    ensures
        match found {
            Some(a) => a < marks.len() && !marks[a as int] && forall|b: int| 0 <= b < a ==> marks[b],
            None => forall|b: int| 0 <= b < marks.len() ==> marks[b],
        },
{
    let mut a: usize = 0;
    while a < marks.len()
        invariant
            a <= marks.len(),
            forall|b: int| 0 <= b < a ==> marks[b],
        decreases marks.len() - a,
    {
        if !marks[a] {
            return Some(a);
        }
        a += 1;
    }
    None
}

/// `u` has a successor below `end`.
spec fn succeeded_before(p: Project, u: int, end: int) -> bool {
    exists|v: int| 0 <= v < end && #[trigger] p.edges.contains((u, v))
}

impl DAG {
    /// Whether no demand of activity `a` exceeds the capacity.
    fn is_within_capacity(&self, a: usize) -> (within: bool)
        requires
            self.consistent(),
            a < self@.jobs(),
        ensures
            within == self@.within_capacity(a as int),
    {
        let mut k: usize = 0;
        while k < RESOURCES
            invariant
                self.consistent(),
                a < self@.jobs(),
                k <= RESOURCES,
                forall|j: int| 0 <= j < k ==> #[trigger] self@.requests[a as int][j] <= self@.capacities[j],
            decreases RESOURCES - k,
        {
            assert(self@.requests[a as int][k as int] == self.requests[a as int][k as int]);
            assert(self@.capacities[k as int] == self.capacities[k as int]);
            if self.requests[a][k] > self.capacities[k] {
                return false;
            }
            k += 1;
        }
        true
    }

    /// Whether activity `a` takes no time and no resource.
    fn is_idle(&self, a: usize) -> (idle: bool)
        requires
            self.consistent(),
            a < self@.jobs(),
        ensures
            idle == self@.idle(a as int),
    {
        if self.durations[a] != 0 {
            return false;
        }
        let mut k: usize = 0;
        while k < RESOURCES
            invariant
                self.consistent(),
                a < self@.jobs(),
                k <= RESOURCES,
                self@.durations[a as int] == 0,
                forall|j: int| 0 <= j < k ==> #[trigger] self@.requests[a as int][j] == 0,
            decreases RESOURCES - k,
        {
            assert(self@.requests[a as int][k as int] == self.requests[a as int][k as int]);
            if self.requests[a][k] != 0 {
                return false;
            }
            k += 1;
        }
        true
    }

    /// The first activity with a demand over the capacity, if there is one.
    fn find_over_capacity(&self) -> (found: Option<u8>)
        requires
            self.consistent(),
        ensures
            match found {
                Some(a) => self@.has_over_capacity() && a == self@.first_over_capacity(),
                None => !self@.has_over_capacity(),
            },
    {
        let n = self.durations.len();
        let mut a: usize = 0;
        while a < n
            invariant
                self.consistent(),
                n == self@.jobs(),
                a <= n,
                forall|b: int| 0 <= b < a ==> self@.within_capacity(b),
            decreases n - a,
        {
            if !self.is_within_capacity(a) {
                return Some(a as u8);
            }
            a += 1;
        }
        None
    }

    /// For each activity, whether it has a successor.
    fn mark_succeeded(&self) -> (marks: Vec<bool>)
        requires
            self.consistent(),
        ensures
            marks.len() == self@.jobs(),
            forall|u: int| 0 <= u < self@.jobs() ==> (#[trigger] marks[u] <==> self@.has_successor(u)),
    {
        let ghost p = self@;
        let n = self.durations.len();
        let mut marks: Vec<bool> = Vec::new();
        let mut a: usize = 0;
        while a < n
            invariant
                a <= n,
                marks.len() == a,
                forall|b: int| 0 <= b < a ==> !#[trigger] marks[b],
            decreases n - a,
        {
            marks.push(false);
            a += 1;
        }
        let mut v: usize = 0;
        while v < n
            invariant
                self.consistent(),
                p == self@,
                n == p.jobs(),
                v <= n,
                marks.len() == n,
                forall|u: int| 0 <= u < n ==> (#[trigger] marks[u] <==> succeeded_before(p, u, v as int)),
            decreases n - v,
        {
            let list = &self.predecessors[v];
            let ghost marks0 = marks@;
            let mut i: usize = 0;
            while i < list.len()
                invariant
                    self.consistent(),
                    p == self@,
                    n == p.jobs(),
                    v < n,
                    list == &self.predecessors[v as int],
                    i <= list.len(),
                    marks.len() == n,
                    marks0.len() == n,
                    forall|u: int|
                        0 <= u < n ==> (#[trigger] marks[u] <==> (marks0[u] || crate::order::placed(
                            list@,
                            i as int,
                            u,
                        ))),
                decreases list.len() - i,
            {
                let u = list[i];
                assert(p.edges.contains((u as int, v as int)));
                assert(0 <= u < n);
                marks[u as usize] = true;
                proof {
                    assert forall|w: int| 0 <= w < n implies (crate::order::placed(
                        list@,
                        i as int + 1,
                        w,
                    ) <==> (crate::order::placed(list@, i as int, w) || w == u)) by {
                        if crate::order::placed(list@, i as int + 1, w) {
                            let j = choose|j: int|
                                0 <= j < i + 1 && j < list@.len() && #[trigger] list@[j] == w;
                            if j < i {
                                assert(crate::order::placed(list@, i as int, w));
                            }
                        }
                        if crate::order::placed(list@, i as int, w) {
                            let j = choose|j: int|
                                0 <= j < i && j < list@.len() && #[trigger] list@[j] == w;
                            assert(0 <= j < i + 1 && list@[j] == w);
                        }
                        if w == u {
                            assert(list@[i as int] == w);
                        }
                    }
                }
                i += 1;
            }
            proof {
                assert forall|u: int| 0 <= u < n implies (#[trigger] marks[u] <==> succeeded_before(
                    p,
                    u,
                    v as int + 1,
                )) by {
                    assert(marks0[u] <==> succeeded_before(p, u, v as int));
                    if succeeded_before(p, u, v as int + 1) {
                        let w = choose|w: int| 0 <= w < v + 1 && #[trigger] p.edges.contains((u, w));
                        if w < v {
                            assert(succeeded_before(p, u, v as int));
                        } else {
                            assert(list@.contains(u as u8));
                            let j = choose|j: int| 0 <= j < list@.len() && list@[j] == u as u8;
                            assert(list@[j] == u);
                            assert(crate::order::placed(list@, list.len() as int, u));
                        }
                    }
                    if succeeded_before(p, u, v as int) {
                        let w = choose|w: int| 0 <= w < v && #[trigger] p.edges.contains((u, w));
                        assert(0 <= w < v + 1);
                    }
                    if crate::order::placed(list@, list.len() as int, u) {
                        let j = choose|j: int|
                            0 <= j < list.len() && j < list@.len() && #[trigger] list@[j] == u;
                        assert(p.edges.contains((list[j] as int, v as int)));
                    }
                }
            }
            v += 1;
        }
        proof {
            assert forall|u: int| 0 <= u < p.jobs() implies (#[trigger] marks[u] <==> p.has_successor(
                u,
            )) by {
                if p.has_successor(u) {
                    let w = choose|w: int| p.edges.contains((u, w));
                    assert(0 <= w < n);
                    assert(succeeded_before(p, u, n as int));
                }
                if succeeded_before(p, u, n as int) {
                    let w = choose|w: int| 0 <= w < n && #[trigger] p.edges.contains((u, w));
                    assert(p.has_successor(u));
                }
            }
        }
        marks
    }

    /// The first activity that is not connected as it should be, if there is
    /// one.
    fn find_unconnected(&self) -> (found: Option<u8>)
        requires
            self.consistent(),
        ensures
            match found {
                Some(a) => self@.has_unconnected() && a == self@.first_unconnected(),
                None => !self@.has_unconnected(),
            },
    {
        let ghost p = self@;
        let n = self.durations.len();
        let succeeded = self.mark_succeeded();
        let mut a: usize = 0;
        while a < n
            invariant
                self.consistent(),
                p == self@,
                n == p.jobs(),
                a <= n,
                succeeded.len() == n,
                forall|u: int| 0 <= u < n ==> (#[trigger] succeeded[u] <==> p.has_successor(u)),
                forall|b: int| 0 <= b < a ==> p.connected(b),
            decreases n - a,
        {
            let list = &self.predecessors[a];
            let preceded = list.len() > 0;
            proof {
                if preceded {
                    assert(p.edges.contains((list[0] as int, a as int)));
                    assert(p.has_predecessor(a as int));
                }
                if p.has_predecessor(a as int) {
                    let u = choose|u: int| p.edges.contains((u, a as int));
                    assert(list@.contains(u as u8));
                }
            }
            let source_ok = (a == 0) == !preceded;
            let sink_ok = (a == n - 1) == !succeeded[a];
            if !(source_ok && sink_ok) {
                assert(!p.connected(a as int));
                return Some(a as u8);
            }
            assert(p.connected(a as int));
            a += 1;
        }
        None
    }

    /// Puts the tables and the graph of a problem together, before anything
    /// is known of the project but its shape.
    fn assemble(psp: &PspLibProblem) -> (result: Result<DAG, DagError>)
        ensures
            match result {
                Ok(dag) => {
                    &&& counts_ok(*psp)
                    &&& !has_bad_request(*psp)
                    &&& !has_bad_relation(*psp)
                    &&& dag.consistent()
                    &&& dag@ == project_of(*psp)
                },
                Err(e) => (!counts_ok(*psp) || has_bad_request(*psp) || has_bad_relation(*psp))
                    && problem_error(*psp) == Some(e),
            },
    {
        let n = psp.jobs;
        if n < 2 || n > 256 || psp.request_durations.len() != n {
            return Err(DagError::JobCount);
        }
        let tables = match read_requests(psp) {
            Ok(tables) => tables,
            Err(e) => {
                return Err(e);
            },
        };
        let graph = match read_relations(psp) {
            Ok(graph) => graph,
            Err(e) => {
                return Err(e);
            },
        };
        let predecessors = collect_predecessors(&graph, n);
        let capacities: Vec<usize> = vec![
            psp.resource_availabilities.r1 as usize,
            psp.resource_availabilities.r2 as usize,
            psp.resource_availabilities.r3 as usize,
            psp.resource_availabilities.r4 as usize,
        ];
        let dag = DAG {
            durations: tables.durations,
            requests: tables.requests,
            capacities,
            graph,
            predecessors,
            levels: Ghost(Seq::empty()),
        };
        proof {
            lemma_assembled(*psp, dag);
        }
        Ok(dag)
    }

    /// Looks for what can be wrong with a project of the right shape, and
    /// finds the levels that show that it has no cycle.
    fn check(self) -> (result: Result<DAG, DagError>)
        requires
            self.consistent(),
        ensures
            match result {
                Ok(dag) => dag.wf() && dag@ == self@ && self@.defect() is None,
                Err(e) => self@.defect() == Some(e),
            },
    {
        let ghost p = self@;
        let n = self.durations.len();
        match self.find_over_capacity() {
            Some(a) => {
                return Err(DagError::DemandExceedsCapacity(a));
            },
            None => {},
        }
        if !self.is_idle(0) {
            return Err(DagError::Terminal(0));
        }
        if !self.is_idle(n - 1) {
            return Err(DagError::Terminal((n - 1) as u8));
        }
        match self.find_unconnected() {
            Some(a) => {
                return Err(DagError::Disconnected(a));
            },
            None => {},
        }
        self.order_all()
    }

    /// Looks for a cycle: finds the levels that show that there is none, or
    /// the first activity to which one leads.
    fn order_all(self) -> (result: Result<DAG, DagError>)
        requires
            self.consistent(),
            !self@.has_over_capacity(),
            self@.idle(0),
            self@.idle(self@.sink()),
            !self@.has_unconnected(),
        ensures
            match result {
                Ok(dag) => dag.wf() && dag@ == self@ && !self@.has_unorderable(),
                Err(e) => self@.has_unorderable() && e == DagError::Cycle(
                    self@.first_unorderable() as u8,
                ),
            },
    {
        let ghost p = self@;
        let layers = self.build_layers();
        let ghost level = layers.level@;
        match first_unmarked(&layers.visited) {
            Some(a) => {
                proof {
                    assert(level[a as int] == -1);
                    assert(!p.orderable(a as int)) by {
                        if p.orderable(a as int) {
                            let other = choose|other: Seq<int>|
                                p.partly_levelled_by(other) && other[a as int] >= 0;
                            crate::dag::ranks::lemma_stuck(p, level, other, a as int);
                        }
                    }
                    assert forall|b: int| 0 <= b < a implies p.orderable(b) by {
                        assert(layers.visited[b]);
                        assert(p.partly_levelled_by(level) && level[b] >= 0);
                    }
                }
                return Err(DagError::Cycle(a as u8));
            },
            None => {},
        }
        proof {
            assert forall|b: int| 0 <= b < p.jobs() implies #[trigger] level[b] >= 0 by {
                assert(layers.visited[b]);
            }
            crate::dag::ranks::lemma_layers_complete(
                p,
                layers.ranks@,
                layers.order@,
                layers.visited@,
                level,
            );
            assert forall|b: int| 0 <= b < p.jobs() implies p.orderable(b) by {
                assert(p.partly_levelled_by(level) && level[b] >= 0);
            }
            assert(p.acyclic());
            assert forall|a: int| 0 <= a < p.jobs() implies p.within_capacity(a) by {}
            assert forall|a: int| 0 <= a < p.jobs() implies p.connected(a) by {}
        }
        let mut dag = self;
        dag.levels = Ghost(level);
        assert(dag@ == p);
        Ok(dag)
    }

    /// The project graph of a problem, or what is wrong with the problem.
    ///
    /// A problem is fit where it has from 2 to 256 jobs, one row of durations
    /// for each job number below the number of jobs, precedence rows that name
    /// such job numbers only, no demand above the capacity of its resource, an
    /// idle source and sink, every activity connected, and no cycle.
    pub fn new(psp: &PspLibProblem) -> (result: Result<DAG, DagError>)
        ensures
            match result {
                Ok(dag) => dag.wf() && dag@ == project_of(*psp) && problem_error(*psp) is None,
                Err(e) => problem_error(*psp) == Some(e),
            },
    {
        match DAG::assemble(psp) {
            Ok(dag) => dag.check(),
            Err(e) => Err(e),
        }
    }
}

/// The tables and the graph that were read from a problem make up the
/// project that the problem describes.
proof fn lemma_assembled(psp: PspLibProblem, dag: DAG)
    requires
        counts_ok(psp),
        !has_bad_relation(psp),
        tables_hold(psp, psp.request_durations.len() as int, dag.durations@, dag.requests@),
        forall|a: int| 0 <= a < psp.jobs ==> named(psp, psp.request_durations.len() as int, a),
        dag.capacities@ == seq![
            psp.resource_availabilities.r1 as usize,
            psp.resource_availabilities.r2 as usize,
            psp.resource_availabilities.r3 as usize,
            psp.resource_availabilities.r4 as usize,
        ],
        node_total(dag.graph) == psp.jobs,
        forall|u: int, v: int| #[trigger]
            edge_set(dag.graph).contains((u, v)) <==> listed(psp, u, v),
        dag.predecessors.len() == psp.jobs,
        forall|v: int, i: int|
            0 <= v < psp.jobs && 0 <= i < dag.predecessors[v].len() ==> edge_set(
                dag.graph,
            ).contains((#[trigger] dag.predecessors[v][i] as int, v)),
        forall|u: int, v: int|
            0 <= u < 256 && 0 <= v < psp.jobs && #[trigger] edge_set(dag.graph).contains((u, v))
                ==> dag.predecessors[v]@.contains(u as u8),
    ensures
        dag.consistent(),
        dag@ == project_of(psp),
{
    let n = psp.jobs as int;
    let p = dag@;
    let q = project_of(psp);
    assert(p.durations =~= q.durations) by {
        assert forall|a: int| 0 <= a < n implies p.durations[a] == q.durations[a] by {
            assert(named(psp, psp.request_durations.len() as int, a));
            let i = request_row(psp, a);
            assert(psp.request_durations[i].job_number == a);
        }
    }
    assert(p.requests =~= q.requests) by {
        assert forall|a: int| 0 <= a < n implies p.requests[a] == q.requests[a] by {
            assert(named(psp, psp.request_durations.len() as int, a));
            let i = request_row(psp, a);
            let row = psp.request_durations[i];
            assert(row.job_number == a);
            assert(dag.requests[a]@.map_values(|x: usize| x as int) == demands(row));
            assert(p.requests[a] =~= dag.requests[a]@.map_values(|x: usize| x as int));
        }
    }
    assert(p.capacities =~= q.capacities);
    assert(p.edges =~= q.edges);
    assert(p == q);
    assert forall|u: int, v: int| #[trigger] p.edges.contains((u, v)) implies 0 <= u < n && 0 <= v
        < n by {
        assert(listed(psp, u, v));
        let (r, s) = choose|r: int, s: int|
            0 <= r < psp.precedence_relations.len() && 0 <= s
                < psp.precedence_relations[r].successors.len()
                && psp.precedence_relations[r].job_number == u
                && #[trigger] psp.precedence_relations[r].successors[s] == v;
        assert(!relation_bad(psp, r));
        assert(!successor_bad(psp, r, s));
    }
    assert forall|a: int, k: int| 0 <= a < n && 0 <= k < RESOURCES implies 0
        <= #[trigger] p.requests[a][k] <= 255 by {
        assert(dag.requests[a][k] <= 255);
    }
    assert forall|a: int| 0 <= a < n implies (#[trigger] p.requests[a]).len() == RESOURCES by {
        assert(dag.requests[a].len() == RESOURCES);
    }
    assert(p.shaped());
}

} // verus!
