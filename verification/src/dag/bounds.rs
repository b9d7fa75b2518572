//! The critical path: the longest chain of activities by duration, which no
//! schedule can beat.

use crate::dag::DAG;
use crate::order::occurs;
use crate::project::Project;
use crate::serial::lemma_makespan_is_latest_end;
use crate::serial::lemma_schedule_feasible;
use crate::util::copy_bytes;
use vstd::prelude::*;

verus! {

/// The activities of a path as numbers.
pub open spec fn as_path(path: Seq<u8>) -> Seq<int> {
    path.map_values(|a: u8| a as int)
}

/// A path as it runs from the source to the sink, whichever way it is given.
pub open spec fn forward_path(path: Seq<u8>, reversed: bool) -> Seq<int> {
    if reversed {
        as_path(path).reverse()
    } else {
        as_path(path)
    }
}

impl Project {
    /// `path` is a chain of activities, each a successor of the one before.
    pub open spec fn is_path(self, path: Seq<int>) -> bool {
        &&& path.len() >= 1
        &&& forall|i: int| 0 <= i < path.len() ==> 0 <= #[trigger] path[i] < self.jobs()
        &&& forall|i: int, j: int|
            0 <= i < path.len() && j == i + 1 && j < path.len() ==> self.edges.contains(
                (#[trigger] path[i], #[trigger] path[j]),
            )
    }

    /// What activity `a` counts for on a path: its duration, or 1 where paths
    /// are measured by the number of their activities.
    pub open spec fn weight(self, by_count: bool, a: int) -> int {
        if by_count {
            1
        } else {
            self.durations[a]
        }
    }

    /// What the activities of `path` count for together.
    pub open spec fn path_weight(self, by_count: bool, path: Seq<int>) -> int
        decreases path.len(),
    {
        if path.len() == 0 {
            0
        } else {
            self.path_weight(by_count, path.drop_last()) + self.weight(by_count, path.last())
        }
    }

    /// The sum of the durations along `path`.
    pub open spec fn path_length(self, path: Seq<int>) -> int {
        self.path_weight(false, path)
    }

    /// `path` is a path that ends at `a`.
    pub open spec fn ends_at(self, path: Seq<int>, a: int) -> bool {
        self.is_path(path) && path.last() == a
    }

    /// `path` leads from the source to `a`, and no path that ends at `a`
    /// counts for more.
    pub open spec fn heaviest_to(self, by_count: bool, path: Seq<int>, a: int) -> bool {
        &&& self.ends_at(path, a)
        &&& path[0] == 0
        &&& forall|other: Seq<int>| #[trigger]
            self.ends_at(other, a) ==> self.path_weight(by_count, other) <= self.path_weight(
                by_count,
                path,
            )
    }

    /// `path` leads from the source to `a`, and no path that ends at `a` is
    /// longer.
    pub open spec fn longest_to(self, path: Seq<int>, a: int) -> bool {
        self.heaviest_to(false, path, a)
    }

    /// `path` is a critical path: a longest path from the source to the sink.
    pub open spec fn critical(self, path: Seq<int>) -> bool {
        self.longest_to(path, self.sink())
    }

    /// `path` is a path from the source to the sink with as many activities
    /// as any.
    pub open spec fn longest_chain(self, path: Seq<int>) -> bool {
        self.heaviest_to(true, path, self.sink())
    }
}

/// Measured by the number of its activities, a path counts for its length.
pub proof fn lemma_count_is_length(p: Project, path: Seq<int>)
    ensures
        p.path_weight(true, path) == path.len(),
    decreases path.len(),
{
    if path.len() > 0 {
        lemma_count_is_length(p, path.drop_last());
    }
}

/// A path without its last activity is a path that ends at a predecessor.
proof fn lemma_path_prefix(p: Project, path: Seq<int>)
    requires
        p.is_path(path),
        path.len() >= 2,
    ensures
        p.ends_at(path.drop_last(), path[path.len() - 2]),
        p.edges.contains((path[path.len() - 2], path.last())),
{
    let shorter = path.drop_last();
    assert forall|i: int, j: int|
        0 <= i < shorter.len() && j == i + 1 && j < shorter.len() implies p.edges.contains(
        (#[trigger] shorter[i], #[trigger] shorter[j]),
    ) by {
        assert(p.edges.contains((path[i], path[j])));
    }
    assert forall|i: int| 0 <= i < shorter.len() implies 0 <= #[trigger] shorter[i] < p.jobs() by {
        assert(shorter[i] == path[i]);
    }
    let i = path.len() - 2;
    let j = path.len() - 1;
    assert(p.edges.contains((path[i], path[j])));
}

/// A path with a successor of its end appended is a path.
proof fn lemma_path_extend(p: Project, by_count: bool, path: Seq<int>, a: int)
    requires
        p.is_path(path),
        p.edges.contains((path.last(), a)),
        0 <= a < p.jobs(),
    ensures
        p.ends_at(path.push(a), a),
        p.path_weight(by_count, path.push(a)) == p.path_weight(by_count, path) + p.weight(
            by_count,
            a,
        ),
        path.push(a)[0] == path[0],
{
    let longer = path.push(a);
    assert(longer.drop_last() =~= path);
    assert forall|i: int, j: int|
        0 <= i < longer.len() && j == i + 1 && j < longer.len() implies p.edges.contains(
        (#[trigger] longer[i], #[trigger] longer[j]),
    ) by {
        if j < path.len() {
            assert(p.edges.contains((path[i], path[j])));
        }
    }
}

/// A path with a predecessor of its start put before it is a path.
proof fn lemma_path_prepend(p: Project, a: int, path: Seq<int>)
    requires
        p.is_path(path),
        p.edges.contains((a, path[0])),
        0 <= a < p.jobs(),
    ensures
        p.is_path(seq![a] + path),
        (seq![a] + path)[0] == a,
        (seq![a] + path).last() == path.last(),
{
    let longer = seq![a] + path;
    assert forall|i: int, j: int|
        0 <= i < longer.len() && j == i + 1 && j < longer.len() implies p.edges.contains(
        (#[trigger] longer[i], #[trigger] longer[j]),
    ) by {
        if i >= 1 {
            assert(longer[i] == path[i - 1] && longer[j] == path[j - 1]);
            assert(p.edges.contains((path[i - 1], path[j - 1])));
        } else {
            assert(longer[j] == path[0]);
        }
    }
    assert forall|i: int| 0 <= i < longer.len() implies 0 <= #[trigger] longer[i] < p.jobs() by {
        if i >= 1 {
            assert(longer[i] == path[i - 1]);
        }
    }
}

/// The highest of the first `m` levels, 0 at least.
spec fn highest(level: Seq<int>, m: int) -> int
    decreases m,
{
    if m <= 0 {
        0
    } else if level[m - 1] > highest(level, m - 1) {
        level[m - 1]
    } else {
        highest(level, m - 1)
    }
}

/// No level is above the highest.
proof fn lemma_highest(level: Seq<int>, m: int)
    requires
        0 <= m <= level.len(),
    ensures
        forall|a: int| 0 <= a < m ==> #[trigger] level[a] <= highest(level, m),
    decreases m,
{
    if m > 0 {
        lemma_highest(level, m - 1);
    }
}

/// A path leads from the source to every activity.
proof fn lemma_path_from_source(p: Project, level: Seq<int>, a: int) -> (path: Seq<int>)
    requires
        p.valid(),
        p.levelled_by(level),
        0 <= a < p.jobs(),
    ensures
        p.ends_at(path, a),
        path[0] == 0,
    decreases level[a],
{
    if a == 0 {
        seq![0int]
    } else {
        assert(p.connected(a));
        assert(p.has_predecessor(a));
        let u = choose|u: int| p.edges.contains((u, a));
        assert(0 <= u < p.jobs());
        let before = lemma_path_from_source(p, level, u);
        lemma_path_extend(p, false, before, a);
        before.push(a)
    }
}

/// A path leads from every activity to the sink.
proof fn lemma_path_to_sink(p: Project, level: Seq<int>, top: int, a: int) -> (path: Seq<int>)
    requires
        p.valid(),
        p.levelled_by(level),
        forall|b: int| 0 <= b < p.jobs() ==> #[trigger] level[b] <= top,
        0 <= a < p.jobs(),
    ensures
        p.ends_at(path, p.sink()),
        path[0] == a,
    decreases top - level[a],
{
    if a == p.sink() {
        seq![a]
    } else {
        assert(p.connected(a));
        assert(p.has_successor(a));
        let v = choose|v: int| p.edges.contains((a, v));
        assert(0 <= v < p.jobs());
        assert(level[v] <= top);
        let behind = lemma_path_to_sink(p, level, top, v);
        lemma_path_prepend(p, a, behind);
        seq![a] + behind
    }
}

/// Two paths, the second of which begins where the first ends, make one.
proof fn lemma_path_join(p: Project, first: Seq<int>, second: Seq<int>)
    requires
        p.is_path(first),
        p.is_path(second),
        first.last() == second[0],
    ensures
        p.is_path(first + second.drop_first()),
        (first + second.drop_first())[0] == first[0],
        (first + second.drop_first()).last() == second.last(),
        (first + second.drop_first()).contains(first.last()),
{
    let rest = second.drop_first();
    let whole = first + rest;
    assert(whole[first.len() - 1] == first.last());
    assert forall|i: int| 0 <= i < whole.len() implies 0 <= #[trigger] whole[i] < p.jobs() by {
        if i >= first.len() {
            assert(whole[i] == second[i - first.len() + 1]);
        } else {
            assert(whole[i] == first[i]);
        }
    }
    assert forall|i: int, j: int|
        0 <= i < whole.len() && j == i + 1 && j < whole.len() implies p.edges.contains(
        (#[trigger] whole[i], #[trigger] whole[j]),
    ) by {
        if j < first.len() {
            assert(whole[i] == first[i] && whole[j] == first[j]);
            assert(p.edges.contains((first[i], first[j])));
        } else {
            let x = i - first.len() + 1;
            let y = j - first.len() + 1;
            assert(whole[j] == second[y]);
            if i >= first.len() {
                assert(whole[i] == second[x]);
            } else {
                assert(whole[i] == first.last());
                assert(second[x] == first.last());
            }
            assert(p.edges.contains((second[x], second[y])));
        }
    }
}

/// Every activity of a valid project lies on a path from the source to the
/// sink.
pub proof fn lemma_on_a_path(p: Project, a: int) -> (path: Seq<int>)
    requires
        p.valid(),
        0 <= a < p.jobs(),
    ensures
        p.is_path(path),
        path[0] == 0,
        path.last() == p.sink(),
        path.contains(a),
{
    let level = choose|level: Seq<int>| p.levelled_by(level);
    lemma_highest(level, p.jobs());
    let first = lemma_path_from_source(p, level, a);
    let second = lemma_path_to_sink(p, level, highest(level, p.jobs()), a);
    lemma_path_join(p, first, second);
    first + second.drop_first()
}

/// No path is longer than the time at which its last activity ends in a
/// serial schedule, and so none is longer than the makespan.
pub proof fn lemma_makespan_covers_path(p: Project, order: Seq<u8>, path: Seq<int>)
    requires
        p.valid(),
        p.topological(order),
        p.is_path(path),
    ensures
        p.path_length(path) <= p.start_times(order)[path.last()] + p.durations[path.last()],
        p.path_length(path) <= p.makespan(order),
    decreases path.len(),
{
    lemma_schedule_feasible(p, order);
    lemma_makespan_is_latest_end(p, order);
    let a = path.last();
    assert(0 <= p.start_times(order)[a]);
    if path.len() == 1 {
        assert(path.drop_last().len() == 0);
        assert(p.path_weight(false, path.drop_last()) == 0);
    } else {
        lemma_path_prefix(p, path);
        lemma_makespan_covers_path(p, order, path.drop_last());
    }
    assert(p.start_times(order)[a] + p.durations[a] <= p.makespan(order));
}

/// Along a path the activities end one after the other in a serial schedule.
proof fn lemma_ends_along_path(p: Project, order: Seq<u8>, path: Seq<int>)
    requires
        p.valid(),
        p.topological(order),
        p.is_path(path),
    ensures
        p.finish(p.start_times(order), path[0]) <= p.finish(p.start_times(order), path.last()),
    decreases path.len(),
{
    if path.len() >= 2 {
        lemma_schedule_feasible(p, order);
        lemma_path_prefix(p, path);
        lemma_ends_along_path(p, order, path.drop_last());
        assert(0 <= p.durations[path.last()]);
    }
}

/// The makespan is the time at which the sink starts.
pub proof fn lemma_makespan_is_sink_start(p: Project, order: Seq<u8>)
    requires
        p.valid(),
        p.topological(order),
    ensures
        p.makespan(order) == p.start_times(order)[p.sink()],
{
    let s = p.start_times(order);
    let level = choose|level: Seq<int>| p.levelled_by(level);
    lemma_highest(level, p.jobs());
    lemma_makespan_is_latest_end(p, order);
    let a = choose|a: int| 0 <= a < p.jobs() && s[a] + #[trigger] p.durations[a] == p.makespan(order);
    let path = lemma_path_to_sink(p, level, highest(level, p.jobs()), a);
    lemma_ends_along_path(p, order, path);
    assert(s[p.sink()] + p.durations[p.sink()] <= p.makespan(order));
}

/// The makespan of a topological order is at least the length of a critical
/// path.
pub proof fn lemma_makespan_at_least_critical(p: Project, order: Seq<u8>, path: Seq<int>)
    requires
        p.valid(),
        p.topological(order),
        p.critical(path),
    ensures
        p.path_length(path) <= p.makespan(order),
{
    lemma_makespan_covers_path(p, order, path);
}

/// The longest paths found so far, one for each activity among the first
/// `done` of the order.
spec fn longest_found(
    p: Project,
    by_count: bool,
    order: Seq<u8>,
    done: int,
    best: Seq<usize>,
    paths: Seq<Vec<u8>>,
) -> bool {
    &&& best.len() == p.jobs()
    &&& paths.len() == p.jobs()
    &&& forall|i: int|
        0 <= i < done ==> {
            let a = #[trigger] order[i] as int;
            &&& p.heaviest_to(by_count, as_path(paths[a]@), a)
            &&& best[a] == p.path_weight(by_count, as_path(paths[a]@))
            &&& best[a] <= 255 * (i + 1)
        }
}

impl DAG {
    /// The predecessor of `a` to which the longest path leads, if `a` has a
    /// predecessor.
    fn longest_predecessor(&self, best: &Vec<usize>, a: usize) -> (found: Option<u8>)
        requires
            self.wf(),
            a < self@.jobs(),
            best.len() == self@.jobs(),
        ensures
            match found {
                Some(u) => {
                    &&& self@.edges.contains((u as int, a as int))
                    &&& forall|w: int| #[trigger]
                        self@.edges.contains((w, a as int)) ==> best[w] <= best[u as int]
                },
                None => !self@.has_predecessor(a as int),
            },
    {
        let ghost p = self@;
        let list = &self.predecessors[a];
        if list.len() == 0 {
            proof {
                if p.has_predecessor(a as int) {
                    let u = choose|u: int| p.edges.contains((u, a as int));
                    assert(list@.contains(u as u8));
                }
            }
            return None;
        }
        let mut found: u8 = list[0];
        assert(p.edges.contains((list[0] as int, a as int)));
        let mut i: usize = 1;
        while i < list.len()
            invariant
                self.wf(),
                p == self@,
                a < p.jobs(),
                best.len() == p.jobs(),
                list == &self.predecessors[a as int],
                1 <= i <= list.len(),
                p.edges.contains((found as int, a as int)),
                forall|j: int| 0 <= j < i ==> best[#[trigger] list[j] as int] <= best[found as int],
            decreases list.len() - i,
        {
            let u = list[i];
            assert(p.edges.contains((u as int, a as int)));
            assert(0 <= u < p.jobs());
            assert(0 <= found < p.jobs());
            if best[u as usize] > best[found as usize] {
                found = u;
            }
            i += 1;
        }
        proof {
            assert forall|w: int| #[trigger] p.edges.contains((w, a as int)) implies best[w]
                <= best[found as int] by {
                assert(list@.contains(w as u8));
                let j = choose|j: int| 0 <= j < list.len() && list[j] == w as u8;
                assert(0 <= w < p.jobs());
                assert(best[list[j] as int] <= best[found as int]);
            }
        }
        Some(found)
    }

    /// The path from the source to the sink that counts for most, and what
    /// it counts for: each activity counts for its duration, or for 1 with
    /// `by_count`.
    fn heaviest_path(&self, by_count: bool) -> (found: (usize, Vec<u8>))
        requires
            self.wf(),
        ensures
            self@.heaviest_to(by_count, as_path(found.1@), self@.sink()),
            found.0 == self@.path_weight(by_count, as_path(found.1@)),
    {
        let ghost p = self@;
        let n = self.durations.len();
        let order = self.compute_initial_schedule();
        let mut best: Vec<usize> = Vec::new();
        let mut paths: Vec<Vec<u8>> = Vec::new();
        let mut a: usize = 0;
        while a < n
            invariant
                a <= n,
                best.len() == a,
                paths.len() == a,
            decreases n - a,
        {
            best.push(0);
            paths.push(Vec::new());
            a += 1;
        }
        let mut i: usize = 0;
        while i < n
            invariant
                self.wf(),
                p == self@,
                n == p.jobs(),
                p.topological(order@),
                i <= n,
                longest_found(p, by_count, order@, i as int, best@, paths@),
            decreases n - i,
        {
            let a = order[i] as usize;
            let ghost best0 = best@;
            let ghost paths0 = paths@;
            assert(0 <= order[i as int] < p.jobs());
            let found = self.longest_predecessor(&best, a);
            let mut path: Vec<u8>;
            let length: usize;
            match found {
                Some(u) => {
                    proof {
                        assert(0 <= u < p.jobs());
                        assert(occurs(order@, u as int));
                        let j = choose|j: int| 0 <= j < order@.len() && #[trigger] order@[j] == u;
                        assert(p.edges.contains((order@[j] as int, order@[i as int] as int)));
                        assert(j < i);
                        assert(p.heaviest_to(by_count, as_path(paths[u as int]@), u as int));
                        assert(best[u as int] <= 255 * (j + 1));
                    }
                    path = copy_bytes(paths[u as usize].as_slice());
                    path.push(a as u8);
                    length = best[u as usize] + if by_count {
                        1
                    } else {
                        self.durations[a] as usize
                    };
                    proof {
                        let before = as_path(paths[u as int]@);
                        assert(as_path(path@) =~= before.push(a as int));
                        lemma_path_extend(p, by_count, before, a as int);
                        assert forall|other: Seq<int>| #[trigger]
                            p.ends_at(other, a as int) implies p.path_weight(by_count, other)
                            <= p.path_weight(by_count, as_path(path@)) by {
                            if other.len() == 1 {
                                assert(other.drop_last().len() == 0);
                                assert(p.path_weight(by_count, other.drop_last()) == 0);
                                assert(0 <= p.path_weight(by_count, before)) by {
                                    assert(best[u as int] == p.path_weight(by_count, before));
                                }
                            } else {
                                lemma_path_prefix(p, other);
                                let w = other[other.len() - 2];
                                assert(p.edges.contains((w, a as int)));
                                assert(best[w] <= best[u as int]);
                                assert(occurs(order@, w));
                                let j = choose|j: int|
                                    0 <= j < order@.len() && #[trigger] order@[j] == w;
                                assert(p.edges.contains(
                                    (order@[j] as int, order@[i as int] as int),
                                ));
                                assert(j < i);
                                assert(p.heaviest_to(by_count, as_path(paths[w]@), w));
                                assert(p.ends_at(other.drop_last(), w));
                                assert(p.path_weight(by_count, other.drop_last()) <= best[w]);
                            }
                        }
                    }
                },
                None => {
                    path = Vec::new();
                    path.push(a as u8);
                    length = if by_count {
                        1
                    } else {
                        self.durations[a] as usize
                    };
                    proof {
                        assert(p.connected(a as int));
                        assert(a == 0);
                        let single = as_path(path@);
                        assert(single =~= seq![a as int]);
                        assert(single.drop_last().len() == 0);
                        assert(p.path_weight(by_count, single.drop_last()) == 0);
                        assert(p.is_path(single));
                        assert forall|other: Seq<int>| #[trigger]
                            p.ends_at(other, a as int) implies p.path_weight(by_count, other)
                            <= p.path_weight(by_count, single) by {
                            if other.len() == 1 {
                                assert(other.drop_last().len() == 0);
                                assert(p.path_weight(by_count, other.drop_last()) == 0);
                            } else {
                                lemma_path_prefix(p, other);
                                assert(p.has_predecessor(a as int));
                            }
                        }
                    }
                },
            }
            best[a] = length;
            paths[a] = path;
            proof {
                assert forall|j: int| 0 <= j < i + 1 implies {
                    let b = #[trigger] order@[j] as int;
                    &&& p.heaviest_to(by_count, as_path(paths[b]@), b)
                    &&& best[b] == p.path_weight(by_count, as_path(paths[b]@))
                    &&& best[b] <= 255 * (j + 1)
                } by {
                    if j < i {
                        assert(order@[j] != order@[i as int]);
                        let b = order@[j] as int;
                        assert(paths[b] == paths0[b]);
                        assert(best[b] == best0[b]);
                    }
                }
            }
            i += 1;
        }
        let sink = n - 1;
        proof {
            assert(occurs(order@, sink as int));
            let j = choose|j: int| 0 <= j < order@.len() && #[trigger] order@[j] == sink;
            assert(p.heaviest_to(by_count, as_path(paths[sink as int]@), sink as int));
        }
        (best[sink], copy_bytes(paths[sink].as_slice()))
    }

    /// A critical path and its length: the longest path from the source to
    /// the sink by duration, which is a lower bound of every makespan. With
    /// `reversed` the path is given from the sink back to the source.
    pub fn compute_lower_bound(&self, reversed: bool) -> (bound: Option<(usize, Vec<u8>)>)
        requires
            self.wf(),
        ensures
            bound is Some,
            self@.critical(forward_path(bound.unwrap().1@, reversed)),
            bound.unwrap().0 == self@.path_length(forward_path(bound.unwrap().1@, reversed)),
    {
        let (length, forward) = self.heaviest_path(false);
        if reversed {
            let mut backward: Vec<u8> = Vec::new();
            let mut k: usize = forward.len();
            while k > 0
                invariant
                    k <= forward.len(),
                    backward.len() == forward.len() - k,
                    forall|j: int|
                        0 <= j < backward.len() ==> backward[j] == forward[forward.len() - 1 - j],
                decreases k,
            {
                k -= 1;
                backward.push(forward[k]);
            }
            proof {
                assert(as_path(backward@).reverse() =~= as_path(forward@));
            }
            Some((length, backward))
        } else {
            Some((length, forward))
        }
    }

    /// A path from the source to the sink with as many activities, and so
    /// with as many edges, as any.
    pub fn find_longest_path(&self) -> (path: Option<Vec<u8>>)
        requires
            self.wf(),
        ensures
            path is Some,
            self@.longest_chain(as_path(path.unwrap()@)),
    {
        let (count, path) = self.heaviest_path(true);
        Some(path)
    }
}

} // verus!
