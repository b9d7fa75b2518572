//! The serial schedule generator: from an order to start times and makespan.

use crate::dag::DAG;
use crate::order::with_swap;
use crate::project::Project;
use crate::project::RESOURCES;
use crate::serial::lemma_elapsed_bounds;
use crate::serial::lemma_elapsed_is_horizon;
use crate::serial::lemma_load_update;
use crate::serial::lemma_precedence_start_unique;
use crate::serial::lemma_schedule_next;
use crate::serial::lemma_serial_scheduled;
use crate::serial::next_start;
use crate::sources_load::need;
use crate::sources_load::time_resolution::TimeResolution;
use crate::sources_load::SourcesLoad;
use crate::util::copy_numbers;
use vstd::prelude::*;

verus! {

/// The activity that stands for `job` once the swap is applied.
pub fn swapped(job: u8, swap: Option<(u8, u8)>) -> (other: u8)
    ensures
        other == match swap {
            Some((i, j)) => if job == i {
                j
            } else if job == j {
                i
            } else {
                job
            },
            None => job,
        },
{
    match swap {
        Some((i, j)) => {
            if job == i {
                j
            } else if job == j {
                i
            } else {
                job
            }
        },
        None => job,
    }
}

/// The time elapsed grows with the number of activities.
proof fn lemma_elapsed_monotonic(p: Project, order: Seq<u8>, n: int, m: int)
    requires
        p.shaped(),
        crate::order::is_permutation(order, p.jobs()),
        0 <= n <= m <= p.jobs(),
    ensures
        p.elapsed(order, n) <= p.elapsed(order, m),
    decreases m - n,
{
    if n < m {
        lemma_elapsed_monotonic(p, order, n, m - 1);
        assert(0 <= order[m - 1] < p.jobs());
    }
}

impl DAG {
    /// The earliest start that precedence allows to `a`.
    fn precedence_start(&self, starts: &Vec<usize>, a: u8) -> (earliest: usize)
        requires
            self.wf(),
            a < self@.jobs(),
            starts.len() == self@.jobs(),
            forall|u: int| 0 <= u < starts.len() ==> #[trigger] starts[u] <= 255 * 256,
        ensures
            earliest == self@.precedence_start(starts@.map_values(|s: usize| s as int), a as int),
    {
        let ghost p = self@;
        let ghost times = starts@.map_values(|s: usize| s as int);
        let list = &self.predecessors[a as usize];
        let mut earliest: usize = 0;
        let mut i: usize = 0;
        while i < list.len()
            invariant
                self.wf(),
                p == self@,
                a < p.jobs(),
                list == &self.predecessors[a as int],
                starts.len() == p.jobs(),
                times == starts@.map_values(|s: usize| s as int),
                forall|u: int| 0 <= u < starts.len() ==> #[trigger] starts[u] <= 255 * 256,
                i <= list.len(),
                forall|j: int| 0 <= j < i ==> p.finish(times, #[trigger] list[j] as int) <= earliest,
                earliest == 0 || exists|j: int|
                    0 <= j < i && p.finish(times, #[trigger] list[j] as int) == earliest,
            decreases list.len() - i,
        {
            let u = list[i];
            assert(p.edges.contains((u as int, a as int)));
            assert(0 <= u < p.jobs());
            let end = starts[u as usize] + self.durations[u as usize] as usize;
            assert(end == p.finish(times, u as int));
            if end > earliest {
                earliest = end;
            } else if earliest != 0 {
                let ghost j = choose|j: int|
                    0 <= j < i && p.finish(times, #[trigger] list[j] as int) == earliest;
                assert(0 <= j < i + 1);
            }
            i += 1;
        }
        proof {
            assert forall|u: int| #[trigger] p.edges.contains((u, a as int)) implies p.finish(
                times,
                u,
            ) <= earliest by {
                assert(list@.contains(u as u8));
                let j = choose|j: int| 0 <= j < list.len() && list[j] == u as u8;
                assert(0 <= u < p.jobs());
                assert(list[j] as int == u);
            }
            if earliest != 0 {
                let j = choose|j: int|
                    0 <= j < i && p.finish(times, #[trigger] list[j] as int) == earliest;
                assert(p.edges.contains((list[j] as int, a as int)));
            }
            lemma_precedence_start_unique(p, times, a as int, earliest as int);
        }
        earliest
    }

    /// The start time of every activity in the serial schedule of the order,
    /// the two activities of `swap` taken in each other's place.
    pub fn compute_start_times(&self, schedule: &[u8], swap: Option<(u8, u8)>) -> (starts: Vec<
        usize,
    >)
        requires
            self.wf(),
            self@.topological(with_swap(schedule@, swap)),
        ensures
            starts@.map_values(|s: usize| s as int) == self@.start_times(
                with_swap(schedule@, swap),
            ),
    {
        let ghost p = self@;
        let ghost order = with_swap(schedule@, swap);
        let n = schedule.len();
        let horizon = self.compute_upper_bound();
        proof {
            lemma_elapsed_is_horizon(p, order);
            lemma_elapsed_bounds(p, order, p.jobs());
        }
        let mut load = TimeResolution::new(RESOURCES, copy_numbers(self.capacities.as_slice()), horizon);
        let mut starts: Vec<usize> = Vec::new();
        let mut a: usize = 0;
        while a < n
            invariant
                a <= n,
                starts.len() == a,
                forall|b: int| 0 <= b < a ==> #[trigger] starts[b] == 0,
            decreases n - a,
        {
            starts.push(0);
            a += 1;
        }
        proof {
            lemma_serial_scheduled(p, order, 0);
            assert(starts@.map_values(|s: usize| s as int) =~= p.serial_starts(order, 0));
            assert forall|k: int, x: int| 0 <= k < RESOURCES && 0 <= x < horizon implies #[trigger] load.free(
                k,
                x,
            ) == p.capacities[k] - p.load(order, p.serial_starts(order, 0), 0, k, x) by {
                assert(need(self.capacities@, k) == p.capacities[k]);
            }
        }
        let mut i: usize = 0;
        while i < n
            invariant
                self.wf(),
                p == self@,
                p.topological(order),
                order == with_swap(schedule@, swap),
                n == schedule.len(),
                n == p.jobs(),
                i <= n,
                horizon == p.elapsed(order, p.jobs()),
                horizon <= 255 * 256,
                starts.len() == n,
                starts@.map_values(|s: usize| s as int) == p.serial_starts(order, i as int),
                p.scheduled(order, p.serial_starts(order, i as int), i as int),
                load.well_formed(),
                load.resources() == RESOURCES,
                load.slots() == horizon,
                forall|k: int, x: int|
                    0 <= k < RESOURCES && 0 <= x < horizon ==> #[trigger] load.free(k, x)
                        == p.capacities[k] - p.load(
                        order,
                        p.serial_starts(order, i as int),
                        i as int,
                        k,
                        x,
                    ),
            decreases n - i,
        {
            let ghost before = p.serial_starts(order, i as int);
            let ghost times = starts@.map_values(|s: usize| s as int);
            let a = swapped(schedule[i], swap);
            assert(a == order[i as int]);
            assert(0 <= order[i as int] < p.jobs());
            proof {
                lemma_elapsed_bounds(p, order, i as int);
                lemma_elapsed_monotonic(p, order, i as int, i as int + 1);
                lemma_elapsed_monotonic(p, order, i as int + 1, p.jobs());
                assert forall|u: int| 0 <= u < starts.len() implies #[trigger] starts[u] <= 255
                    * 256 by {
                    assert(times[u] == starts[u]);
                    if crate::order::placed(order, i as int, u) {
                        let j = choose|j: int|
                            0 <= j < i && j < order.len() && #[trigger] order[j] == u;
                        assert(p.finish(before, order[j] as int) <= p.elapsed(order, i as int));
                        assert(0 <= p.durations[u]);
                    } else {
                        assert(before[u] == 0);
                    }
                }
            }
            let earliest = self.precedence_start(&starts, a);
            let duration = self.durations[a as usize] as usize;
            let requirements = self.requests[a as usize].as_slice();
            let ghost fit = lemma_schedule_next(p, order, i as int);
            assert(next_start(p, order, i as int, fit));
            assert(p.elapsed(order, i as int + 1) == p.elapsed(order, i as int) + duration);
            assert forall|k: int| 0 <= k < RESOURCES implies need(requirements@, k)
                == #[trigger] p.requests[a as int][k] by {}
            let start = load.get_earliest_start_time(requirements, earliest, duration);
            proof {
                if start > fit {
                    assert(load.blocked(requirements@, fit, duration as int));
                    let x = choose|x: int|
                        fit <= x < fit + duration && x < load.slots() && !#[trigger] load.slot_open(
                            requirements@,
                            x,
                        );
                    assert forall|k: int| 0 <= k < load.resources() implies need(requirements@, k)
                        <= #[trigger] load.free(k, x) by {
                        assert(p.load(order, before, i as int, k, x) + p.requests[a as int][k]
                            <= p.capacities[k]);
                    }
                    assert(false);
                }
                if start < fit {
                    assert forall|k: int, x: int|
                        0 <= k < RESOURCES && start <= x < start + p.durations[a as int] implies #[trigger] p.load(
                        order,
                        before,
                        i as int,
                        k,
                        x,
                    ) + p.requests[a as int][k] <= p.capacities[k] by {
                        assert(load.slot_open(requirements@, x));
                        assert(need(requirements@, k) <= load.free(k, x));
                    }
                    assert(p.fits(order, before, i as int, a as int, start as int));
                    assert(false);
                }
                assert forall|x: int| start <= x < start + duration implies #[trigger] load.slot_open(
                    requirements@,
                    x,
                ) by {}
            }
            load.add_activity(start, start + duration, requirements);
            starts[a as usize] = start;
            proof {
                let after = p.serial_starts(order, i as int + 1);
                assert(starts@.map_values(|s: usize| s as int) =~= after);
                assert forall|k: int, x: int| 0 <= k < RESOURCES && 0 <= x < horizon implies #[trigger] load.free(
                    k,
                    x,
                ) == p.capacities[k] - p.load(order, after, i as int + 1, k, x) by {
                    lemma_load_update(p, order, before, i as int, a as int, fit, k, x);
                }
            }
            i += 1;
        }
        starts
    }

    /// The makespan of the serial schedule of the order, the two activities of
    /// `swap` taken in each other's place. The order itself is left as it is.
    pub fn compute_execution_time(&self, schedule: &[u8], swap: Option<(u8, u8)>) -> (makespan:
        usize)
        requires
            self.wf(),
            self@.topological(with_swap(schedule@, swap)),
        ensures
            makespan == self@.makespan(with_swap(schedule@, swap)),
    {
        let ghost p = self@;
        let ghost order = with_swap(schedule@, swap);
        let starts = self.compute_start_times(schedule, swap);
        let ghost times = starts@.map_values(|s: usize| s as int);
        let n = self.durations.len();
        proof {
            lemma_serial_scheduled(p, order, p.jobs());
            lemma_elapsed_bounds(p, order, p.jobs());
        }
        let mut makespan: usize = 0;
        let mut a: usize = 0;
        while a < n
            invariant
                self.wf(),
                p == self@,
                p.topological(order),
                n == p.jobs(),
                a <= n,
                times == p.start_times(order),
                times == starts@.map_values(|s: usize| s as int),
                p.scheduled(order, times, p.jobs()),
                p.elapsed(order, p.jobs()) <= 255 * 256,
                makespan == p.latest_end(times, a as int),
            decreases n - a,
        {
            assert(times[a as int] == starts[a as int]);
            assert(crate::order::occurs(order, a as int));
            let ghost j = choose|j: int| 0 <= j < order.len() && #[trigger] order[j] == a;
            assert(p.finish(times, order[j] as int) <= p.elapsed(order, p.jobs()));
            let end = starts[a] + self.durations[a] as usize;
            if end > makespan {
                makespan = end;
            }
            a += 1;
        }
        makespan
    }
}

impl DAG {
    /// Whether the order holds every activity once, each after all its
    /// predecessors: whether it can be evaluated.
    pub fn is_topological(&self, schedule: &[u8]) -> (valid: bool)
        requires
            self.wf(),
        ensures
            valid == self@.topological(schedule@),
    {
        let ghost p = self@;
        let ghost order = schedule@;
        let n = self.durations.len();
        if schedule.len() != n {
            return false;
        }
        let mut places: Vec<usize> = Vec::new();
        let mut a: usize = 0;
        while a < n
            invariant
                a <= n,
                places.len() == a,
                forall|b: int| 0 <= b < a ==> #[trigger] places[b] == n,
            decreases n - a,
        {
            places.push(n);
            a += 1;
        }
        let mut i: usize = 0;
        while i < n
            invariant
                self.wf(),
                p == self@,
                order == schedule@,
                n == p.jobs(),
                schedule.len() == n,
                places.len() == n,
                i <= n,
                forall|j: int| 0 <= j < i ==> (#[trigger] order[j] as int) < n && places[order[j] as int] == j,
                forall|b: int| 0 <= b < n ==> #[trigger] places[b] == n || (places[b] < i && order[places[b] as int] == b),
            decreases n - i,
        {
            let b = schedule[i] as usize;
            if b >= n {
                assert(!((order[i as int] as int) < n));
                return false;
            }
            if places[b] != n {
                proof {
                    let j = places[b as int] as int;
                    assert(order[j] == order[i as int]);
                    assert(j < i);
                    if crate::order::is_permutation(order, n as int) {
                        assert(order[j] != order[i as int]);
                    }
                }
                return false;
            }
            places[b] = i;
            i += 1;
        }
        proof {
            assert forall|j: int, k: int| 0 <= j < k < n implies #[trigger] order[j]
                != #[trigger] order[k] by {
                assert(places[order[j] as int] == j);
                assert(places[order[k] as int] == k);
            }
            crate::order::lemma_distinct_full(order, n as int);
        }
        let mut j: usize = 0;
        while j < n
            invariant
                self.wf(),
                p == self@,
                order == schedule@,
                n == p.jobs(),
                schedule.len() == n,
                places.len() == n,
                j <= n,
                crate::order::is_permutation(order, n as int),
                forall|k: int| 0 <= k < n ==> places[#[trigger] order[k] as int] == k,
                forall|u: int, k: int|
                    0 <= k < j && #[trigger] p.edges.contains((u, order[k] as int)) ==> places[u]
                        < k,
            decreases n - j,
        {
            let v = schedule[j] as usize;
            assert(0 <= order[j as int] < n);
            let list = &self.predecessors[v];
            let mut t: usize = 0;
            while t < list.len()
                invariant
                    self.wf(),
                    p == self@,
                    order == schedule@,
                    n == p.jobs(),
                    places.len() == n,
                    j < n,
                    v == order[j as int],
                    v < n,
                    list == &self.predecessors[v as int],
                    t <= list.len(),
                    crate::order::is_permutation(order, n as int),
                    forall|k: int| 0 <= k < n ==> places[#[trigger] order[k] as int] == k,
                    forall|s: int| 0 <= s < t ==> places[#[trigger] list[s] as int] < j,
                decreases list.len() - t,
            {
                let u = list[t] as usize;
                assert(p.edges.contains((list[t as int] as int, v as int)));
                assert(0 <= u < n);
                if places[u] >= j {
                    proof {
                        assert(crate::order::occurs(order, u as int));
                        let k = choose|k: int| 0 <= k < order.len() && #[trigger] order[k] == u;
                        assert(places[order[k] as int] == k);
                        assert(p.edges.contains((order[k] as int, order[j as int] as int)));
                        assert(!(k < j));
                    }
                    return false;
                }
                t += 1;
            }
            proof {
                assert forall|u: int, k: int|
                    0 <= k < j + 1 && #[trigger] p.edges.contains(
                        (u, order[k] as int),
                    ) implies places[u] < k by {
                    if k == j {
                        assert(list@.contains(u as u8));
                        let s = choose|s: int| 0 <= s < list.len() && list[s] == u as u8;
                        assert(0 <= u < n);
                        assert(places[list[s] as int] < j);
                    }
                }
            }
            j += 1;
        }
        proof {
            assert forall|i: int, k: int|
                0 <= i < order.len() && 0 <= k < order.len() && #[trigger] p.edges.contains(
                    (order[i] as int, order[k] as int),
                ) implies i < k by {
                assert(places[order[i] as int] == i);
            }
        }
        true
    }
}

} // verus!
