//! The tabu search with several walkers, which search in phases; between two
//! phases the worse half of the walkers starts anew near the better half.

use crate::dag::bounds::forward_path;
use crate::dag::bounds::lemma_makespan_at_least_critical;
use crate::dag::construct::project_of;
use crate::dag::ranks::mixed_order;
use crate::dag::DAG;
use crate::order::swap_ids;
use crate::problem::PspLibProblem;
use crate::project::Project;
use crate::random::pick_one;
use crate::scheduler::check_options;
use crate::scheduler::single_walker::search_error;
use crate::scheduler::walker::swap_jobs;
use crate::scheduler::walker::Walker;
use crate::scheduler::OptimizedSchedule;
use crate::scheduler::SchedulerError;
use crate::scheduler::SchedulerOptions;
use crate::scheduler::Walk;
use crate::util::copy_bytes;
use vstd::prelude::*;

verus! {

/// The share of the iterations of a walker that one phase gets is one in
/// this many.
pub const IMPROVEMENT_PARTITION: u32 = 10;

/// The first phase is as long as this many of the others.
pub const INITIAL_PHASES: u32 = 2;

/// The number of moves that a walker is taken away from the walker of which
/// it is a copy.
pub const DIVERSIFICATION_SWAPS: u32 = 20;

/// Walker `a` comes before walker `b`: its best makespan is smaller, or the
/// same and it has the smaller number.
pub open spec fn ranks_before(keys: Seq<usize>, a: int, b: int) -> bool {
    keys[a] < keys[b] || (keys[a] == keys[b] && a < b)
}

/// `order` lists the walkers from the best to the worst.
pub open spec fn is_ranking(keys: Seq<usize>, order: Seq<usize>) -> bool {
    &&& order.len() == keys.len()
    &&& forall|i: int| 0 <= i < order.len() ==> #[trigger] order[i] < keys.len()
    &&& forall|i: int, j: int|
        0 <= i < j < order.len() ==> ranks_before(
            keys,
            #[trigger] order[i] as int,
            #[trigger] order[j] as int,
        )
}

impl Project {
    /// `to` is what one move of the reduced neighbourhood of `from` makes of
    /// it; it is `from` itself where that neighbourhood is empty.
    pub open spec fn one_move(self, range: int, from: Seq<u8>, to: Seq<u8>) -> bool {
        if self.reduced_neighborhood(from, range).len() == 0 {
            to == from
        } else {
            exists|k: int|
                0 <= k < self.reduced_neighborhood(from, range).len() && to == swap_ids(
                    from,
                    (#[trigger] self.reduced_neighborhood(from, range)[k]).0,
                    self.reduced_neighborhood(from, range)[k].1,
                )
        }
    }

    /// `to` is reached from `from` by `count` moves, each of the reduced
    /// neighbourhood of the order that it is made on.
    pub open spec fn within_moves(self, range: int, from: Seq<u8>, to: Seq<u8>, count: nat) -> bool
        decreases count,
    {
        if count == 0 {
            to == from
        } else {
            exists|mid: Seq<u8>|
                self.within_moves(range, from, mid, (count - 1) as nat) && #[trigger] self.one_move(
                    range,
                    mid,
                    to,
                )
        }
    }

    /// `copy` is a walker that starts anew near `source`: some moves away
    /// from its best schedule, with the tabu memory that belongs to it.
    pub open spec fn near_copy(self, range: int, source: Walk, copy: Walk) -> bool {
        &&& self.within_moves(
            range,
            source.best_schedule,
            copy.schedule,
            DIVERSIFICATION_SWAPS as nat,
        )
        &&& copy.tabu == source.best_tabu
        &&& copy.best_schedule == copy.schedule
        &&& copy.best_duration == self.makespan(copy.schedule)
        &&& copy.best_tabu == source.best_tabu
        &&& copy.iter_since_best == 0
        &&& copy.reset_counter == 0
    }

    /// `duration` is no more than the best makespan that a walker reaches from
    /// the initial order in the first phase of the search.
    pub open spec fn kept_from_first_phase(self, options: SchedulerOptions, duration: int) -> bool {
        exists|initial: Seq<u8>, path: Seq<int>|
            #![trigger self.initial_order(initial), self.critical(path)]
            self.initial_order(initial) && self.critical(path) && duration <= self.run(
                options,
                self.path_length(path),
                self.start(initial, options.tabu_list_size as int),
                first_phase(options) as nat,
            ).best_duration
    }

    /// `schedule` is a topological order, and `duration` its makespan.
    pub open spec fn rated(self, schedule: Seq<u8>, duration: int) -> bool {
        self.topological(schedule) && duration == self.makespan(schedule)
    }
}

/// The number of iterations of each further phase: a tenth of the share of
/// one walker in the iterations.
pub open spec fn further_phase(options: SchedulerOptions) -> int {
    options.number_of_iterations as int / options.schedule_count as int
        / IMPROVEMENT_PARTITION as int
}

/// The number of iterations of the first phase.
pub open spec fn first_phase(options: SchedulerOptions) -> int {
    further_phase(options) * INITIAL_PHASES
}

/// The best makespans of the walkers.
pub open spec fn best_durations(walkers: Seq<Walker>) -> Seq<usize> {
    Seq::new(walkers.len(), |w: int| walkers[w].best_duration)
}

/// Makes the move that was picked on the order, if one was picked.
pub fn make_picked_move(schedule: &mut Vec<u8>, picked: Option<(u8, u8)>)
    ensures
        final(schedule)@ == match picked {
            Some((i, j)) => swap_ids(old(schedule)@, i, j),
            None => old(schedule)@,
        },
{
    match picked {
        Some((i, j)) => {
            swap_jobs(schedule, i, j);
        },
        None => {},
    }
}

/// Takes an order `count` moves away, each picked at random from the reduced
/// neighbourhood of the order reached so far; where that is empty nothing
/// moves. Whatever is picked, the result is a topological order.
pub fn diversify_schedule(dag: &DAG, schedule: Vec<u8>, swap_range: usize, count: u32) -> (mixed:
    Vec<u8>)
    requires
        dag.wf(),
        dag@.topological(schedule@),
    ensures
        dag@.topological(mixed@),
        dag@.within_moves(swap_range as int, schedule@, mixed@, count as nat),
{
    let ghost p = dag@;
    let ghost from = schedule@;
    let mut mixed = schedule;
    let mut made: u32 = 0;
    while made < count
        invariant
            dag.wf(),
            p == dag@,
            made <= count,
            p.topological(mixed@),
            p.within_moves(swap_range as int, from, mixed@, made as nat),
        decreases count - made,
    {
        let ghost mid = mixed@;
        let moves = dag.compute_reduced_neighborhood_moves(mixed.as_slice(), swap_range);
        let picked = pick_one(&moves);
        proof {
            if picked is Some {
                let m = picked.unwrap();
                assert(moves@.contains(m));
                let k = choose|k: int| 0 <= k < moves@.len() && moves@[k] == m;
                assert(p.topological(swap_ids(mid, moves[k].0, moves[k].1)));
                assert(p.reduced_neighborhood(mid, swap_range as int)[k] == m);
            }
        }
        make_picked_move(&mut mixed, picked);
        proof {
            assert(p.one_move(swap_range as int, mid, mixed@));
        }
        made = made + 1;
    }
    mixed
}

/// The numbers of the walkers from the best to the worst: by makespan, and
/// by number where the makespans are the same.
pub fn sorted_indices(keys: &Vec<usize>) -> (order: Vec<usize>)
    ensures
        is_ranking(keys@, order@),
{
    let n = keys.len();
    let mut order: Vec<usize> = Vec::new();
    let mut i: usize = 0;
    while i < n
        invariant
            n == keys.len(),
            i <= n,
            order.len() == i,
            forall|a: int| 0 <= a < i ==> #[trigger] order[a] < i,
            forall|a: int, b: int|
                0 <= a < b < i ==> ranks_before(keys@, #[trigger] order[a] as int, #[trigger] order[b] as int),
        decreases n - i,
    {
        order.push(i);
        let mut j: usize = i;
        while j > 0 && keys[order[j - 1]] > keys[order[j]]
            invariant
                n == keys.len(),
                i < n,
                j <= i,
                order.len() == i + 1,
                order[j as int] == i,
                forall|a: int| 0 <= a <= i ==> #[trigger] order[a] <= i,
                forall|a: int| 0 <= a <= i && a != j ==> #[trigger] order[a] < i,
                forall|a: int, b: int|
                    0 <= a < b <= i && a != j && b != j ==> ranks_before(
                        keys@,
                        #[trigger] order[a] as int,
                        #[trigger] order[b] as int,
                    ),
                forall|b: int|
                    j < b <= i ==> ranks_before(keys@, i as int, #[trigger] order[b] as int),
            decreases j,
        {
            let ghost before = order@;
            let earlier = order[j - 1];
            order[j - 1] = i;
            order[j] = earlier;
            proof {
                assert forall|a: int, b: int| 0 <= a < b <= i && a != j - 1 && b != j - 1 implies ranks_before(
                    keys@,
                    #[trigger] order[a] as int,
                    #[trigger] order[b] as int,
                ) by {
                    if b == j {
                        assert(order[b] == before[j - 1]);
                        assert(order[a] == before[a]);
                        assert(ranks_before(keys@, before[a] as int, before[j - 1] as int));
                    } else if a == j {
                        assert(order[a] == before[j - 1]);
                        assert(order[b] == before[b]);
                        assert(ranks_before(keys@, before[j - 1] as int, before[b] as int));
                    } else {
                        assert(order[a] == before[a] && order[b] == before[b]);
                    }
                }
                assert forall|b: int| j - 1 < b <= i implies ranks_before(
                    keys@,
                    i as int,
                    #[trigger] order[b] as int,
                ) by {
                    if b > j {
                        assert(order[b] == before[b]);
                    }
                }
            }
            j -= 1;
        }
        proof {
            assert forall|a: int, b: int| 0 <= a < b < i + 1 implies ranks_before(
                keys@,
                #[trigger] order[a] as int,
                #[trigger] order[b] as int,
            ) by {
                if a == j {
                } else if b == j {
                    assert(order[a] < i);
                    assert(j > 0);
                    assert(keys[order[j - 1] as int] <= keys[i as int]);
                    if a < j - 1 {
                        assert(ranks_before(keys@, order[a] as int, order[j - 1] as int));
                    }
                }
            }
        }
        i += 1;
    }
    order
}

/// Keeps in `best` the best schedule among it and the best schedules of the
/// walkers. Its makespan does not grow.
pub fn keep_best(best: &mut OptimizedSchedule, walkers: &Vec<Walker>, dag: &DAG)
    requires
        dag.wf(),
        dag@.rated(old(best).schedule@, old(best).duration as int),
        forall|w: int| 0 <= w < walkers.len() ==> (#[trigger] walkers[w]).well_formed(dag@),
    ensures
        dag@.rated(final(best).schedule@, final(best).duration as int),
        final(best).duration <= old(best).duration,
        forall|w: int|
            0 <= w < walkers.len() ==> final(best).duration <= (#[trigger] walkers[w]).best_duration,
{
    let ghost first = best.duration;
    let mut w: usize = 0;
    while w < walkers.len()
        invariant
            dag.wf(),
            w <= walkers.len(),
            dag@.rated(best.schedule@, best.duration as int),
            best.duration <= first,
            forall|v: int| 0 <= v < walkers.len() ==> (#[trigger] walkers[v]).well_formed(dag@),
            forall|v: int| 0 <= v < w ==> best.duration <= (#[trigger] walkers[v]).best_duration,
        decreases walkers.len() - w,
    {
        assert(walkers[w as int].well_formed(dag@));
        if walkers[w].best_duration < best.duration {
            best.schedule = copy_bytes(walkers[w].best_schedule.as_slice());
            best.duration = walkers[w].best_duration;
        }
        w += 1;
    }
}

/// A walker that starts anew near `source`.
pub fn copy_near(dag: &DAG, source: &Walker, swap_range: usize) -> (copy: Walker)
    requires
        dag.wf(),
        source.well_formed(dag@),
    ensures
        copy.well_formed(dag@),
        dag@.near_copy(swap_range as int, source@, copy@),
{
    let schedule = diversify_schedule(
        dag,
        copy_bytes(source.best_schedule.as_slice()),
        swap_range,
        DIVERSIFICATION_SWAPS,
    );
    let duration = dag.compute_execution_time(schedule.as_slice(), None);
    let best_schedule = copy_bytes(schedule.as_slice());
    Walker {
        schedule,
        tabu_list: source.best_tabu_list.snapshot(),
        best_schedule,
        best_duration: duration,
        best_tabu_list: source.best_tabu_list.snapshot(),
        iter_since_best: 0,
        reset_counter: 0,
    }
}

/// After `done` replacements the walkers are what `before` held, but that
/// for each `i` below `done` the walker that ranks `i` from the end is a
/// copy near the one that ranks `i` from the start.
pub open spec fn replaced(
    p: Project,
    range: int,
    before: Seq<Walker>,
    after: Seq<Walker>,
    order: Seq<usize>,
    done: int,
) -> bool {
    &&& after.len() == before.len()
    &&& forall|i: int|
        0 <= i < done ==> p.near_copy(
            range,
            before[order[i] as int]@,
            (#[trigger] after[order[order.len() - 1 - i] as int])@,
        )
    &&& forall|i: int|
        0 <= i < order.len() - done ==> #[trigger] after[order[i] as int] == before[order[i] as int]
}

/// Replaces the worse half of the walkers: with the walkers ranked by their
/// best makespan, the last one becomes a copy near the first, the one before
/// it a copy near the second, and so on down to the middle, which stays as
/// the better half does.
pub fn replace_worse_half(walkers: &mut Vec<Walker>, dag: &DAG, swap_range: usize)
    requires
        dag.wf(),
        forall|w: int| 0 <= w < old(walkers).len() ==> (#[trigger] old(walkers)[w]).well_formed(dag@),
    ensures
        final(walkers).len() == old(walkers).len(),
        forall|w: int|
            0 <= w < final(walkers).len() ==> (#[trigger] final(walkers)[w]).well_formed(dag@),
        exists|order: Seq<usize>|
            is_ranking(best_durations(old(walkers)@), order) && #[trigger] replaced(
                dag@,
                swap_range as int,
                old(walkers)@,
                final(walkers)@,
                order,
                old(walkers).len() as int / 2,
            ),
{
    let ghost p = dag@;
    let ghost before = walkers@;
    let count = walkers.len();
    let mut keys: Vec<usize> = Vec::new();
    let mut w: usize = 0;
    while w < count
        invariant
            count == walkers.len(),
            walkers@ == before,
            w <= count,
            keys.len() == w,
            forall|v: int| 0 <= v < w ==> #[trigger] keys[v] == walkers[v].best_duration,
        decreases count - w,
    {
        keys.push(walkers[w].best_duration);
        w += 1;
    }
    assert(keys@ =~= best_durations(before));
    let order = sorted_indices(&keys);
    let half = count / 2;
    let mut i: usize = 0;
    while i < half
        invariant
            dag.wf(),
            p == dag@,
            count == before.len(),
            walkers.len() == count,
            half == count / 2,
            i <= half,
            is_ranking(best_durations(before), order@),
            forall|w: int| 0 <= w < before.len() ==> (#[trigger] before[w]).well_formed(p),
            forall|w: int| 0 <= w < walkers.len() ==> (#[trigger] walkers[w]).well_formed(p),
            replaced(p, swap_range as int, before, walkers@, order@, i as int),
        decreases half - i,
    {
        let from = order[i];
        let to = order[count - 1 - i];
        let ghost current = walkers@;
        proof {
            assert(current[order[i as int] as int] == before[order[i as int] as int]);
            lemma_ranking_distinct(best_durations(before), order@);
        }
        let copy = copy_near(dag, &walkers[from], swap_range);
        walkers[to] = copy;
        proof {
            assert forall|k: int| 0 <= k < i + 1 implies p.near_copy(
                swap_range as int,
                before[order[k] as int]@,
                (#[trigger] walkers[order[order.len() - 1 - k] as int])@,
            ) by {
                if k < i {
                    assert(order[count - 1 - k] != order[count - 1 - i]);
                    assert(walkers[order[count - 1 - k] as int] == current[order[count - 1 - k] as int]);
                }
            }
            assert forall|k: int| 0 <= k < order.len() - (i + 1) implies #[trigger] walkers[order[k] as int]
                == before[order[k] as int] by {
                assert(order[k] != order[count - 1 - i]);
                assert(walkers[order[k] as int] == current[order[k] as int]);
            }
            assert forall|w: int| 0 <= w < walkers.len() implies (#[trigger] walkers[w]).well_formed(
                p,
            ) by {
                if w != to {
                    assert(walkers[w] == current[w]);
                }
            }
        }
        i += 1;
    }
    proof {
        assert(replaced(p, swap_range as int, before, walkers@, order@, before.len() as int / 2));
    }
}

/// No walker stands twice in a ranking.
pub proof fn lemma_ranking_distinct(keys: Seq<usize>, order: Seq<usize>)
    requires
        is_ranking(keys, order),
    ensures
        forall|i: int, j: int|
            0 <= i < order.len() && 0 <= j < order.len() && i != j ==> #[trigger] order[i]
                != #[trigger] order[j],
{
    assert forall|i: int, j: int|
        0 <= i < order.len() && 0 <= j < order.len() && i != j implies #[trigger] order[i]
        != #[trigger] order[j] by {
        if i < j {
            assert(ranks_before(keys, order[i] as int, order[j] as int));
        } else {
            assert(ranks_before(keys, order[j] as int, order[i] as int));
        }
    }
}

/// Lets every walker make `iterations` iterations at most, each from where
/// it stands, with its counters set back.
pub fn advance_all(
    walkers: &mut Vec<Walker>,
    dag: &DAG,
    options: &SchedulerOptions,
    lower_bound: usize,
    iterations: u32,
)
    requires
        dag.wf(),
        forall|w: int| 0 <= w < old(walkers).len() ==> (#[trigger] old(walkers)[w]).well_formed(dag@),
    ensures
        final(walkers).len() == old(walkers).len(),
        forall|w: int|
            0 <= w < final(walkers).len() ==> (#[trigger] final(walkers)[w]).well_formed(dag@)
                && final(walkers)[w]@ == dag@.run(
                *options,
                lower_bound as int,
                rested(old(walkers)[w]@),
                iterations as nat,
            ) && final(walkers)[w].best_duration <= old(walkers)[w].best_duration,
{
    let ghost before = walkers@;
    let mut w: usize = 0;
    while w < walkers.len()
        invariant
            dag.wf(),
            walkers.len() == before.len(),
            w <= walkers.len(),
            forall|v: int| 0 <= v < walkers.len() ==> (#[trigger] walkers[v]).well_formed(dag@),
            forall|v: int| w <= v < walkers.len() ==> #[trigger] walkers[v] == before[v],
            forall|v: int|
                0 <= v < w ==> (#[trigger] walkers[v])@ == dag@.run(
                    *options,
                    lower_bound as int,
                    rested(before[v]@),
                    iterations as nat,
                ) && walkers[v].best_duration <= before[v].best_duration,
        decreases walkers.len() - w,
    {
        let ghost current = walkers@;
        walkers[w].iter_since_best = 0;
        walkers[w].reset_counter = 0;
        assert(walkers[w as int]@ == rested(before[w as int]@));
        walkers[w].advance(dag, options, lower_bound, iterations);
        proof {
            assert forall|v: int| 0 <= v < walkers.len() && v != w implies #[trigger] walkers[v]
                == current[v] by {}
        }
        w += 1;
    }
}

/// The state of a walker with its counters set back.
pub open spec fn rested(walk: Walk) -> Walk {
    Walk {
        schedule: walk.schedule,
        tabu: walk.tabu,
        best_schedule: walk.best_schedule,
        best_duration: walk.best_duration,
        best_tabu: walk.best_tabu,
        iter_since_best: 0,
        reset_counter: 0,
    }
}

/// The search of several walkers as it stands between two phases: the
/// walkers, the best schedule that any of them has found, the lower bound at
/// which the search ends, and how many tenths of the iterations are used up.
pub struct Phases {
    pub walkers: Vec<Walker>,
    pub best: OptimizedSchedule,
    pub lower_bound: usize,
    pub parts: u32,
}

impl Phases {
    /// The walkers belong to the project, and the best schedule is a
    /// topological order with its makespan.
    pub open spec fn well_formed(&self, p: Project) -> bool {
        &&& self.walkers.len() >= 1
        &&& forall|w: int|
            0 <= w < self.walkers.len() ==> (#[trigger] self.walkers[w]).well_formed(p)
        &&& p.rated(self.best.schedule@, self.best.duration as int)
        &&& self.parts <= IMPROVEMENT_PARTITION
    }

    /// The search is over: the iterations are used up, or a phase has been
    /// made and the best makespan is the lower bound.
    pub open spec fn over(&self) -> bool {
        self.parts >= IMPROVEMENT_PARTITION || (self.parts > 0 && self.best.duration
            == self.lower_bound)
    }

    /// The number of iterations of the phase that comes next.
    pub open spec fn next_iterations(&self, options: SchedulerOptions) -> int {
        if self.parts == 0 {
            first_phase(options)
        } else {
            further_phase(options)
        }
    }

    /// The state in which the search begins: the first walker stands on the
    /// initial order, each other one on the ranks shuffled, nothing is tabu,
    /// and the best schedule is the best of these orders.
    pub fn start(dag: &DAG, options: &SchedulerOptions) -> (phases: Phases)
        requires
            dag.wf(),
            options.schedule_count >= 1,
            options.tabu_list_size >= 1,
        ensures
            phases.well_formed(dag@),
            dag@.begins(*options, phases),
    {
        let ghost p = dag@;
        let bound = dag.compute_lower_bound(false);
        let lower_bound = match bound {
            Some((length, path)) => length,
            None => 0,
        };
        let ghost path = forward_path(bound.unwrap().1@, false);
        let tabu_list_size = options.tabu_list_size as usize;
        let ranks = dag.compute_job_execution_ranks();
        let initial = dag.compute_initial_schedule();
        let ghost first = initial@;
        let mut best = OptimizedSchedule {
            schedule: copy_bytes(initial.as_slice()),
            duration: dag.compute_execution_time(initial.as_slice(), None),
        };
        let mut walkers: Vec<Walker> = Vec::new();
        walkers.push(Walker::new(dag, initial, tabu_list_size));
        let ghost start = walkers[0]@;
        let mut made: u32 = 1;
        while made < options.schedule_count
            invariant
                dag.wf(),
                p == dag@,
                p.layered(ranks@),
                tabu_list_size >= 1,
                1 <= made <= options.schedule_count,
                walkers.len() == made,
                walkers[0]@ == start,
                forall|w: int| 0 <= w < walkers.len() ==> (#[trigger] walkers[w]).well_formed(p),
                p.start_mixed(ranks@, walkers@, tabu_list_size as int),
            decreases options.schedule_count - made,
        {
            let schedule = dag.compute_diversified_schedule(&ranks);
            let ghost mixed = schedule@;
            let ghost before = walkers@;
            walkers.push(Walker::new(dag, schedule, tabu_list_size));
            proof {
                let after = walkers@;
                assert forall|w: int| 1 <= w < after.len() implies exists|mixed: Seq<u8>|
                    mixed_order(ranks@, mixed) && (#[trigger] after[w])@ == p.start(
                        mixed,
                        tabu_list_size as int,
                    ) by {
                    if w < before.len() {
                        assert(after[w] == before[w]);
                        let earlier = choose|mixed: Seq<u8>|
                            mixed_order(ranks@, mixed) && before[w]@ == p.start(
                                mixed,
                                tabu_list_size as int,
                            );
                        assert(mixed_order(ranks@, earlier) && after[w]@ == p.start(
                            earlier,
                            tabu_list_size as int,
                        ));
                    } else {
                        assert(mixed_order(ranks@, mixed) && after[w]@ == p.start(
                            mixed,
                            tabu_list_size as int,
                        ));
                    }
                }
            }
            made = made + 1;
        }
        keep_best(&mut best, &walkers, dag);
        let phases = Phases { walkers, best, lower_bound, parts: 0 };
        proof {
            assert(p.initial_order(first) && p.critical(path) && phases.lower_bound
                == p.path_length(path) && phases.walkers[0]@ == p.start(
                first,
                options.tabu_list_size as int,
            ) && phases.best.duration <= p.makespan(first));
            assert(p.layered(ranks@));
            assert(p.start_mixed(ranks@, phases.walkers@, options.tabu_list_size as int));
        }
        phases
    }

    /// Opens the next phase, unless the search is over: before any phase but
    /// the first the worse half of the walkers is replaced. It returns the
    /// number of iterations that every walker is to make in the phase.
    pub fn begin_phase(&mut self, dag: &DAG, options: &SchedulerOptions) -> (iterations: Option<
        u32,
    >)
        requires
            dag.wf(),
            old(self).well_formed(dag@),
            options.schedule_count >= 1,
        ensures
            final(self).well_formed(dag@),
            final(self).best.schedule@ == old(self).best.schedule@,
            final(self).best.duration == old(self).best.duration,
            final(self).lower_bound == old(self).lower_bound,
            final(self).parts == old(self).parts,
            final(self).walkers.len() == old(self).walkers.len(),
            old(self).over() ==> iterations is None && final(self).walkers@ == old(self).walkers@,
            !old(self).over() ==> iterations == Some(old(self).next_iterations(*options) as u32),
            !old(self).over() && old(self).parts == 0 ==> final(self).walkers@ == old(
                self,
            ).walkers@,
            !old(self).over() && old(self).parts > 0 ==> exists|order: Seq<usize>|
                is_ranking(best_durations(old(self).walkers@), order) && #[trigger] replaced(
                    dag@,
                    options.swap_range as int,
                    old(self).walkers@,
                    final(self).walkers@,
                    order,
                    old(self).walkers.len() as int / 2,
                ),
    {
        if self.parts >= IMPROVEMENT_PARTITION || (self.parts > 0 && self.best.duration
            == self.lower_bound) {
            return None;
        }
        let phase_iterations = options.number_of_iterations / options.schedule_count
            / IMPROVEMENT_PARTITION;
        if self.parts == 0 {
            Some(phase_iterations * INITIAL_PHASES)
        } else {
            replace_worse_half(&mut self.walkers, dag, options.swap_range);
            Some(phase_iterations)
        }
    }

    /// Closes a phase after every walker has made its iterations: the best
    /// schedule of the walkers is kept where it is better than the best so
    /// far, and the part of the iterations that the phase has taken is
    /// counted.
    pub fn end_phase(&mut self, dag: &DAG)
        requires
            dag.wf(),
            old(self).well_formed(dag@),
            old(self).parts < IMPROVEMENT_PARTITION,
        ensures
            final(self).well_formed(dag@),
            final(self).walkers@ == old(self).walkers@,
            final(self).lower_bound == old(self).lower_bound,
            final(self).parts == if old(self).parts == 0 {
                INITIAL_PHASES
            } else {
                (old(self).parts + 1) as u32
            },
            final(self).best.duration <= old(self).best.duration,
            forall|w: int|
                0 <= w < final(self).walkers.len() ==> final(self).best.duration <= (
                #[trigger] final(self).walkers[w]).best_duration,
    {
        keep_best(&mut self.best, &self.walkers, dag);
        if self.parts == 0 {
            self.parts = INITIAL_PHASES;
        } else {
            self.parts = self.parts + 1;
        }
    }
}

impl Project {
    /// `phases` is a state in which the search begins.
    pub open spec fn begins(self, options: SchedulerOptions, phases: Phases) -> bool {
        &&& phases.parts == 0
        &&& phases.walkers.len() == options.schedule_count
        &&& exists|initial: Seq<u8>, path: Seq<int>|
            #![trigger self.initial_order(initial), self.critical(path)]
            self.initial_order(initial) && self.critical(path) && phases.lower_bound
                == self.path_length(path) && phases.walkers[0]@ == self.start(
                initial,
                options.tabu_list_size as int,
            ) && phases.best.duration <= self.makespan(initial)
        &&& exists|ranks: Seq<Vec<u8>>|
            self.layered(ranks) && #[trigger] self.start_mixed(
                ranks,
                phases.walkers@,
                options.tabu_list_size as int,
            )
    }

    /// Every walker but the first starts from the ranks, each rank in some
    /// order of its own, with nothing tabu.
    pub open spec fn start_mixed(
        self,
        ranks: Seq<Vec<u8>>,
        walkers: Seq<Walker>,
        tabu_list_size: int,
    ) -> bool {
        forall|w: int|
            1 <= w < walkers.len() ==> exists|mixed: Seq<u8>|
                mixed_order(ranks, mixed) && (#[trigger] walkers[w])@ == self.start(
                    mixed,
                    tabu_list_size,
                )
    }
}

/// Searches with `schedule_count` walkers for an order of the activities of
/// the problem with a small makespan.
///
/// The first walker starts from the initial order, each other one from the
/// ranks shuffled. A walker gets an equal share of `number_of_iterations`,
/// in ten parts: the first phase takes two of them, each of eight further
/// phases one. Before each further phase the worse half of the walkers is
/// replaced by copies near the better half. The search ends early when the
/// best makespan is the length of the critical path. The best schedule that
/// any walker found is returned: a topological order with its makespan,
/// which lies between the length of the critical path and the makespan of
/// the initial order, and is no more than what the first walker reaches in
/// the first phase.
pub fn scheduler(psp: PspLibProblem, options: SchedulerOptions) -> (result: Result<
    OptimizedSchedule,
    SchedulerError,
>)
    ensures
        match result {
            Ok(best) => {
                let p = project_of(psp);
                &&& search_error(psp, options) is None
                &&& p.valid()
                &&& p.rated(best.schedule@, best.duration as int)
                &&& p.bounded(best.duration as int)
                &&& p.kept_from_first_phase(options, best.duration as int)
            },
            Err(e) => search_error(psp, options) == Some(e),
        },
{
    match check_options(&options) {
        Ok(_) => {},
        Err(e) => {
            return Err(e);
        },
    }
    let dag = match DAG::new(&psp) {
        Ok(dag) => dag,
        Err(e) => {
            return Err(SchedulerError::Problem(e));
        },
    };
    let ghost p = dag@;
    let mut phases = Phases::start(&dag, &options);
    let ghost (first, path) = choose|initial: Seq<u8>, path: Seq<int>|
        #![trigger p.initial_order(initial), p.critical(path)]
        p.initial_order(initial) && p.critical(path) && phases.lower_bound == p.path_length(path)
            && phases.walkers[0]@ == p.start(initial, options.tabu_list_size as int)
            && phases.best.duration <= p.makespan(initial);
    let ghost start = phases.walkers[0]@;
    let ghost reached = p.run(options, phases.lower_bound as int, start, first_phase(options) as nat);
    let ghost lower_bound = phases.lower_bound;
    let mut open = true;
    while open
        invariant
            dag.wf(),
            p == dag@,
            options.schedule_count >= 1,
            phases.well_formed(p),
            phases.lower_bound == lower_bound,
            phases.best.duration <= p.makespan(first),
            start == p.start(first, options.tabu_list_size as int),
            phases.parts == 0 ==> phases.walkers[0]@ == start,
            phases.parts > 0 ==> phases.best.duration <= reached.best_duration,
            !open ==> phases.parts > 0,
            reached == p.run(options, lower_bound as int, start, first_phase(options) as nat),
        decreases
                IMPROVEMENT_PARTITION - phases.parts + if open {
                    1int
                } else {
                    0int
                },
    {
        match phases.begin_phase(&dag, &options) {
            Some(iterations) => {
                let bound = phases.lower_bound;
                let ghost parts = phases.parts;
                let ghost before = phases.walkers@;
                advance_all(&mut phases.walkers, &dag, &options, bound, iterations);
                proof {
                    if parts == 0 {
                        assert(before[0]@ == start);
                        assert(rested(start) == start);
                        assert(phases.walkers[0]@ == reached);
                    }
                }
                phases.end_phase(&dag);
            },
            None => {
                open = false;
            },
        }
    }
    proof {
        let best = phases.best;
        lemma_makespan_at_least_critical(p, best.schedule@, path);
        assert(p.initial_order(first) && p.critical(path) && p.path_length(path) <= best.duration
            <= p.makespan(first));
        assert(phases.parts > 0);
        assert(p.initial_order(first) && p.critical(path) && best.duration <= p.run(
            options,
            p.path_length(path),
            p.start(first, options.tabu_list_size as int),
            first_phase(options) as nat,
        ).best_duration);
    }
    Ok(phases.best)
}

} // verus!
