//! The tabu search: what it is told, what it returns, and what one step of
//! it does to the state of a walker.

use crate::dag::construct::DagError;
use crate::order::swap_ids;
use crate::project::Project;
use crate::tabu_list::TabuMemory;
use vstd::prelude::*;

pub mod multi_walker;
pub mod single_walker;
pub mod walker;

verus! {

/// What the search is told.
#[derive(Debug, Clone)]
pub struct SchedulerOptions {
    /// The number of iterations after which the search stops.
    pub number_of_iterations: u32,
    /// The number of iterations in a row without a new best schedule after
    /// which the search stops.
    pub max_iter_since_best: u32,
    /// The number of moves that the tabu list remembers.
    pub tabu_list_size: u32,
    /// Two activities are exchanged only where they stand less than this
    /// many places apart.
    pub swap_range: usize,
    /// Whether the moves of one iteration may be rated side by side. The
    /// result does not depend on it.
    pub parallel: bool,
    /// The number of iterations in a row without a new best schedule after
    /// which the search goes back to the best schedule, if it is to.
    pub iter_since_best_reset: Option<u32>,
    /// The number of walkers.
    pub schedule_count: u32,
}

/// The best schedule that the search found.
pub struct OptimizedSchedule {
    /// The order of the activities.
    pub schedule: Vec<u8>,
    /// The makespan of the serial schedule of that order.
    pub duration: usize,
}

/// Why the search did not start.
#[derive(Debug, Clone, Copy, PartialEq, Eq)]
pub enum SchedulerError {
    /// There is to be no walker.
    WalkerCount,
    /// The swap range is below 2, so that there is no move.
    SwapRange,
    /// The tabu list is to remember nothing.
    TabuListSize,
    /// The problem gives no project graph.
    Problem(DagError),
}

/// What is wrong with the options, if anything.
pub open spec fn options_error(options: SchedulerOptions) -> Option<SchedulerError> {
    if options.schedule_count < 1 {
        Some(SchedulerError::WalkerCount)
    } else if options.swap_range < 2 {
        Some(SchedulerError::SwapRange)
    } else if options.tabu_list_size < 1 {
        Some(SchedulerError::TabuListSize)
    } else {
        None
    }
}

/// Checks the options.
pub fn check_options(options: &SchedulerOptions) -> (result: Result<(), SchedulerError>)
    ensures
        match result {
            Ok(_) => options_error(*options) is None,
            Err(e) => options_error(*options) == Some(e),
        },
{
    if options.schedule_count < 1 {
        Err(SchedulerError::WalkerCount)
    } else if options.swap_range < 2 {
        Err(SchedulerError::SwapRange)
    } else if options.tabu_list_size < 1 {
        Err(SchedulerError::TabuListSize)
    } else {
        Ok(())
    }
}

/// The state of a walker: where it stands, what is tabu, the best schedule
/// that it found with the tabu memory of that moment, and for how many
/// iterations it has found none better.
pub struct Walk {
    pub schedule: Seq<u8>,
    pub tabu: TabuMemory,
    pub best_schedule: Seq<u8>,
    pub best_duration: int,
    pub best_tabu: TabuMemory,
    pub iter_since_best: int,
    pub reset_counter: int,
}

impl Project {
    /// The makespan to which a move leads.
    pub open spec fn rating(self, schedule: Seq<u8>, m: (u8, u8)) -> int {
        self.makespan(swap_ids(schedule, m.0, m.1))
    }

    /// A move may be made where it is not tabu, or where it leads to a
    /// schedule better than the best one.
    pub open spec fn admissible(self, walk: Walk, m: (u8, u8)) -> bool {
        !walk.tabu.members.contains((m.0 as int, m.1 as int)) || self.rating(walk.schedule, m)
            < walk.best_duration
    }

    /// Some move may be made.
    pub open spec fn has_admissible(self, walk: Walk, moves: Seq<(u8, u8)>) -> bool {
        exists|k: int| 0 <= k < moves.len() && self.admissible(walk, #[trigger] moves[k])
    }

    /// Move `k` is the one to make: among the moves that may be made it
    /// leads to the smallest makespan, and it is the first such move.
    pub open spec fn selects(self, walk: Walk, moves: Seq<(u8, u8)>, k: int) -> bool {
        &&& 0 <= k < moves.len()
        &&& self.admissible(walk, moves[k])
        &&& forall|m: int|
            0 <= m < moves.len() && self.admissible(walk, #[trigger] moves[m]) ==> self.rating(
                walk.schedule,
                moves[k],
            ) < self.rating(walk.schedule, moves[m]) || (self.rating(walk.schedule, moves[k])
                == self.rating(walk.schedule, moves[m]) && k <= m)
    }

    /// The move to make.
    pub open spec fn selected(self, walk: Walk, moves: Seq<(u8, u8)>) -> int {
        choose|k: int| self.selects(walk, moves, k)
    }

    /// The state to go on from: the best schedule with its tabu memory where
    /// the walker has gone `reset` iterations without a new best schedule.
    pub open spec fn restored(self, walk: Walk, reset: Option<u32>) -> Walk {
        if reset is Some && walk.reset_counter >= reset.unwrap() {
            Walk {
                schedule: walk.best_schedule,
                tabu: walk.best_tabu,
                best_schedule: walk.best_schedule,
                best_duration: walk.best_duration,
                best_tabu: walk.best_tabu,
                iter_since_best: walk.iter_since_best,
                reset_counter: 0,
            }
        } else {
            walk
        }
    }

    /// The state after the move `m` has been made: the two activities are
    /// exchanged and the move is tabu; where the makespan is below the best
    /// one, the new order is the best with the tabu memory of this moment.
    pub open spec fn moved(self, walk: Walk, m: (u8, u8)) -> Walk {
        let schedule = swap_ids(walk.schedule, m.0, m.1);
        let duration = self.makespan(schedule);
        let tabu = walk.tabu.inserted(m.0 as int, m.1 as int);
        if duration < walk.best_duration {
            Walk {
                schedule,
                tabu,
                best_schedule: schedule,
                best_duration: duration,
                best_tabu: tabu,
                iter_since_best: 0,
                reset_counter: 0,
            }
        } else {
            Walk {
                schedule,
                tabu,
                best_schedule: walk.best_schedule,
                best_duration: walk.best_duration,
                best_tabu: walk.best_tabu,
                iter_since_best: walk.iter_since_best + 1,
                reset_counter: walk.reset_counter + 1,
            }
        }
    }

    /// The state after an iteration in which no move could be made.
    pub open spec fn waited(self, walk: Walk) -> Walk {
        Walk {
            schedule: walk.schedule,
            tabu: walk.tabu,
            best_schedule: walk.best_schedule,
            best_duration: walk.best_duration,
            best_tabu: walk.best_tabu,
            iter_since_best: walk.iter_since_best + 1,
            reset_counter: walk.reset_counter + 1,
        }
    }

    /// One iteration of the search: go back to the best schedule where it is
    /// time to; list the moves of the reduced neighbourhood; make the one that
    /// is selected, if there is one, and put it on the tabu list; keep the
    /// new schedule where it is better than the best one.
    pub open spec fn step(self, options: SchedulerOptions, walk: Walk) -> Walk {
        let from = self.restored(walk, options.iter_since_best_reset);
        let moves = self.reduced_neighborhood(from.schedule, options.swap_range as int);
        if self.has_admissible(from, moves) {
            self.moved(from, moves[self.selected(from, moves)])
        } else {
            self.waited(from)
        }
    }

    /// The state after at most `iterations` iterations: the search stops
    /// before an iteration where it has gone too long without a new best
    /// schedule, and after one where the best makespan is the lower bound.
    pub open spec fn run(
        self,
        options: SchedulerOptions,
        lower_bound: int,
        walk: Walk,
        iterations: nat,
    ) -> Walk
        decreases iterations,
    {
        if iterations == 0 || walk.iter_since_best >= options.max_iter_since_best {
            walk
        } else {
            let next = self.step(options, walk);
            if next.best_duration == lower_bound {
                next
            } else {
                self.run(options, lower_bound, next, (iterations - 1) as nat)
            }
        }
    }

    /// The state in which a walker starts from `schedule`.
    pub open spec fn start(self, schedule: Seq<u8>, tabu_list_size: int) -> Walk {
        Walk {
            schedule,
            tabu: TabuMemory::empty(tabu_list_size),
            best_schedule: schedule,
            best_duration: self.makespan(schedule),
            best_tabu: TabuMemory::empty(tabu_list_size),
            iter_since_best: 0,
            reset_counter: 0,
        }
    }

    /// What holds of the state of a walker at any time: it stands on a
    /// topological order, and its best schedule is one, with the makespan
    /// that it has on record.
    pub open spec fn walking(self, walk: Walk) -> bool {
        &&& self.topological(walk.schedule)
        &&& self.topological(walk.best_schedule)
        &&& walk.best_duration == self.makespan(walk.best_schedule)
        &&& walk.iter_since_best >= 0
        &&& walk.reset_counter >= 0
    }
}

/// Only one move is selected.
pub proof fn lemma_selected(p: Project, walk: Walk, moves: Seq<(u8, u8)>, k: int)
    requires
        p.selects(walk, moves, k),
    ensures
        p.has_admissible(walk, moves),
        p.selected(walk, moves) == k,
{
    let other = p.selected(walk, moves);
    assert(p.selects(walk, moves, other));
    assert(p.admissible(walk, moves[k]));
    assert(p.admissible(walk, moves[other]));
}

/// A step keeps the walker on topological orders, with the right makespan on
/// record, and its best makespan does not grow.
pub proof fn lemma_step(p: Project, options: SchedulerOptions, walk: Walk)
    requires
        p.valid(),
        p.walking(walk),
    ensures
        p.walking(p.step(options, walk)),
        p.step(options, walk).best_duration <= walk.best_duration,
{
    let from = p.restored(walk, options.iter_since_best_reset);
    assert(p.walking(from));
    let moves = p.reduced_neighborhood(from.schedule, options.swap_range as int);
    if p.has_admissible(from, moves) {
        let k = p.selected(from, moves);
        assert(moves.subrange(0, moves.len() as int) =~= moves);
        lemma_some_selected(p, from, moves, moves.len() as int);
        assert(p.selects(from, moves, k));
        crate::dag::moves::lemma_neighborhood_topological(
            p,
            from.schedule,
            options.swap_range as int,
            k,
        );
    }
}

/// Among the first `n` moves, where one may be made, one is selected.
pub proof fn lemma_some_selected(p: Project, walk: Walk, moves: Seq<(u8, u8)>, n: int)
    requires
        0 <= n <= moves.len(),
    ensures
        p.has_admissible(walk, moves.subrange(0, n)) ==> exists|k: int| p.selects(walk, moves.subrange(0, n), k),
    decreases n,
{
    let first = moves.subrange(0, n);
    if n > 0 && p.has_admissible(walk, first) {
        let shorter = moves.subrange(0, n - 1);
        lemma_some_selected(p, walk, moves, n - 1);
        assert forall|m: int| 0 <= m < n - 1 implies #[trigger] shorter[m] == first[m] by {}
        if p.has_admissible(walk, shorter) {
            let k = choose|k: int| p.selects(walk, shorter, k);
            if p.admissible(walk, first[n - 1]) && p.rating(walk.schedule, first[n - 1])
                < p.rating(walk.schedule, first[k]) {
                assert(p.selects(walk, first, n - 1)) by {
                    assert forall|m: int|
                        0 <= m < first.len() && p.admissible(
                            walk,
                            #[trigger] first[m],
                        ) implies p.rating(walk.schedule, first[n - 1]) < p.rating(
                        walk.schedule,
                        first[m],
                    ) || (p.rating(walk.schedule, first[n - 1]) == p.rating(
                        walk.schedule,
                        first[m],
                    ) && n - 1 <= m) by {
                        if m < n - 1 {
                            assert(p.admissible(walk, shorter[m]));
                        }
                    }
                }
            } else {
                assert(p.selects(walk, first, k)) by {
                    assert(first[k] == shorter[k]);
                    assert forall|m: int|
                        0 <= m < first.len() && p.admissible(
                            walk,
                            #[trigger] first[m],
                        ) implies p.rating(walk.schedule, first[k]) < p.rating(
                        walk.schedule,
                        first[m],
                    ) || (p.rating(walk.schedule, first[k]) == p.rating(walk.schedule, first[m])
                        && k <= m) by {
                        if m < n - 1 {
                            assert(p.admissible(walk, shorter[m]));
                        }
                    }
                }
            }
        } else {
            let w = choose|k: int| 0 <= k < first.len() && p.admissible(walk, #[trigger] first[k]);
            if w < n - 1 {
                assert(p.admissible(walk, shorter[w]));
            }
            assert(p.selects(walk, first, n - 1)) by {
                assert forall|m: int|
                    0 <= m < first.len() && p.admissible(walk, #[trigger] first[m]) implies p.rating(
                    walk.schedule,
                    first[n - 1],
                ) < p.rating(walk.schedule, first[m]) || (p.rating(walk.schedule, first[n - 1])
                    == p.rating(walk.schedule, first[m]) && n - 1 <= m) by {
                    if m < n - 1 {
                        assert(p.admissible(walk, shorter[m]));
                    }
                }
            }
        }
    }
}

/// Any number of iterations keeps the walker on topological orders, and its
/// best makespan does not grow.
pub proof fn lemma_run(
    p: Project,
    options: SchedulerOptions,
    lower_bound: int,
    walk: Walk,
    iterations: nat,
)
    requires
        p.valid(),
        p.walking(walk),
    ensures
        p.walking(p.run(options, lower_bound, walk, iterations)),
        p.run(options, lower_bound, walk, iterations).best_duration <= walk.best_duration,
    decreases iterations,
{
    if iterations == 0 || walk.iter_since_best >= options.max_iter_since_best {
    } else {
        lemma_step(p, options, walk);
        let next = p.step(options, walk);
        if next.best_duration != lower_bound {
            lemma_run(p, options, lower_bound, next, (iterations - 1) as nat);
        }
    }
}

} // verus!
