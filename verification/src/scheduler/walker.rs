//! A walker: one search state, and the iterations that advance it.

use crate::dag::evaluate::swapped;
use crate::dag::DAG;
use crate::order::swap_ids;
use crate::project::Project;
use crate::scheduler::lemma_selected;
use crate::scheduler::lemma_step;
use crate::scheduler::SchedulerOptions;
use crate::scheduler::Walk;
use crate::tabu_list::simple_tabu_list::SimpleTabuList;
use crate::tabu_list::TabuList;
use crate::util::copy_bytes;
use crate::MoveType;
use vstd::prelude::*;

verus! {

/// One search state: an order, the tabu list, and the best order found with
/// the tabu list of that moment.
pub struct Walker {
    pub schedule: Vec<u8>,
    pub tabu_list: SimpleTabuList,
    pub best_schedule: Vec<u8>,
    pub best_duration: usize,
    pub best_tabu_list: SimpleTabuList,
    pub iter_since_best: u32,
    pub reset_counter: u32,
}

impl View for Walker {
    type V = Walk;

    open spec fn view(&self) -> Walk {
        Walk {
            schedule: self.schedule@,
            tabu: self.tabu_list@,
            best_schedule: self.best_schedule@,
            best_duration: self.best_duration as int,
            best_tabu: self.best_tabu_list@,
            iter_since_best: self.iter_since_best as int,
            reset_counter: self.reset_counter as int,
        }
    }
}

/// Exchanges the activities `i` and `j` in the order.
pub fn swap_jobs(schedule: &mut Vec<u8>, i: u8, j: u8)
    ensures
        final(schedule)@ == swap_ids(old(schedule)@, i, j),
{
    let ghost before = schedule@;
    let n = schedule.len();
    let mut p: usize = 0;
    while p < n
        invariant
            n == before.len(),
            schedule.len() == n,
            p <= n,
            forall|q: int| 0 <= q < p ==> schedule[q] == swap_ids(before, i, j)[q],
            forall|q: int| p <= q < n ==> schedule[q] == before[q],
        decreases n - p,
    {
        let other = swapped(schedule[p], Some((i, j)));
        schedule[p] = other;
        p += 1;
    }
    assert(schedule@ =~= swap_ids(before, i, j));
}

/// The order with the entries at two places exchanged.
pub fn apply_move(schedule: &Vec<u8>, places: (usize, usize)) -> (moved: Vec<u8>)
    requires
        places.0 < schedule.len(),
        places.1 < schedule.len(),
    ensures
        moved@ == crate::order::swap_positions(schedule@, places.0 as int, places.1 as int),
{
    let mut moved = copy_bytes(schedule.as_slice());
    let first = schedule[places.0];
    let second = schedule[places.1];
    moved[places.0] = second;
    moved[places.1] = first;
    moved
}

impl Walker {
    /// The walker belongs to the project: it stands on a topological order,
    /// and its tabu lists are those of a project with as many activities.
    pub open spec fn well_formed(&self, p: Project) -> bool {
        &&& p.walking(self@)
        &&& self.tabu_list.well_formed()
        &&& self.tabu_list.activities() == p.jobs()
        &&& self.best_tabu_list.well_formed()
        &&& self.best_tabu_list.activities() == p.jobs()
    }

    /// A walker that starts from `schedule` with nothing tabu.
    pub fn new(dag: &DAG, schedule: Vec<u8>, tabu_list_size: usize) -> (walker: Walker)
        requires
            dag.wf(),
            dag@.topological(schedule@),
            tabu_list_size >= 1,
        ensures
            walker.well_formed(dag@),
            walker@ == dag@.start(schedule@, tabu_list_size as int),
    {
        let n = dag.jobs();
        let duration = dag.compute_execution_time(schedule.as_slice(), None);
        let best_schedule = copy_bytes(schedule.as_slice());
        Walker {
            schedule,
            tabu_list: SimpleTabuList::new(n, tabu_list_size),
            best_schedule,
            best_duration: duration,
            best_tabu_list: SimpleTabuList::new(n, tabu_list_size),
            iter_since_best: 0,
            reset_counter: 0,
        }
    }

    /// The move to make, with the makespan to which it leads: among the
    /// moves that are not tabu or lead below the best makespan, the first of
    /// those that lead to the smallest makespan.
    pub fn select_move(&self, dag: &DAG, moves: &Vec<(u8, u8)>) -> (found: Option<(usize, usize)>)
        requires
            dag.wf(),
            self.well_formed(dag@),
            forall|m: int|
                0 <= m < moves.len() ==> dag@.topological(
                    swap_ids(self.schedule@, (#[trigger] moves[m]).0, moves[m].1),
                ),
            forall|m: int|
                0 <= m < moves.len() ==> ((#[trigger] moves[m]).0 as int) < dag@.jobs() && (
                moves[m].1 as int) < dag@.jobs(),
        ensures
            match found {
                Some((k, duration)) => dag@.selects(self@, moves@, k as int) && duration
                    == dag@.rating(self.schedule@, moves[k as int]),
                None => !dag@.has_admissible(self@, moves@),
            },
    {
        let ghost p = dag@;
        let ghost walk = self@;
        let mut found: Option<(usize, usize)> = None;
        let mut k: usize = 0;
        while k < moves.len()
            invariant
                dag.wf(),
                p == dag@,
                walk == self@,
                self.well_formed(p),
                k <= moves.len(),
                forall|m: int|
                    0 <= m < moves.len() ==> p.topological(
                        swap_ids(self.schedule@, (#[trigger] moves[m]).0, moves[m].1),
                    ),
                forall|m: int|
                    0 <= m < moves.len() ==> ((#[trigger] moves[m]).0 as int) < p.jobs() && (
                    moves[m].1 as int) < p.jobs(),
                match found {
                    Some((best, duration)) => {
                        &&& best < k
                        &&& p.admissible(walk, moves[best as int])
                        &&& duration == p.rating(walk.schedule, moves[best as int])
                        &&& forall|m: int|
                            0 <= m < k && p.admissible(walk, #[trigger] moves[m]) ==> duration
                                < p.rating(walk.schedule, moves[m]) || (duration == p.rating(
                                walk.schedule,
                                moves[m],
                            ) && best <= m)
                    },
                    None => forall|m: int| 0 <= m < k ==> !p.admissible(walk, #[trigger] moves[m]),
                },
            decreases moves.len() - k,
        {
            let (i, j) = moves[k];
            assert(p.topological(swap_ids(self.schedule@, moves[k as int].0, moves[k as int].1)));
            let duration = dag.compute_execution_time(self.schedule.as_slice(), Some((i, j)));
            let allowed = self.tabu_list.is_possible_move(i as usize, j as usize, MoveType::Swap)
                || duration < self.best_duration;
            proof {
                assert(0 <= moves[k as int].0 < p.jobs() && 0 <= moves[k as int].1 < p.jobs());
                assert(allowed == p.admissible(walk, moves[k as int]));
            }
            if allowed {
                match found {
                    Some((best, smallest)) => {
                        if duration < smallest {
                            found = Some((k, duration));
                        }
                    },
                    None => {
                        found = Some((k, duration));
                    },
                }
            }
            k += 1;
        }
        found
    }

    /// One iteration of the search.
    pub fn step(&mut self, dag: &DAG, options: &SchedulerOptions)
        requires
            dag.wf(),
            old(self).well_formed(dag@),
            old(self).iter_since_best < u32::MAX,
            old(self).reset_counter < u32::MAX,
        ensures
            final(self).well_formed(dag@),
            final(self)@ == dag@.step(*options, old(self)@),
            final(self).best_duration <= old(self).best_duration,
    {
        let ghost p = dag@;
        let ghost walk = self@;
        proof {
            lemma_step(p, *options, walk);
        }
        match options.iter_since_best_reset {
            Some(reset) => {
                if self.reset_counter >= reset {
                    self.schedule = copy_bytes(self.best_schedule.as_slice());
                    self.tabu_list = self.best_tabu_list.snapshot();
                    self.reset_counter = 0;
                }
            },
            None => {},
        }
        let ghost from = self@;
        assert(from == p.restored(walk, options.iter_since_best_reset));
        let moves = dag.compute_reduced_neighborhood_moves(
            self.schedule.as_slice(),
            options.swap_range,
        );
        match self.select_move(dag, &moves) {
            Some((k, duration)) => {
                proof {
                    lemma_selected(p, from, moves@, k as int);
                }
                let (i, j) = moves[k];
                swap_jobs(&mut self.schedule, i, j);
                self.tabu_list.add_turn_to_tabu_list(i as usize, j as usize, MoveType::Swap);
                if duration < self.best_duration {
                    self.best_schedule = copy_bytes(self.schedule.as_slice());
                    self.best_duration = duration;
                    self.best_tabu_list = self.tabu_list.snapshot();
                    self.iter_since_best = 0;
                    self.reset_counter = 0;
                } else {
                    self.iter_since_best = self.iter_since_best + 1;
                    self.reset_counter = self.reset_counter + 1;
                }
                assert(self@ == p.moved(from, moves[k as int]));
            },
            None => {
                self.iter_since_best = self.iter_since_best + 1;
                self.reset_counter = self.reset_counter + 1;
                assert(self@ == p.waited(from));
            },
        }
    }

    /// At most `iterations` iterations of the search: it stops before an
    /// iteration where the walker has gone `max_iter_since_best` iterations
    /// without a new best schedule, and after one where the best makespan is
    /// the lower bound.
    pub fn advance(
        &mut self,
        dag: &DAG,
        options: &SchedulerOptions,
        lower_bound: usize,
        iterations: u32,
    )
        requires
            dag.wf(),
            old(self).well_formed(dag@),
            old(self).iter_since_best + iterations <= u32::MAX,
            old(self).reset_counter + iterations <= u32::MAX,
        ensures
            final(self).well_formed(dag@),
            final(self)@ == dag@.run(*options, lower_bound as int, old(self)@, iterations as nat),
            final(self).best_duration <= old(self).best_duration,
    {
        let ghost p = dag@;
        let ghost start = self@;
        let mut done: u32 = 0;
        let mut stop = false;
        while done < iterations && !stop
            invariant
                dag.wf(),
                p == dag@,
                self.well_formed(p),
                done <= iterations,
                self.iter_since_best <= start.iter_since_best + done,
                self.reset_counter <= start.reset_counter + done,
                start.iter_since_best + iterations <= u32::MAX,
                start.reset_counter + iterations <= u32::MAX,
                self.best_duration <= start.best_duration,
                p.run(*options, lower_bound as int, start, iterations as nat) == if stop {
                    self@
                } else {
                    p.run(*options, lower_bound as int, self@, (iterations - done) as nat)
                },
            decreases
                    iterations - done + if stop {
                        0int
                    } else {
                        1int
                    },
        {
            if self.iter_since_best >= options.max_iter_since_best {
                stop = true;
            } else {
                self.step(dag, options);
                done = done + 1;
                if self.best_duration == lower_bound {
                    stop = true;
                }
            }
        }
    }
}

} // verus!
