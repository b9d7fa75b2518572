//! The tabu search with one walker.

use crate::dag::bounds::forward_path;
use crate::dag::bounds::lemma_makespan_at_least_critical;
use crate::dag::construct::problem_error;
use crate::dag::construct::project_of;
use crate::dag::ranks::lemma_initial_order_unique;
use crate::dag::DAG;
use crate::problem::PspLibProblem;
use crate::project::Project;
use crate::scheduler::check_options;
use crate::scheduler::lemma_run;
use crate::scheduler::options_error;
use crate::scheduler::walker::Walker;
use crate::scheduler::OptimizedSchedule;
use crate::scheduler::SchedulerError;
use crate::scheduler::SchedulerOptions;
use crate::scheduler::Walk;
use vstd::prelude::*;

verus! {

/// Why the search does not start, if it does not: the options are checked
/// first, then the problem.
pub open spec fn search_error(psp: PspLibProblem, options: SchedulerOptions) -> Option<
    SchedulerError,
> {
    if options_error(options) is Some {
        options_error(options)
    } else if problem_error(psp) is Some {
        Some(SchedulerError::Problem(problem_error(psp).unwrap()))
    } else {
        None
    }
}

impl Project {
    /// `duration` lies between the length of a critical path and the
    /// makespan of the order in which the search starts.
    pub open spec fn bounded(self, duration: int) -> bool {
        exists|initial: Seq<u8>, path: Seq<int>|
            #![trigger self.initial_order(initial), self.critical(path)]
            self.initial_order(initial) && self.critical(path) && self.path_length(path) <= duration
                <= self.makespan(initial)
    }

    /// The state that one walker reaches from `initial` in
    /// `number_of_iterations` iterations at most, the length of `path` being
    /// the lower bound at which it stops.
    pub open spec fn outcome(self, options: SchedulerOptions, initial: Seq<u8>, path: Seq<int>) -> Walk {
        self.run(
            options,
            self.path_length(path),
            self.start(initial, options.tabu_list_size as int),
            options.number_of_iterations as nat,
        )
    }

    /// `schedule` with the makespan `duration` is what one walker finds: the
    /// best schedule of the state that it reaches from the initial order, a
    /// critical path giving the lower bound.
    pub open spec fn found_by_one(
        self,
        options: SchedulerOptions,
        schedule: Seq<u8>,
        duration: int,
    ) -> bool {
        exists|initial: Seq<u8>, path: Seq<int>|
            #![trigger self.initial_order(initial), self.critical(path)]
            self.initial_order(initial) && self.critical(path) && schedule == self.outcome(
                options,
                initial,
                path,
            ).best_schedule && duration == self.outcome(options, initial, path).best_duration
    }
}

/// All critical paths have one length.
pub proof fn lemma_critical_length(p: Project, path: Seq<int>, other: Seq<int>)
    requires
        p.critical(path),
        p.critical(other),
    ensures
        p.path_length(path) == p.path_length(other),
{
    assert(p.ends_at(path, p.sink()));
    assert(p.ends_at(other, p.sink()));
}

/// What lies within the bounds lies between the length of every critical
/// path and the makespan of the initial order.
pub proof fn lemma_bounded(p: Project, duration: int, initial: Seq<u8>, path: Seq<int>)
    requires
        p.shaped(),
        p.bounded(duration),
        p.initial_order(initial),
        p.critical(path),
    ensures
        p.path_length(path) <= duration <= p.makespan(initial),
{
    let (first, longest) = choose|first: Seq<u8>, longest: Seq<int>|
        #![trigger p.initial_order(first), p.critical(longest)]
        p.initial_order(first) && p.critical(longest) && p.path_length(longest) <= duration
            <= p.makespan(first);
    lemma_initial_order_unique(p, initial, first);
    lemma_critical_length(p, path, longest);
}

/// One walker finds one schedule: what it finds is a function of the problem
/// and the options.
pub proof fn lemma_found_by_one_unique(
    p: Project,
    options: SchedulerOptions,
    schedule: Seq<u8>,
    duration: int,
    other: Seq<u8>,
    other_duration: int,
)
    requires
        p.shaped(),
        p.found_by_one(options, schedule, duration),
        p.found_by_one(options, other, other_duration),
    ensures
        schedule == other,
        duration == other_duration,
{
    let (first, longest) = choose|first: Seq<u8>, longest: Seq<int>|
        #![trigger p.initial_order(first), p.critical(longest)]
        p.initial_order(first) && p.critical(longest) && schedule == p.outcome(
            options,
            first,
            longest,
        ).best_schedule && duration == p.outcome(options, first, longest).best_duration;
    let (second, path) = choose|second: Seq<u8>, path: Seq<int>|
        #![trigger p.initial_order(second), p.critical(path)]
        p.initial_order(second) && p.critical(path) && other == p.outcome(
            options,
            second,
            path,
        ).best_schedule && other_duration == p.outcome(options, second, path).best_duration;
    lemma_initial_order_unique(p, first, second);
    lemma_critical_length(p, longest, path);
}

/// Searches with one walker for an order of the activities of the problem
/// with a small makespan.
///
/// The search starts from the initial order, with nothing tabu. In each
/// iteration the walker makes the best move of the reduced neighbourhood that
/// is not tabu or leads below the best makespan so far. It stops after
/// `number_of_iterations` iterations, after `max_iter_since_best` iterations in
/// a row without a new best schedule, or when the best makespan is the
/// length of the critical path. The best order is returned: a topological
/// order, with its makespan.
pub fn scheduler(psp: PspLibProblem, options: SchedulerOptions) -> (result: Result<
    OptimizedSchedule,
    SchedulerError,
>)
    ensures
        match result {
            Ok(best) => {
                let p = project_of(psp);
                &&& search_error(psp, options) is None
                &&& p.valid()
                &&& p.found_by_one(options, best.schedule@, best.duration as int)
                &&& p.topological(best.schedule@)
                &&& best.duration == p.makespan(best.schedule@)
                &&& p.bounded(best.duration as int)
                &&& options.number_of_iterations == 0 ==> p.initial_order(best.schedule@)
            },
            Err(e) => search_error(psp, options) == Some(e),
        },
{
    match check_options(&options) {
        Ok(_) => {},
        Err(e) => {
            return Err(e);
        },
    }
    let dag = match DAG::new(&psp) {
        Ok(dag) => dag,
        Err(e) => {
            return Err(SchedulerError::Problem(e));
        },
    };
    let ghost p = dag@;
    let bound = dag.compute_lower_bound(false);
    let lower_bound = match bound {
        Some((length, path)) => length,
        None => 0,
    };
    let ghost path = forward_path(bound.unwrap().1@, false);
    let initial = dag.compute_initial_schedule();
    let ghost start = p.start(initial@, options.tabu_list_size as int);
    let mut walker = Walker::new(&dag, initial, options.tabu_list_size as usize);
    walker.advance(&dag, &options, lower_bound, options.number_of_iterations);
    proof {
        lemma_run(p, options, lower_bound as int, start, options.number_of_iterations as nat);
        lemma_makespan_at_least_critical(p, walker.best_schedule@, path);
        assert(p.initial_order(start.schedule) && p.critical(path) && p.path_length(path)
            <= walker.best_duration <= p.makespan(start.schedule));
    }
    Ok(OptimizedSchedule { schedule: walker.best_schedule, duration: walker.best_duration })
}

} // verus!
