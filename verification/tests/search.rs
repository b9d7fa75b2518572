use rcpsp::dag::construct::DagError;
use rcpsp::dag::DAG;
use rcpsp::problem::PspLibPrecedenceRelation;
use rcpsp::problem::PspLibProblem;
use rcpsp::problem::PspLibProblemResources;
use rcpsp::problem::PspLibRequestDuration;
use rcpsp::problem::PspLibResourceAvailability;
use rcpsp::scheduler::check_options;
use rcpsp::scheduler::multi_walker;
use rcpsp::scheduler::multi_walker::advance_all;
use rcpsp::scheduler::multi_walker::copy_near;
use rcpsp::scheduler::multi_walker::keep_best;
use rcpsp::scheduler::multi_walker::replace_worse_half;
use rcpsp::scheduler::multi_walker::Phases;
use rcpsp::scheduler::single_walker;
use rcpsp::scheduler::walker::Walker;
use rcpsp::scheduler::OptimizedSchedule;
use rcpsp::scheduler::SchedulerError;
use rcpsp::scheduler::SchedulerOptions;
use rcpsp::tabu_list::TabuList;
use rcpsp::MoveType;

fn instance(rows: Vec<(u8, u8, [u8; 4], Vec<u8>)>, capacities: [u8; 4]) -> PspLibProblem {
    let mut precedence_relations = Vec::new();
    let mut request_durations = Vec::new();
    for (id, duration, demand, successors) in rows.iter() {
        precedence_relations.push(PspLibPrecedenceRelation {
            job_number: *id,
            mode_count: 1,
            successor_count: successors.len() as u8,
            successors: successors.clone(),
        });
        request_durations.push(PspLibRequestDuration {
            job_number: *id,
            mode: 1,
            duration: *duration,
            r1: demand[0],
            r2: demand[1],
            r3: demand[2],
            r4: demand[3],
        });
    }
    PspLibProblem {
        file_with_basedata: String::from("test"),
        initial_rng: 0,
        projects: 1,
        jobs: rows.len(),
        horizon: 0,
        resources: PspLibProblemResources { renewable: 4, nonrenewable: 0, doubly_constrained: 0 },
        project_info: Vec::new(),
        precedence_relations,
        request_durations,
        resource_availabilities: PspLibResourceAvailability {
            r1: capacities[0],
            r2: capacities[1],
            r3: capacities[2],
            r4: capacities[3],
        },
    }
}

fn machines() -> PspLibProblem {
    let durations = [3u8, 3, 2, 2, 2];
    let mut rows = vec![(0u8, 0u8, [0u8; 4], vec![1, 2, 3, 4, 5])];
    for id in 1..=5u8 {
        rows.push((id, durations[id as usize - 1], [1, 0, 0, 0], vec![6]));
    }
    rows.push((6, 0, [0; 4], vec![]));
    instance(rows, [2, 0, 0, 0])
}

fn workshop() -> PspLibProblem {
    instance(
        vec![
            (0, 0, [0, 0, 0, 0], vec![1, 2, 3, 4]),
            (1, 4, [2, 1, 0, 0], vec![5]),
            (2, 3, [1, 0, 1, 0], vec![5, 6]),
            (3, 5, [1, 1, 0, 0], vec![6, 7]),
            (4, 2, [2, 0, 0, 1], vec![7]),
            (5, 3, [1, 1, 1, 0], vec![8]),
            (6, 4, [2, 0, 0, 0], vec![8]),
            (7, 2, [1, 1, 0, 1], vec![9]),
            (8, 3, [1, 0, 1, 0], vec![9]),
            (9, 0, [0, 0, 0, 0], vec![]),
        ],
        [3, 2, 1, 1],
    )
}

fn chain() -> PspLibProblem {
    instance(
        vec![(0, 0, [0; 4], vec![1]), (1, 5, [1, 0, 0, 0], vec![2]), (2, 0, [0; 4], vec![])],
        [1, 0, 0, 0],
    )
}

fn parallel(capacity: u8) -> PspLibProblem {
    instance(
        vec![
            (0, 0, [0; 4], vec![1, 2]),
            (1, 3, [1, 0, 0, 0], vec![3]),
            (2, 3, [1, 0, 0, 0], vec![3]),
            (3, 0, [0; 4], vec![]),
        ],
        [capacity, 0, 0, 0],
    )
}

fn diamond() -> PspLibProblem {
    instance(
        vec![
            (0, 0, [0; 4], vec![1, 2]),
            (1, 2, [1, 0, 0, 0], vec![3]),
            (2, 2, [1, 0, 0, 0], vec![3]),
            (3, 3, [2, 0, 0, 0], vec![4]),
            (4, 0, [0; 4], vec![]),
        ],
        [2, 0, 0, 0],
    )
}

fn options(walkers: u32) -> SchedulerOptions {
    SchedulerOptions {
        number_of_iterations: 1000,
        max_iter_since_best: 300,
        tabu_list_size: 800,
        swap_range: 60,
        parallel: false,
        iter_since_best_reset: None,
        schedule_count: walkers,
    }
}

fn sound(psp: &PspLibProblem, best: &OptimizedSchedule) {
    let dag = DAG::new(psp).unwrap();
    assert!(dag.is_topological(&best.schedule));
    assert_eq!(best.schedule[0], 0);
    assert_eq!(*best.schedule.last().unwrap() as usize, dag.jobs() - 1);
    assert_eq!(dag.compute_execution_time(&best.schedule, None), best.duration);
    let starts = dag.compute_start_times(&best.schedule, None);
    let mut latest = 0;
    for a in 0..dag.jobs() {
        latest = latest.max(starts[a] + dag.duration(a as u8) as usize);
        for b in 0..dag.jobs() {
            if dag.has_edge(a as u8, b as u8) {
                assert!(starts[a] + dag.duration(a as u8) as usize <= starts[b]);
            }
        }
    }
    assert_eq!(best.duration, latest);
    let demands: Vec<[u8; 4]> = (0..dag.jobs())
        .map(|a| {
            let row = psp.request_durations.iter().find(|r| r.job_number as usize == a).unwrap();
            [row.r1, row.r2, row.r3, row.r4]
        })
        .collect();
    let capacities = [
        psp.resource_availabilities.r1,
        psp.resource_availabilities.r2,
        psp.resource_availabilities.r3,
        psp.resource_availabilities.r4,
    ];
    for t in 0..=dag.compute_upper_bound() {
        for k in 0..4 {
            let mut taken = 0usize;
            for a in 0..dag.jobs() {
                if starts[a] <= t && t < starts[a] + dag.duration(a as u8) as usize {
                    taken += demands[a][k] as usize;
                }
            }
            assert!(taken <= capacities[k] as usize);
        }
    }
    let (bound, _) = dag.compute_lower_bound(false).unwrap();
    assert!(bound <= best.duration);
    let initial = dag.compute_initial_schedule();
    assert!(best.duration <= dag.compute_execution_time(&initial, None));
}

#[test]
fn one_walker_finds_the_better_order() {
    let best = single_walker::scheduler(machines(), options(1)).unwrap();
    assert_eq!(best.duration, 6);
    sound(&machines(), &best);
}

#[test]
fn one_walker_takes_the_first_of_the_best_moves() {
    let mut once = options(1);
    once.number_of_iterations = 1;
    let best = single_walker::scheduler(machines(), once).unwrap();
    assert_eq!(best.duration, 6);
    assert_eq!(best.schedule, vec![0, 4, 2, 3, 1, 5, 6]);
}

#[test]
fn the_search_is_the_same_every_time() {
    let first = single_walker::scheduler(workshop(), options(1)).unwrap();
    let second = single_walker::scheduler(workshop(), options(1)).unwrap();
    assert_eq!(first.schedule, second.schedule);
    assert_eq!(first.duration, second.duration);
    let mut side_by_side = options(1);
    side_by_side.parallel = true;
    let third = single_walker::scheduler(workshop(), side_by_side).unwrap();
    assert_eq!(first.schedule, third.schedule);
    assert_eq!(first.duration, third.duration);
}

#[test]
fn the_result_of_one_walker_is_sound() {
    for psp in [chain(), parallel(1), parallel(2), diamond(), machines(), workshop()] {
        let best = single_walker::scheduler(psp.clone(), options(1)).unwrap();
        sound(&psp, &best);
    }
}

#[test]
fn going_back_to_the_best_schedule_keeps_the_result_sound() {
    let mut back = options(1);
    back.iter_since_best_reset = Some(3);
    back.tabu_list_size = 2;
    back.max_iter_since_best = 50;
    for psp in [machines(), workshop()] {
        let best = single_walker::scheduler(psp.clone(), back.clone()).unwrap();
        sound(&psp, &best);
    }
    let best = single_walker::scheduler(machines(), back).unwrap();
    assert_eq!(best.duration, 6);
}

#[test]
fn more_iterations_never_give_a_worse_schedule() {
    let mut last = usize::MAX;
    for iterations in [0u32, 1, 2, 3, 5, 8, 13, 50] {
        let mut some = options(1);
        some.number_of_iterations = iterations;
        let best = single_walker::scheduler(workshop(), some).unwrap();
        assert!(best.duration <= last);
        last = best.duration;
    }
}

#[test]
fn a_walker_that_finds_nothing_better_stops() {
    let mut patient = options(1);
    patient.max_iter_since_best = 0;
    let best = single_walker::scheduler(machines(), patient).unwrap();
    assert_eq!(best.duration, 7);
    assert_eq!(best.schedule, vec![0, 1, 2, 3, 4, 5, 6]);
}

#[test]
fn several_walkers_solve_the_small_problems() {
    assert_eq!(multi_walker::scheduler(chain(), options(4)).unwrap().duration, 5);
    assert_eq!(multi_walker::scheduler(parallel(1), options(4)).unwrap().duration, 6);
    assert_eq!(multi_walker::scheduler(parallel(2), options(4)).unwrap().duration, 3);
    assert_eq!(multi_walker::scheduler(diamond(), options(4)).unwrap().duration, 5);
    assert_eq!(multi_walker::scheduler(machines(), options(4)).unwrap().duration, 6);
}

#[test]
fn the_result_of_several_walkers_is_sound() {
    for walkers in [1u32, 2, 3, 8] {
        for psp in [chain(), parallel(1), diamond(), machines(), workshop()] {
            let best = multi_walker::scheduler(psp.clone(), options(walkers)).unwrap();
            sound(&psp, &best);
        }
    }
}

#[test]
fn several_walkers_without_iterations_return_an_initial_order() {
    let mut none = options(3);
    none.number_of_iterations = 0;
    let best = multi_walker::scheduler(machines(), none).unwrap();
    sound(&machines(), &best);
    assert!(best.duration <= 7);
}

#[test]
fn no_walker_is_an_error() {
    let result = single_walker::scheduler(chain(), options(0));
    assert_eq!(result.err(), Some(SchedulerError::WalkerCount));
    let result = multi_walker::scheduler(chain(), options(0));
    assert_eq!(result.err(), Some(SchedulerError::WalkerCount));
}

#[test]
fn a_swap_range_below_two_is_an_error() {
    let mut narrow = options(1);
    narrow.swap_range = 1;
    assert_eq!(single_walker::scheduler(chain(), narrow.clone()).err(), Some(SchedulerError::SwapRange));
    assert_eq!(multi_walker::scheduler(chain(), narrow).err(), Some(SchedulerError::SwapRange));
}

#[test]
fn a_tabu_list_without_places_is_an_error() {
    let mut forgetful = options(1);
    forgetful.tabu_list_size = 0;
    assert_eq!(
        single_walker::scheduler(chain(), forgetful.clone()).err(),
        Some(SchedulerError::TabuListSize)
    );
    assert_eq!(multi_walker::scheduler(chain(), forgetful).err(), Some(SchedulerError::TabuListSize));
}

#[test]
fn the_options_are_looked_at_in_turn_and_before_the_problem() {
    let mut wrong = options(0);
    wrong.swap_range = 0;
    wrong.tabu_list_size = 0;
    assert_eq!(check_options(&wrong), Err(SchedulerError::WalkerCount));
    wrong.schedule_count = 1;
    assert_eq!(check_options(&wrong), Err(SchedulerError::SwapRange));
    wrong.swap_range = 2;
    assert_eq!(check_options(&wrong), Err(SchedulerError::TabuListSize));
    wrong.tabu_list_size = 1;
    assert_eq!(check_options(&wrong), Ok(()));
    let mut broken = chain();
    broken.jobs = 7;
    assert_eq!(
        single_walker::scheduler(broken.clone(), options(0)).err(),
        Some(SchedulerError::WalkerCount)
    );
    assert_eq!(
        single_walker::scheduler(broken.clone(), options(1)).err(),
        Some(SchedulerError::Problem(DagError::JobCount))
    );
    assert_eq!(
        multi_walker::scheduler(broken, options(2)).err(),
        Some(SchedulerError::Problem(DagError::JobCount))
    );
}

#[test]
fn a_step_makes_the_best_move_and_remembers_it() {
    let dag = DAG::new(&machines()).unwrap();
    let mut walker = Walker::new(&dag, dag.compute_initial_schedule(), 5);
    assert_eq!(walker.best_duration, 7);
    let moves = dag.compute_reduced_neighborhood_moves(&walker.schedule, 60);
    assert_eq!(
        moves,
        vec![(1, 2), (1, 3), (1, 4), (1, 5), (2, 3), (2, 4), (2, 5), (3, 4), (3, 5), (4, 5)]
    );
    assert_eq!(walker.select_move(&dag, &moves), Some((2, 6)));
    walker.step(&dag, &options(1));
    assert_eq!(walker.schedule, vec![0, 4, 2, 3, 1, 5, 6]);
    assert_eq!(walker.best_schedule, vec![0, 4, 2, 3, 1, 5, 6]);
    assert_eq!(walker.best_duration, 6);
    assert_eq!(walker.iter_since_best, 0);
    assert_eq!(walker.reset_counter, 0);
    assert!(!walker.tabu_list.is_possible_move(1, 4, MoveType::Swap));
    assert!(!walker.best_tabu_list.is_possible_move(1, 4, MoveType::Swap));
    assert!(walker.tabu_list.is_possible_move(1, 2, MoveType::Swap));
    walker.step(&dag, &options(1));
    assert_eq!(walker.best_duration, 6);
    assert_eq!(walker.iter_since_best, 1);
    assert_eq!(walker.reset_counter, 1);
    assert_eq!(walker.best_schedule, vec![0, 4, 2, 3, 1, 5, 6]);
    assert!(!walker.best_tabu_list.is_possible_move(1, 4, MoveType::Swap));
}

#[test]
fn a_tabu_move_is_made_only_where_it_beats_the_best() {
    let dag = DAG::new(&machines()).unwrap();
    let mut walker = Walker::new(&dag, dag.compute_initial_schedule(), 50);
    let moves = dag.compute_reduced_neighborhood_moves(&walker.schedule, 60);
    for (i, j) in moves.iter() {
        walker.tabu_list.add_turn_to_tabu_list(*i as usize, *j as usize, MoveType::Swap);
    }
    assert_eq!(walker.select_move(&dag, &moves), Some((2, 6)));
    walker.best_duration = 6;
    assert_eq!(walker.select_move(&dag, &moves), None);
    walker.step(&dag, &options(1));
    assert_eq!(walker.schedule, vec![0, 1, 2, 3, 4, 5, 6]);
    assert_eq!(walker.iter_since_best, 1);
    assert_eq!(walker.reset_counter, 1);
}

#[test]
fn the_walker_goes_back_to_its_best_schedule() {
    let dag = DAG::new(&machines()).unwrap();
    let mut back = options(1);
    back.iter_since_best_reset = Some(2);
    let mut walker = Walker::new(&dag, dag.compute_initial_schedule(), 50);
    walker.step(&dag, &back);
    let best = walker.best_schedule.clone();
    walker.step(&dag, &back);
    walker.step(&dag, &back);
    assert_eq!(walker.reset_counter, 2);
    assert_eq!(walker.iter_since_best, 2);
    assert_ne!(walker.schedule, best);
    let from_best = {
        let mut other = Walker::new(&dag, best.clone(), 50);
        other.tabu_list.add_turn_to_tabu_list(1, 4, MoveType::Swap);
        other.best_duration = 6;
        other.step(&dag, &options(1));
        other.schedule
    };
    walker.step(&dag, &back);
    assert_eq!(walker.schedule, from_best);
    assert_eq!(walker.reset_counter, 1);
    assert_eq!(walker.iter_since_best, 3);
    assert_eq!(walker.best_schedule, best);
}

#[test]
fn advancing_stops_at_the_lower_bound() {
    let dag = DAG::new(&parallel(2)).unwrap();
    let mut walker = Walker::new(&dag, dag.compute_initial_schedule(), 5);
    walker.advance(&dag, &options(1), 3, 100);
    assert_eq!(walker.best_duration, 3);
    assert_eq!(walker.iter_since_best, 1);
    let mut other = Walker::new(&dag, dag.compute_initial_schedule(), 5);
    other.advance(&dag, &options(1), 0, 7);
    assert_eq!(other.best_duration, 3);
    assert_eq!(other.iter_since_best, 7);
}

#[test]
fn the_worse_half_starts_anew_near_the_better_half() {
    let dag = DAG::new(&machines()).unwrap();
    let mut walkers = Vec::new();
    for order in [[0u8, 1, 2, 3, 4, 5, 6], [0, 1, 4, 3, 2, 5, 6], [0, 5, 4, 3, 2, 1, 6]] {
        let mut walker = Walker::new(&dag, order.to_vec(), 5);
        walker.tabu_list.add_turn_to_tabu_list(order[1] as usize, order[2] as usize, MoveType::Swap);
        walker.best_tabu_list = walker.tabu_list.snapshot();
        walkers.push(walker);
    }
    let durations: Vec<usize> = walkers.iter().map(|w| w.best_duration).collect();
    assert_eq!(durations, vec![7, 6, 7]);
    replace_worse_half(&mut walkers, &dag, 60);
    assert_eq!(walkers.len(), 3);
    assert_eq!(walkers[0].schedule, vec![0, 1, 2, 3, 4, 5, 6]);
    assert_eq!(walkers[1].schedule, vec![0, 1, 4, 3, 2, 5, 6]);
    assert!(dag.is_topological(&walkers[2].schedule));
    assert_eq!(walkers[2].best_schedule, walkers[2].schedule);
    assert_eq!(
        walkers[2].best_duration,
        dag.compute_execution_time(&walkers[2].schedule, None)
    );
    assert!(!walkers[2].tabu_list.is_possible_move(1, 4, MoveType::Swap));
    assert!(walkers[2].tabu_list.is_possible_move(5, 4, MoveType::Swap));
    assert_eq!(walkers[2].iter_since_best, 0);
}

#[test]
fn a_copy_near_a_walker_starts_from_its_best_schedule() {
    let dag = DAG::new(&chain()).unwrap();
    let source = Walker::new(&dag, vec![0, 1, 2], 3);
    let copy = copy_near(&dag, &source, 60);
    assert_eq!(copy.schedule, vec![0, 1, 2]);
    assert_eq!(copy.best_duration, 5);
}

#[test]
fn the_best_schedule_of_all_walkers_is_kept() {
    let dag = DAG::new(&machines()).unwrap();
    let mut walkers = vec![
        Walker::new(&dag, vec![0, 1, 2, 3, 4, 5, 6], 5),
        Walker::new(&dag, vec![0, 1, 4, 3, 2, 5, 6], 5),
    ];
    let mut best = OptimizedSchedule { schedule: vec![0, 2, 1, 3, 4, 5, 6], duration: 7 };
    keep_best(&mut best, &walkers, &dag);
    assert_eq!(best.duration, 6);
    assert_eq!(best.schedule, vec![0, 1, 4, 3, 2, 5, 6]);
    advance_all(&mut walkers, &dag, &options(2), 3, 4);
    assert_eq!(walkers[0].best_duration, 6);
    assert_eq!(walkers[1].best_duration, 6);
    keep_best(&mut best, &walkers, &dag);
    assert_eq!(best.duration, 6);
    assert_eq!(best.schedule, vec![0, 1, 4, 3, 2, 5, 6]);
}

#[test]
fn the_best_makespan_never_grows_from_step_to_step() {
    let dag = DAG::new(&workshop()).unwrap();
    let mut walker = Walker::new(&dag, dag.compute_initial_schedule(), 3);
    let mut back = options(1);
    back.iter_since_best_reset = Some(4);
    back.swap_range = 3;
    let mut last = walker.best_duration;
    for _ in 0..60 {
        walker.step(&dag, &back);
        assert!(walker.best_duration <= last);
        assert!(dag.is_topological(&walker.schedule));
        assert!(dag.is_topological(&walker.best_schedule));
        assert_eq!(dag.compute_execution_time(&walker.best_schedule, None), walker.best_duration);
        last = walker.best_duration;
    }
}

#[test]
fn the_phases_take_two_tenths_and_then_one_tenth_each() {
    let dag = DAG::new(&workshop()).unwrap();
    let mut some = options(3);
    some.number_of_iterations = 620;
    let mut phases = Phases::start(&dag, &some);
    assert_eq!(phases.parts, 0);
    assert_eq!(phases.walkers.len(), 3);
    assert_eq!(phases.walkers[0].schedule, dag.compute_initial_schedule());
    assert_eq!(phases.lower_bound, dag.compute_lower_bound(false).unwrap().0);
    for walker in phases.walkers.iter() {
        assert!(dag.is_topological(&walker.schedule));
        assert!(phases.best.duration <= walker.best_duration);
        assert_eq!(walker.iter_since_best, 0);
    }
    phases.lower_bound = 0;
    let mut lengths = Vec::new();
    let mut last = phases.best.duration;
    while let Some(iterations) = phases.begin_phase(&dag, &some) {
        lengths.push(iterations);
        let bound = phases.lower_bound;
        advance_all(&mut phases.walkers, &dag, &some, bound, iterations);
        phases.end_phase(&dag);
        assert!(phases.best.duration <= last);
        last = phases.best.duration;
        for walker in phases.walkers.iter() {
            assert!(phases.best.duration <= walker.best_duration);
        }
    }
    assert_eq!(lengths, vec![40, 20, 20, 20, 20, 20, 20, 20, 20]);
    assert_eq!(phases.parts, 10);
    assert_eq!(phases.begin_phase(&dag, &some), None);
}

#[test]
fn the_phases_end_at_the_lower_bound_after_the_first() {
    let dag = DAG::new(&chain()).unwrap();
    let mut phases = Phases::start(&dag, &options(2));
    assert_eq!(phases.best.duration, 5);
    assert_eq!(phases.lower_bound, 5);
    assert_eq!(phases.begin_phase(&dag, &options(2)), Some(100));
    phases.end_phase(&dag);
    assert_eq!(phases.parts, 2);
    assert_eq!(phases.begin_phase(&dag, &options(2)), None);
    assert_eq!(phases.parts, 2);
}
