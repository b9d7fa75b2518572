use rcpsp::dag::DAG;
use rcpsp::problem::PspLibPrecedenceRelation;
use rcpsp::problem::PspLibProblem;
use rcpsp::problem::PspLibProblemResources;
use rcpsp::problem::PspLibRequestDuration;
use rcpsp::problem::PspLibResourceAvailability;
use rcpsp::scheduler::single_walker;
use rcpsp::scheduler::SchedulerOptions;

fn problem(rows: Vec<(u8, u8, [u8; 4], Vec<u8>)>, capacities: [u8; 4]) -> PspLibProblem {
    let mut precedence_relations = Vec::new();
    let mut request_durations = Vec::new();
    for (id, duration, demand, successors) in rows.iter() {
        precedence_relations.push(PspLibPrecedenceRelation {
            job_number: *id,
            mode_count: 1,
            successor_count: successors.len() as u8,
            successors: successors.clone(),
        });
        request_durations.push(PspLibRequestDuration {
            job_number: *id,
            mode: 1,
            duration: *duration,
            r1: demand[0],
            r2: demand[1],
            r3: demand[2],
            r4: demand[3],
        });
    }
    PspLibProblem {
        file_with_basedata: String::from("test"),
        initial_rng: 0,
        projects: 1,
        jobs: rows.len(),
        horizon: 0,
        resources: PspLibProblemResources { renewable: 4, nonrenewable: 0, doubly_constrained: 0 },
        project_info: Vec::new(),
        precedence_relations,
        request_durations,
        resource_availabilities: PspLibResourceAvailability {
            r1: capacities[0],
            r2: capacities[1],
            r3: capacities[2],
            r4: capacities[3],
        },
    }
}

fn options() -> SchedulerOptions {
    SchedulerOptions {
        number_of_iterations: 1000,
        max_iter_since_best: 300,
        tabu_list_size: 800,
        swap_range: 60,
        parallel: false,
        iter_since_best_reset: None,
        schedule_count: 1,
    }
}

fn chain() -> PspLibProblem {
    problem(
        vec![(0, 0, [0, 0, 0, 0], vec![1]), (1, 5, [1, 0, 0, 0], vec![2]), (2, 0, [0, 0, 0, 0], vec![])],
        [1, 0, 0, 0],
    )
}

fn parallel(capacity: u8) -> PspLibProblem {
    problem(
        vec![
            (0, 0, [0, 0, 0, 0], vec![1, 2]),
            (1, 3, [1, 0, 0, 0], vec![3]),
            (2, 3, [1, 0, 0, 0], vec![3]),
            (3, 0, [0, 0, 0, 0], vec![]),
        ],
        [capacity, 0, 0, 0],
    )
}

fn diamond() -> PspLibProblem {
    problem(
        vec![
            (0, 0, [0, 0, 0, 0], vec![1, 2]),
            (1, 2, [1, 0, 0, 0], vec![3]),
            (2, 2, [1, 0, 0, 0], vec![3]),
            (3, 3, [2, 0, 0, 0], vec![4]),
            (4, 0, [0, 0, 0, 0], vec![]),
        ],
        [2, 0, 0, 0],
    )
}

#[test]
fn chain_of_two_takes_the_duration() {
    let best = single_walker::scheduler(chain(), options()).unwrap();
    assert_eq!(best.duration, 5);
    assert_eq!(best.schedule, vec![0, 1, 2]);
}

#[test]
fn parallel_under_one_unit_runs_in_turn() {
    let best = single_walker::scheduler(parallel(1), options()).unwrap();
    assert_eq!(best.duration, 6);
}

#[test]
fn parallel_with_slack_runs_side_by_side() {
    let best = single_walker::scheduler(parallel(2), options()).unwrap();
    assert_eq!(best.duration, 3);
}

#[test]
fn diamond_takes_five() {
    let best = single_walker::scheduler(diamond(), options()).unwrap();
    assert_eq!(best.duration, 5);
}

#[test]
fn no_iteration_returns_the_initial_order() {
    let mut none = options();
    none.number_of_iterations = 0;
    let dag = DAG::new(&diamond()).unwrap();
    let initial = dag.compute_initial_schedule();
    let makespan = dag.compute_execution_time(&initial, None);
    let best = single_walker::scheduler(diamond(), none).unwrap();
    assert_eq!(best.schedule, initial);
    assert_eq!(best.schedule, vec![0, 1, 2, 3, 4]);
    assert_eq!(best.duration, makespan);
    assert_eq!(best.duration, 5);
}
