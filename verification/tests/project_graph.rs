use rcpsp::dag::construct::DagError;
use rcpsp::dag::DAG;
use rcpsp::problem::PspLibPrecedenceRelation;
use rcpsp::problem::PspLibProblem;
use rcpsp::problem::PspLibProblemResources;
use rcpsp::problem::PspLibRequestDuration;
use rcpsp::problem::PspLibResourceAvailability;

fn relation(job: u8, successors: Vec<u8>) -> PspLibPrecedenceRelation {
    PspLibPrecedenceRelation {
        job_number: job,
        mode_count: 1,
        successor_count: successors.len() as u8,
        successors,
    }
}

fn request(job: u8, duration: u8, demand: [u8; 4]) -> PspLibRequestDuration {
    PspLibRequestDuration {
        job_number: job,
        mode: 1,
        duration,
        r1: demand[0],
        r2: demand[1],
        r3: demand[2],
        r4: demand[3],
    }
}

fn assemble(
    jobs: usize,
    precedence_relations: Vec<PspLibPrecedenceRelation>,
    request_durations: Vec<PspLibRequestDuration>,
    capacities: [u8; 4],
) -> PspLibProblem {
    PspLibProblem {
        file_with_basedata: String::from("test"),
        initial_rng: 0,
        projects: 1,
        jobs,
        horizon: 0,
        resources: PspLibProblemResources { renewable: 4, nonrenewable: 0, doubly_constrained: 0 },
        project_info: Vec::new(),
        precedence_relations,
        request_durations,
        resource_availabilities: PspLibResourceAvailability {
            r1: capacities[0],
            r2: capacities[1],
            r3: capacities[2],
            r4: capacities[3],
        },
    }
}

fn problem(rows: Vec<(u8, u8, [u8; 4], Vec<u8>)>, capacities: [u8; 4]) -> PspLibProblem {
    let mut relations = Vec::new();
    let mut requests = Vec::new();
    for (id, duration, demand, successors) in rows.iter() {
        relations.push(relation(*id, successors.clone()));
        requests.push(request(*id, *duration, *demand));
    }
    assemble(rows.len(), relations, requests, capacities)
}

fn diamond() -> PspLibProblem {
    problem(
        vec![
            (0, 0, [0, 0, 0, 0], vec![1, 2]),
            (1, 2, [1, 0, 0, 0], vec![3]),
            (2, 2, [1, 0, 0, 0], vec![3]),
            (3, 3, [2, 0, 0, 0], vec![4]),
            (4, 0, [0, 0, 0, 0], vec![]),
        ],
        [2, 0, 0, 0],
    )
}

fn stairs() -> PspLibProblem {
    problem(
        vec![
            (0, 0, [0, 0, 0, 0], vec![1, 2, 3]),
            (1, 4, [1, 1, 0, 0], vec![2, 4]),
            (2, 1, [1, 0, 0, 0], vec![5]),
            (3, 7, [0, 1, 0, 0], vec![5]),
            (4, 2, [1, 0, 0, 0], vec![5]),
            (5, 0, [0, 0, 0, 0], vec![]),
        ],
        [2, 2, 0, 0],
    )
}

fn error_of(psp: &PspLibProblem) -> DagError {
    match DAG::new(psp) {
        Ok(_) => panic!("the problem was taken"),
        Err(e) => e,
    }
}

#[test]
fn graph_holds_what_the_problem_says() {
    let dag = DAG::new(&diamond()).unwrap();
    assert_eq!(dag.jobs(), 5);
    assert_eq!(dag.duration(0), 0);
    assert_eq!(dag.duration(1), 2);
    assert_eq!(dag.duration(3), 3);
    assert_eq!(dag.demand(1, 0), 1);
    assert_eq!(dag.demand(3, 0), 2);
    assert_eq!(dag.demand(3, 3), 0);
    assert_eq!(dag.capacity(0), 2);
    assert_eq!(dag.capacity(1), 0);
    assert!(dag.has_edge(0, 1));
    assert!(dag.has_edge(0, 2));
    assert!(dag.has_edge(1, 3));
    assert!(dag.has_edge(2, 3));
    assert!(dag.has_edge(3, 4));
    assert!(!dag.has_edge(1, 0));
    assert!(!dag.has_edge(1, 2));
    assert!(!dag.has_edge(0, 3));
    assert!(!dag.has_edge(0, 4));
    assert!(!dag.has_edge(4, 4));
    assert!(!dag.has_edge(7, 1));
    assert!(!dag.has_edge(1, 200));
}

#[test]
fn rows_may_come_in_any_order() {
    let psp = assemble(
        3,
        vec![relation(1, vec![2]), relation(0, vec![1])],
        vec![request(2, 0, [0; 4]), request(0, 0, [0; 4]), request(1, 9, [1, 2, 3, 4])],
        [1, 2, 3, 4],
    );
    let dag = DAG::new(&psp).unwrap();
    assert_eq!(dag.duration(1), 9);
    assert!(dag.has_edge(0, 1));
    assert!(dag.has_edge(1, 2));
    assert_eq!(dag.compute_execution_time(&[0, 1, 2], None), 9);
}

#[test]
fn an_edge_may_be_listed_twice() {
    let psp = assemble(
        3,
        vec![relation(0, vec![1, 1]), relation(1, vec![2]), relation(0, vec![1])],
        vec![request(0, 0, [0; 4]), request(1, 2, [0; 4]), request(2, 0, [0; 4])],
        [0; 4],
    );
    let dag = DAG::new(&psp).unwrap();
    assert!(dag.has_edge(0, 1));
    assert_eq!(dag.compute_job_execution_ranks(), vec![vec![0], vec![1], vec![2]]);
}

#[test]
fn too_few_jobs_are_refused() {
    let psp = assemble(1, vec![], vec![request(0, 0, [0; 4])], [0; 4]);
    assert_eq!(error_of(&psp), DagError::JobCount);
    let none = assemble(0, vec![], vec![], [0; 4]);
    assert_eq!(error_of(&none), DagError::JobCount);
}

#[test]
fn a_missing_row_of_durations_is_refused() {
    let psp = assemble(
        3,
        vec![relation(0, vec![1]), relation(1, vec![2])],
        vec![request(0, 0, [0; 4]), request(1, 1, [0; 4])],
        [0; 4],
    );
    assert_eq!(error_of(&psp), DagError::JobCount);
}

#[test]
fn an_unknown_job_in_the_durations_is_refused() {
    let psp = assemble(
        3,
        vec![relation(0, vec![1]), relation(1, vec![2])],
        vec![request(0, 0, [0; 4]), request(3, 1, [0; 4]), request(2, 0, [0; 4])],
        [0; 4],
    );
    assert_eq!(error_of(&psp), DagError::UnknownJob(3));
}

#[test]
fn a_job_with_two_rows_of_durations_is_refused() {
    let psp = assemble(
        3,
        vec![relation(0, vec![1]), relation(1, vec![2])],
        vec![request(0, 0, [0; 4]), request(1, 1, [0; 4]), request(1, 0, [0; 4])],
        [0; 4],
    );
    assert_eq!(error_of(&psp), DagError::DuplicateJob(1));
}

#[test]
fn an_unknown_successor_is_refused() {
    let psp = assemble(
        3,
        vec![relation(0, vec![1]), relation(1, vec![2, 9, 12])],
        vec![request(0, 0, [0; 4]), request(1, 1, [0; 4]), request(2, 0, [0; 4])],
        [0; 4],
    );
    assert_eq!(error_of(&psp), DagError::UnknownJob(9));
}

#[test]
fn an_unknown_job_in_the_precedence_rows_is_refused() {
    let psp = assemble(
        3,
        vec![relation(0, vec![1]), relation(5, vec![7]), relation(1, vec![2])],
        vec![request(0, 0, [0; 4]), request(1, 1, [0; 4]), request(2, 0, [0; 4])],
        [0; 4],
    );
    assert_eq!(error_of(&psp), DagError::UnknownJob(5));
}

#[test]
fn a_demand_over_the_capacity_is_refused() {
    let psp = problem(
        vec![
            (0, 0, [0, 0, 0, 0], vec![1, 2]),
            (1, 2, [1, 0, 0, 0], vec![3]),
            (2, 2, [1, 0, 0, 3], vec![3]),
            (3, 0, [0, 0, 0, 0], vec![]),
        ],
        [1, 0, 0, 2],
    );
    assert_eq!(error_of(&psp), DagError::DemandExceedsCapacity(2));
}

#[test]
fn the_first_demand_over_the_capacity_is_named() {
    let psp = problem(
        vec![
            (0, 0, [0, 0, 0, 0], vec![1, 2]),
            (1, 2, [0, 5, 0, 0], vec![3]),
            (2, 2, [9, 0, 0, 0], vec![3]),
            (3, 0, [0, 0, 0, 0], vec![]),
        ],
        [1, 4, 0, 0],
    );
    assert_eq!(error_of(&psp), DagError::DemandExceedsCapacity(1));
}

#[test]
fn a_source_that_takes_time_is_refused() {
    let psp = problem(
        vec![(0, 1, [0, 0, 0, 0], vec![1]), (1, 2, [0, 0, 0, 0], vec![2]), (2, 0, [0; 4], vec![])],
        [1, 1, 1, 1],
    );
    assert_eq!(error_of(&psp), DagError::Terminal(0));
}

#[test]
fn a_sink_that_takes_a_resource_is_refused() {
    let psp = problem(
        vec![(0, 0, [0, 0, 0, 0], vec![1]), (1, 2, [0, 0, 0, 0], vec![2]), (2, 0, [0, 0, 1, 0], vec![])],
        [1, 1, 1, 1],
    );
    assert_eq!(error_of(&psp), DagError::Terminal(2));
}

#[test]
fn an_activity_without_successor_is_refused() {
    let psp = problem(
        vec![
            (0, 0, [0, 0, 0, 0], vec![1, 2]),
            (1, 2, [0, 0, 0, 0], vec![3]),
            (2, 2, [0, 0, 0, 0], vec![]),
            (3, 0, [0, 0, 0, 0], vec![]),
        ],
        [1, 1, 1, 1],
    );
    assert_eq!(error_of(&psp), DagError::Disconnected(2));
}

#[test]
fn an_activity_without_predecessor_is_refused() {
    let psp = problem(
        vec![
            (0, 0, [0, 0, 0, 0], vec![2]),
            (1, 2, [0, 0, 0, 0], vec![3]),
            (2, 2, [0, 0, 0, 0], vec![3]),
            (3, 0, [0, 0, 0, 0], vec![]),
        ],
        [1, 1, 1, 1],
    );
    assert_eq!(error_of(&psp), DagError::Disconnected(1));
}

#[test]
fn a_source_with_a_predecessor_is_refused() {
    let psp = problem(
        vec![
            (0, 0, [0, 0, 0, 0], vec![1]),
            (1, 2, [0, 0, 0, 0], vec![0, 2]),
            (2, 0, [0, 0, 0, 0], vec![]),
        ],
        [1, 1, 1, 1],
    );
    assert_eq!(error_of(&psp), DagError::Disconnected(0));
}

#[test]
fn a_cycle_is_refused() {
    let psp = problem(
        vec![
            (0, 0, [0, 0, 0, 0], vec![1]),
            (1, 2, [0, 0, 0, 0], vec![2]),
            (2, 2, [0, 0, 0, 0], vec![3]),
            (3, 2, [0, 0, 0, 0], vec![2, 4]),
            (4, 0, [0, 0, 0, 0], vec![]),
        ],
        [1, 1, 1, 1],
    );
    assert_eq!(error_of(&psp), DagError::Cycle(2));
}

#[test]
fn an_edge_from_an_activity_to_itself_is_a_cycle() {
    let psp = problem(
        vec![
            (0, 0, [0, 0, 0, 0], vec![1]),
            (1, 2, [0, 0, 0, 0], vec![1, 2]),
            (2, 0, [0, 0, 0, 0], vec![]),
        ],
        [1, 1, 1, 1],
    );
    assert_eq!(error_of(&psp), DagError::Cycle(1));
}

#[test]
fn the_demand_is_looked_at_before_the_cycle() {
    let psp = problem(
        vec![
            (0, 0, [0, 0, 0, 0], vec![1]),
            (1, 2, [0, 0, 0, 0], vec![2]),
            (2, 2, [0, 0, 0, 0], vec![3]),
            (3, 2, [2, 0, 0, 0], vec![2, 4]),
            (4, 0, [0, 0, 0, 0], vec![]),
        ],
        [1, 1, 1, 1],
    );
    assert_eq!(error_of(&psp), DagError::DemandExceedsCapacity(3));
}

#[test]
fn the_upper_bound_is_the_sum_of_the_durations() {
    assert_eq!(DAG::new(&diamond()).unwrap().compute_upper_bound(), 7);
    assert_eq!(DAG::new(&stairs()).unwrap().compute_upper_bound(), 14);
}

#[test]
fn the_lower_bound_is_the_critical_path() {
    let dag = DAG::new(&diamond()).unwrap();
    assert_eq!(dag.compute_lower_bound(false), Some((5, vec![0, 1, 3, 4])));
    assert_eq!(dag.compute_lower_bound(true), Some((5, vec![4, 3, 1, 0])));
    let stairs = DAG::new(&stairs()).unwrap();
    assert_eq!(stairs.compute_lower_bound(false), Some((7, vec![0, 3, 5])));
}

#[test]
fn the_critical_path_may_have_many_edges() {
    let psp = problem(
        vec![
            (0, 0, [0, 0, 0, 0], vec![1, 3]),
            (1, 2, [0, 0, 0, 0], vec![2]),
            (2, 2, [0, 0, 0, 0], vec![4]),
            (3, 3, [0, 0, 0, 0], vec![4]),
            (4, 0, [0, 0, 0, 0], vec![]),
        ],
        [1, 1, 1, 1],
    );
    let dag = DAG::new(&psp).unwrap();
    assert_eq!(dag.compute_lower_bound(false), Some((4, vec![0, 1, 2, 4])));
}

#[test]
fn ranks_put_each_activity_after_its_predecessors() {
    let dag = DAG::new(&diamond()).unwrap();
    assert_eq!(dag.compute_job_execution_ranks(), vec![vec![0], vec![1, 2], vec![3], vec![4]]);
    assert_eq!(dag.compute_initial_schedule(), vec![0, 1, 2, 3, 4]);
    let stairs = DAG::new(&stairs()).unwrap();
    assert_eq!(
        stairs.compute_job_execution_ranks(),
        vec![vec![0], vec![1, 3], vec![2, 4], vec![5]]
    );
    assert_eq!(stairs.compute_initial_schedule(), vec![0, 1, 3, 2, 4, 5]);
}

#[test]
fn the_initial_schedule_is_topological() {
    let dag = DAG::new(&stairs()).unwrap();
    let initial = dag.compute_initial_schedule();
    assert!(dag.is_topological(&initial));
    for u in 0..6u8 {
        for v in 0..6u8 {
            if dag.has_edge(u, v) {
                let at_u = initial.iter().position(|x| *x == u).unwrap();
                let at_v = initial.iter().position(|x| *x == v).unwrap();
                assert!(at_u < at_v);
            }
        }
    }
}

#[test]
fn orders_are_told_apart() {
    let dag = DAG::new(&diamond()).unwrap();
    assert!(dag.is_topological(&[0, 1, 2, 3, 4]));
    assert!(dag.is_topological(&[0, 2, 1, 3, 4]));
    assert!(!dag.is_topological(&[0, 1, 3, 2, 4]));
    assert!(!dag.is_topological(&[1, 0, 2, 3, 4]));
    assert!(!dag.is_topological(&[0, 1, 2, 3]));
    assert!(!dag.is_topological(&[0, 1, 1, 3, 4]));
    assert!(!dag.is_topological(&[0, 1, 2, 3, 5]));
    assert!(!dag.is_topological(&[0, 1, 2, 3, 4, 4]));
    assert!(!dag.is_topological(&[]));
}

#[test]
fn shuffled_ranks_stay_topological_and_differ() {
    let mut rows = vec![(0u8, 0u8, [0u8; 4], (1..=8).collect::<Vec<u8>>())];
    for id in 1..=8u8 {
        rows.push((id, id, [1, 0, 0, 0], vec![9]));
    }
    rows.push((9, 0, [0; 4], vec![]));
    let dag = DAG::new(&problem(rows, [3, 0, 0, 0])).unwrap();
    let ranks = dag.compute_job_execution_ranks();
    assert_eq!(ranks, vec![vec![0], vec![1, 2, 3, 4, 5, 6, 7, 8], vec![9]]);
    let initial = dag.compute_initial_schedule();
    let mut differs = false;
    for _ in 0..100 {
        let mixed = dag.compute_diversified_schedule(&ranks);
        assert!(dag.is_topological(&mixed));
        assert_eq!(mixed[0], 0);
        assert_eq!(mixed[9], 9);
        let mut sorted = mixed.clone();
        sorted.sort();
        assert_eq!(sorted, initial);
        if mixed != initial {
            differs = true;
        }
    }
    assert!(differs);
}

#[test]
fn the_longest_chain_has_the_most_activities() {
    let psp = problem(
        vec![
            (0, 0, [0, 0, 0, 0], vec![1, 3]),
            (1, 1, [0, 0, 0, 0], vec![2]),
            (2, 1, [0, 0, 0, 0], vec![4]),
            (3, 9, [0, 0, 0, 0], vec![4]),
            (4, 0, [0, 0, 0, 0], vec![]),
        ],
        [1, 1, 1, 1],
    );
    let dag = DAG::new(&psp).unwrap();
    assert_eq!(dag.find_longest_path(), Some(vec![0, 1, 2, 4]));
    assert_eq!(dag.compute_lower_bound(false), Some((9, vec![0, 3, 4])));
    assert_eq!(DAG::new(&diamond()).unwrap().find_longest_path(), Some(vec![0, 1, 3, 4]));
}
