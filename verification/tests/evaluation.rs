use rcpsp::dag::DAG;
use rcpsp::problem::PspLibPrecedenceRelation;
use rcpsp::problem::PspLibProblem;
use rcpsp::problem::PspLibProblemResources;
use rcpsp::problem::PspLibRequestDuration;
use rcpsp::problem::PspLibResourceAvailability;
use rcpsp::scheduler::walker::apply_move;
use rcpsp::scheduler::walker::swap_jobs;
use rcpsp::sources_load::time_resolution::TimeResolution;
use rcpsp::sources_load::SourcesLoad;

fn project(rows: Vec<(u8, u8, [u8; 4], Vec<u8>)>, capacities: [u8; 4]) -> DAG {
    let mut precedence_relations = Vec::new();
    let mut request_durations = Vec::new();
    for (id, duration, demand, successors) in rows.iter() {
        precedence_relations.push(PspLibPrecedenceRelation {
            job_number: *id,
            mode_count: 1,
            successor_count: successors.len() as u8,
            successors: successors.clone(),
        });
        request_durations.push(PspLibRequestDuration {
            job_number: *id,
            mode: 1,
            duration: *duration,
            r1: demand[0],
            r2: demand[1],
            r3: demand[2],
            r4: demand[3],
        });
    }
    let psp = PspLibProblem {
        file_with_basedata: String::from("test"),
        initial_rng: 0,
        projects: 1,
        jobs: rows.len(),
        horizon: 0,
        resources: PspLibProblemResources { renewable: 4, nonrenewable: 0, doubly_constrained: 0 },
        project_info: Vec::new(),
        precedence_relations,
        request_durations,
        resource_availabilities: PspLibResourceAvailability {
            r1: capacities[0],
            r2: capacities[1],
            r3: capacities[2],
            r4: capacities[3],
        },
    };
    DAG::new(&psp).unwrap()
}

fn side_by_side(durations: &[u8], demands: &[[u8; 4]], capacities: [u8; 4]) -> DAG {
    let n = durations.len() as u8;
    let mut rows = vec![(0u8, 0u8, [0u8; 4], (1..=n).collect::<Vec<u8>>())];
    for id in 1..=n {
        rows.push((id, durations[id as usize - 1], demands[id as usize - 1], vec![n + 1]));
    }
    rows.push((n + 1, 0, [0; 4], vec![]));
    project(rows, capacities)
}

fn diamond() -> DAG {
    project(
        vec![
            (0, 0, [0, 0, 0, 0], vec![1, 2]),
            (1, 2, [1, 0, 0, 0], vec![3]),
            (2, 2, [1, 0, 0, 0], vec![3]),
            (3, 3, [2, 0, 0, 0], vec![4]),
            (4, 0, [0, 0, 0, 0], vec![]),
        ],
        [2, 0, 0, 0],
    )
}

fn feasible(dag: &DAG, demands: &[[u8; 4]], capacities: [u8; 4], starts: &[usize]) {
    let n = dag.jobs();
    for u in 0..n {
        for v in 0..n {
            if dag.has_edge(u as u8, v as u8) {
                assert!(starts[u] + dag.duration(u as u8) as usize <= starts[v]);
            }
        }
    }
    let horizon = dag.compute_upper_bound();
    for t in 0..=horizon {
        for k in 0..4 {
            let mut taken = 0usize;
            for a in 0..n {
                if starts[a] <= t && t < starts[a] + dag.duration(a as u8) as usize {
                    taken += demands[a][k] as usize;
                }
            }
            assert!(taken <= capacities[k] as usize);
        }
    }
}

#[test]
fn a_chain_starts_each_activity_when_the_one_before_ends() {
    let dag = project(
        vec![
            (0, 0, [0; 4], vec![1]),
            (1, 5, [1, 0, 0, 0], vec![2]),
            (2, 3, [1, 0, 0, 0], vec![3]),
            (3, 0, [0; 4], vec![]),
        ],
        [1, 0, 0, 0],
    );
    assert_eq!(dag.compute_start_times(&[0, 1, 2, 3], None), vec![0, 0, 5, 8]);
    assert_eq!(dag.compute_execution_time(&[0, 1, 2, 3], None), 8);
}

#[test]
fn one_unit_makes_two_activities_run_in_turn() {
    let dag = side_by_side(&[3, 3], &[[1, 0, 0, 0], [1, 0, 0, 0]], [1, 0, 0, 0]);
    assert_eq!(dag.compute_start_times(&[0, 1, 2, 3], None), vec![0, 0, 3, 6]);
    assert_eq!(dag.compute_execution_time(&[0, 1, 2, 3], None), 6);
    assert_eq!(dag.compute_start_times(&[0, 2, 1, 3], None), vec![0, 3, 0, 6]);
}

#[test]
fn two_units_let_two_activities_run_side_by_side() {
    let dag = side_by_side(&[3, 3], &[[1, 0, 0, 0], [1, 0, 0, 0]], [2, 0, 0, 0]);
    assert_eq!(dag.compute_start_times(&[0, 1, 2, 3], None), vec![0, 0, 0, 3]);
    assert_eq!(dag.compute_execution_time(&[0, 1, 2, 3], None), 3);
}

#[test]
fn an_activity_starts_at_the_first_time_at_which_it_fits() {
    let demands = [[1, 0, 0, 0], [2, 0, 0, 0], [1, 0, 0, 0]];
    let dag = side_by_side(&[2, 2, 2], &demands, [2, 0, 0, 0]);
    let starts = dag.compute_start_times(&[0, 1, 2, 3, 4], None);
    assert_eq!(starts, vec![0, 0, 2, 0, 4]);
    assert_eq!(dag.compute_execution_time(&[0, 1, 2, 3, 4], None), 4);
}

#[test]
fn every_resource_counts() {
    let demands = [[1, 0, 0, 2], [1, 0, 0, 2], [0, 1, 0, 0]];
    let dag = side_by_side(&[4, 2, 3], &demands, [5, 1, 0, 3]);
    let starts = dag.compute_start_times(&[0, 1, 2, 3, 4], None);
    assert_eq!(starts, vec![0, 0, 4, 0, 6]);
    assert_eq!(dag.compute_execution_time(&[0, 1, 2, 3, 4], None), 6);
}

#[test]
fn an_activity_without_duration_takes_its_precedence_start() {
    let dag = project(
        vec![
            (0, 0, [0; 4], vec![1, 2]),
            (1, 4, [1, 0, 0, 0], vec![3]),
            (2, 0, [1, 0, 0, 0], vec![3]),
            (3, 0, [1, 0, 0, 0], vec![4]),
            (4, 0, [0; 4], vec![]),
        ],
        [1, 0, 0, 0],
    );
    assert_eq!(dag.compute_start_times(&[0, 1, 2, 3, 4], None), vec![0, 0, 0, 4, 4]);
    assert_eq!(dag.compute_execution_time(&[0, 1, 2, 3, 4], None), 4);
}

#[test]
fn a_project_without_durations_ends_at_once() {
    let dag = project(
        vec![(0, 0, [0; 4], vec![1]), (1, 0, [0; 4], vec![2]), (2, 0, [0; 4], vec![])],
        [0; 4],
    );
    assert_eq!(dag.compute_execution_time(&[0, 1, 2], None), 0);
    assert_eq!(dag.compute_upper_bound(), 0);
}

#[test]
fn the_order_decides_the_makespan() {
    let demands = [[1, 0, 0, 0]; 5];
    let dag = side_by_side(&[3, 3, 2, 2, 2], &demands, [2, 0, 0, 0]);
    assert_eq!(dag.compute_execution_time(&[0, 1, 2, 3, 4, 5, 6], None), 7);
    assert_eq!(dag.compute_execution_time(&[0, 1, 4, 3, 2, 5, 6], None), 6);
    assert_eq!(dag.compute_start_times(&[0, 1, 4, 3, 2, 5, 6], None), vec![0, 0, 3, 2, 0, 4, 6]);
}

#[test]
fn the_schedule_keeps_precedence_and_capacity() {
    let demands =
        [[0; 4], [1, 1, 0, 0], [1, 0, 0, 0], [0, 1, 0, 0], [1, 0, 0, 0], [2, 2, 0, 0], [0; 4]];
    let dag = project(
        vec![
            (0, 0, demands[0], vec![1, 2, 3]),
            (1, 4, demands[1], vec![4, 5]),
            (2, 1, demands[2], vec![5]),
            (3, 7, demands[3], vec![5]),
            (4, 2, demands[4], vec![6]),
            (5, 3, demands[5], vec![6]),
            (6, 0, demands[6], vec![]),
        ],
        [2, 2, 0, 0],
    );
    let order = dag.compute_initial_schedule();
    assert_eq!(order, vec![0, 1, 2, 3, 4, 5, 6]);
    let starts = dag.compute_start_times(&order, None);
    assert_eq!(starts, vec![0, 0, 0, 0, 4, 7, 10]);
    feasible(&dag, &demands, [2, 2, 0, 0], &starts);
    let makespan = dag.compute_execution_time(&order, None);
    assert_eq!(makespan, 10);
    let mut latest = 0;
    for a in 0..7 {
        latest = latest.max(starts[a] + dag.duration(a as u8) as usize);
    }
    assert_eq!(makespan, latest);
    let (bound, _) = dag.compute_lower_bound(false).unwrap();
    assert_eq!(bound, 10);
}

#[test]
fn a_swap_is_evaluated_without_touching_the_order() {
    let demands = [[1, 0, 0, 0]; 5];
    let dag = side_by_side(&[3, 3, 2, 2, 2], &demands, [2, 0, 0, 0]);
    let order = vec![0u8, 1, 2, 3, 4, 5, 6];
    assert_eq!(dag.compute_execution_time(&order, Some((2, 4))), 6);
    assert_eq!(dag.compute_execution_time(&order, Some((4, 2))), 6);
    assert_eq!(order, vec![0, 1, 2, 3, 4, 5, 6]);
    assert_eq!(dag.compute_start_times(&order, Some((2, 4))), vec![0, 0, 3, 2, 0, 4, 6]);
}

#[test]
fn the_swap_of_an_activity_with_itself_changes_nothing() {
    let dag = diamond();
    let order = [0u8, 1, 2, 3, 4];
    for a in 0..5u8 {
        assert_eq!(
            dag.compute_execution_time(&order, Some((a, a))),
            dag.compute_execution_time(&order, None)
        );
    }
    assert_eq!(dag.compute_execution_time(&order, None), dag.compute_execution_time(&order, None));
}

#[test]
fn making_a_move_and_evaluating_is_evaluating_the_swap() {
    let demands = [[1, 0, 0, 0]; 5];
    let dag = side_by_side(&[3, 3, 2, 2, 2], &demands, [2, 0, 0, 0]);
    let order = vec![0u8, 3, 1, 5, 2, 4, 6];
    for p in 1..6usize {
        for q in 1..6usize {
            let moved = apply_move(&order, (p, q));
            let mut renamed = order.clone();
            swap_jobs(&mut renamed, order[p], order[q]);
            assert_eq!(moved, renamed);
            assert_eq!(
                dag.compute_execution_time(&moved, None),
                dag.compute_execution_time(&order, Some((order[p], order[q])))
            );
        }
    }
    assert_eq!(apply_move(&order, (1, 4)), vec![0, 2, 1, 5, 3, 4, 6]);
}

#[test]
fn free_capacity_is_kept_by_time_slot() {
    let mut load = TimeResolution::new(2, vec![3, 1], 6);
    assert_eq!(load.get_earliest_start_time(&[1, 1], 0, 2), 0);
    load.add_activity(0, 2, &[1, 1]);
    assert_eq!(load.get_earliest_start_time(&[2, 0], 0, 2), 0);
    assert_eq!(load.get_earliest_start_time(&[3, 0], 0, 2), 2);
    assert_eq!(load.get_earliest_start_time(&[0, 1], 0, 1), 2);
    assert_eq!(load.get_earliest_start_time(&[0, 1], 1, 3), 2);
    assert_eq!(load.get_earliest_start_time(&[0, 1], 4, 1), 4);
    load.add_activity(3, 5, &[3, 0]);
    assert_eq!(load.get_earliest_start_time(&[1, 0], 2, 2), 5);
    assert_eq!(load.get_earliest_start_time(&[1, 0], 2, 1), 2);
    assert_eq!(load.get_earliest_start_time(&[1, 0], 0, 0), 0);
}

#[test]
fn a_short_list_of_requirements_asks_for_nothing_more() {
    let mut load = TimeResolution::new(3, vec![1], 4);
    load.add_activity(0, 4, &[1]);
    assert_eq!(load.get_earliest_start_time(&[], 1, 2), 1);
    assert_eq!(load.get_earliest_start_time(&[0, 0, 0], 1, 2), 1);
    assert_eq!(load.get_earliest_start_time(&[0, 1], 0, 1), 4);
}

#[test]
fn the_search_for_a_start_ends_with_the_time_slots() {
    let mut load = TimeResolution::new(1, vec![1], 4);
    load.add_activity(1, 2, &[1]);
    assert_eq!(load.get_earliest_start_time(&[1], 0, 3), 2);
    assert_eq!(load.get_earliest_start_time(&[1], 0, 2), 2);
    assert_eq!(load.get_earliest_start_time(&[1], 0, 1), 0);
    assert_eq!(load.get_earliest_start_time(&[2], 0, 1), 4);
    assert_eq!(load.get_earliest_start_time(&[1], 9, 3), 9);
    load.add_activity(3, 9, &[1]);
    assert_eq!(load.get_earliest_start_time(&[1], 0, 2), 4);
}
