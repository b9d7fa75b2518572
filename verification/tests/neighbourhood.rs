use rcpsp::dag::DAG;
use rcpsp::problem::PspLibPrecedenceRelation;
use rcpsp::problem::PspLibProblem;
use rcpsp::problem::PspLibProblemResources;
use rcpsp::problem::PspLibRequestDuration;
use rcpsp::problem::PspLibResourceAvailability;
use rcpsp::scheduler::multi_walker::diversify_schedule;
use rcpsp::scheduler::multi_walker::make_picked_move;
use rcpsp::scheduler::multi_walker::sorted_indices;
use rcpsp::scheduler::walker::swap_jobs;

fn graph(rows: Vec<(u8, u8, [u8; 4], Vec<u8>)>, capacities: [u8; 4]) -> DAG {
    let mut precedence_relations = Vec::new();
    let mut request_durations = Vec::new();
    for (id, duration, demand, successors) in rows.iter() {
        precedence_relations.push(PspLibPrecedenceRelation {
            job_number: *id,
            mode_count: 1,
            successor_count: successors.len() as u8,
            successors: successors.clone(),
        });
        request_durations.push(PspLibRequestDuration {
            job_number: *id,
            mode: 1,
            duration: *duration,
            r1: demand[0],
            r2: demand[1],
            r3: demand[2],
            r4: demand[3],
        });
    }
    let psp = PspLibProblem {
        file_with_basedata: String::from("test"),
        initial_rng: 0,
        projects: 1,
        jobs: rows.len(),
        horizon: 0,
        resources: PspLibProblemResources { renewable: 4, nonrenewable: 0, doubly_constrained: 0 },
        project_info: Vec::new(),
        precedence_relations,
        request_durations,
        resource_availabilities: PspLibResourceAvailability {
            r1: capacities[0],
            r2: capacities[1],
            r3: capacities[2],
            r4: capacities[3],
        },
    };
    DAG::new(&psp).unwrap()
}

fn fan(width: u8) -> DAG {
    let mut rows = vec![(0u8, 0u8, [0u8; 4], (1..=width).collect::<Vec<u8>>())];
    for id in 1..=width {
        rows.push((id, 1, [1, 0, 0, 0], vec![width + 1]));
    }
    rows.push((width + 1, 0, [0; 4], vec![]));
    graph(rows, [1, 0, 0, 0])
}

fn two_chains() -> DAG {
    graph(
        vec![
            (0, 0, [0; 4], vec![1, 3]),
            (1, 1, [0; 4], vec![2]),
            (2, 1, [0; 4], vec![5]),
            (3, 1, [0; 4], vec![4]),
            (4, 1, [0; 4], vec![5]),
            (5, 0, [0; 4], vec![]),
        ],
        [0; 4],
    )
}

#[test]
fn only_swaps_that_keep_the_order_are_listed() {
    let dag = fan(2);
    assert_eq!(dag.compute_reduced_neighborhood_moves(&[0, 1, 2, 3], 2), vec![(1, 2)]);
    assert_eq!(dag.compute_reduced_neighborhood_moves(&[0, 1, 2, 3], 60), vec![(1, 2)]);
    assert_eq!(dag.compute_reduced_neighborhood_moves(&[0, 2, 1, 3], 2), vec![(1, 2)]);
}

#[test]
fn a_swap_range_below_two_gives_no_move() {
    let dag = fan(3);
    assert_eq!(dag.compute_reduced_neighborhood_moves(&[0, 1, 2, 3, 4], 1), vec![]);
    assert_eq!(dag.compute_reduced_neighborhood_moves(&[0, 1, 2, 3, 4], 0), vec![]);
}

#[test]
fn moves_come_by_place_and_then_by_distance() {
    let dag = fan(3);
    assert_eq!(dag.compute_reduced_neighborhood_moves(&[0, 1, 2, 3, 4], 2), vec![(1, 2), (2, 3)]);
    assert_eq!(
        dag.compute_reduced_neighborhood_moves(&[0, 1, 2, 3, 4], 3),
        vec![(1, 2), (1, 3), (2, 3)]
    );
    assert_eq!(
        dag.compute_reduced_neighborhood_moves(&[0, 3, 1, 2, 4], 3),
        vec![(1, 3), (2, 3), (1, 2)]
    );
    assert_eq!(
        dag.compute_reduced_neighborhood_moves(&[0, 1, 2, 3, 4], usize::MAX),
        vec![(1, 2), (1, 3), (2, 3)]
    );
}

#[test]
fn an_edge_inside_the_window_forbids_the_swap() {
    let dag = two_chains();
    assert_eq!(
        dag.compute_reduced_neighborhood_moves(&[0, 1, 2, 3, 4, 5], 6),
        vec![(2, 3)]
    );
    assert_eq!(
        dag.compute_reduced_neighborhood_moves(&[0, 1, 3, 2, 4, 5], 6),
        vec![(1, 3), (2, 3), (2, 4)]
    );
    assert_eq!(
        dag.compute_reduced_neighborhood_moves(&[0, 1, 3, 2, 4, 5], 2),
        vec![(1, 3), (2, 3), (2, 4)]
    );
}

#[test]
fn every_listed_move_leads_to_a_topological_order() {
    let dag = two_chains();
    for order in [[0u8, 1, 2, 3, 4, 5], [0, 1, 3, 2, 4, 5], [0, 3, 1, 4, 2, 5], [0, 3, 4, 1, 2, 5]] {
        assert!(dag.is_topological(&order));
        for range in 0..8 {
            for (i, j) in dag.compute_reduced_neighborhood_moves(&order, range) {
                assert!(i < j);
                let mut moved = order.to_vec();
                swap_jobs(&mut moved, i, j);
                assert!(dag.is_topological(&moved));
                let at_i = order.iter().position(|x| *x == i).unwrap();
                let at_j = order.iter().position(|x| *x == j).unwrap();
                let mut by_place = order.to_vec();
                by_place.swap(at_i, at_j);
                assert_eq!(moved, by_place);
            }
        }
    }
}

#[test]
fn a_picked_move_is_made_and_none_is_not() {
    let mut order = vec![0u8, 1, 2, 3, 4];
    make_picked_move(&mut order, None);
    assert_eq!(order, vec![0, 1, 2, 3, 4]);
    make_picked_move(&mut order, Some((1, 3)));
    assert_eq!(order, vec![0, 3, 2, 1, 4]);
    make_picked_move(&mut order, Some((2, 2)));
    assert_eq!(order, vec![0, 3, 2, 1, 4]);
}

#[test]
fn diversifying_keeps_the_order_topological_and_moves_it() {
    let dag = fan(6);
    let start: Vec<u8> = (0..8).collect();
    let mut moved = false;
    for _ in 0..50 {
        let mixed = diversify_schedule(&dag, start.clone(), 4, 20);
        assert!(dag.is_topological(&mixed));
        if mixed != start {
            moved = true;
        }
    }
    assert!(moved);
    assert_eq!(diversify_schedule(&dag, start.clone(), 4, 0), start);
    assert_eq!(diversify_schedule(&dag, start.clone(), 1, 20), start);
}

#[test]
fn one_random_move_is_one_of_the_neighbourhood() {
    let dag = fan(3);
    let start = vec![0u8, 1, 2, 3, 4];
    let mut seen = Vec::new();
    for _ in 0..200 {
        let mixed = diversify_schedule(&dag, start.clone(), 2, 1);
        assert!(mixed == vec![0, 2, 1, 3, 4] || mixed == vec![0, 1, 3, 2, 4]);
        if !seen.contains(&mixed) {
            seen.push(mixed);
        }
    }
    assert_eq!(seen.len(), 2);
}

#[test]
fn walkers_are_ranked_by_makespan_and_then_by_number() {
    assert_eq!(sorted_indices(&vec![]), vec![]);
    assert_eq!(sorted_indices(&vec![7]), vec![0]);
    assert_eq!(sorted_indices(&vec![5, 3, 9, 1]), vec![3, 1, 0, 2]);
    assert_eq!(sorted_indices(&vec![4, 2, 4, 2, 4]), vec![1, 3, 0, 2, 4]);
    assert_eq!(sorted_indices(&vec![1, 2, 3]), vec![0, 1, 2]);
    assert_eq!(sorted_indices(&vec![3, 2, 1]), vec![2, 1, 0]);
}
