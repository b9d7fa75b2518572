use rcpsp::dag::DAG;
use rcpsp::problem::PspLibPrecedenceRelation;
use rcpsp::problem::PspLibProblem;
use rcpsp::problem::PspLibProblemResources;
use rcpsp::problem::PspLibRequestDuration;
use rcpsp::problem::PspLibResourceAvailability;
use rcpsp::scheduler::multi_walker;
use rcpsp::scheduler::single_walker;
use rcpsp::scheduler::walker::swap_jobs;
use rcpsp::scheduler::OptimizedSchedule;
use rcpsp::scheduler::SchedulerOptions;

struct Dice {
    state: u64,
}

impl Dice {
    fn roll(&mut self, sides: u64) -> u64 {
        self.state = self.state.wrapping_mul(6364136223846793005).wrapping_add(1442695040888963407);
        (self.state >> 33) % sides
    }
}

fn made_up(dice: &mut Dice, inner: usize) -> PspLibProblem {
    let n = inner + 2;
    let capacities = [
        3 + dice.roll(4) as u8,
        2 + dice.roll(4) as u8,
        1 + dice.roll(3) as u8,
        dice.roll(3) as u8,
    ];
    let mut successors: Vec<Vec<u8>> = vec![Vec::new(); n];
    let mut preceded = vec![false; n];
    for v in 1..=inner {
        let edges = 1 + dice.roll(3);
        for _ in 0..edges {
            let u = dice.roll(v as u64) as usize;
            if !successors[u].contains(&(v as u8)) {
                successors[u].push(v as u8);
                preceded[v] = true;
            }
        }
    }
    for u in 0..=inner {
        if successors[u].is_empty() || (u > 0 && dice.roll(5) == 0) {
            successors[u].push((n - 1) as u8);
        }
    }
    let mut precedence_relations = Vec::new();
    let mut request_durations = Vec::new();
    for a in 0..n {
        let inside = a > 0 && a < n - 1;
        precedence_relations.push(PspLibPrecedenceRelation {
            job_number: a as u8,
            mode_count: 1,
            successor_count: successors[a].len() as u8,
            successors: successors[a].clone(),
        });
        request_durations.push(PspLibRequestDuration {
            job_number: a as u8,
            mode: 1,
            duration: if inside { dice.roll(9) as u8 } else { 0 },
            r1: if inside { dice.roll(capacities[0] as u64 + 1) as u8 } else { 0 },
            r2: if inside { dice.roll(capacities[1] as u64 + 1) as u8 } else { 0 },
            r3: if inside { dice.roll(capacities[2] as u64 + 1) as u8 } else { 0 },
            r4: if inside { dice.roll(capacities[3] as u64 + 1) as u8 } else { 0 },
        });
    }
    assert!(preceded[1..=inner].iter().all(|p| *p));
    PspLibProblem {
        file_with_basedata: String::from("made up"),
        initial_rng: 0,
        projects: 1,
        jobs: n,
        horizon: 0,
        resources: PspLibProblemResources { renewable: 4, nonrenewable: 0, doubly_constrained: 0 },
        project_info: Vec::new(),
        precedence_relations,
        request_durations,
        resource_availabilities: PspLibResourceAvailability {
            r1: capacities[0],
            r2: capacities[1],
            r3: capacities[2],
            r4: capacities[3],
        },
    }
}

fn plain(walkers: u32, iterations: u32) -> SchedulerOptions {
    SchedulerOptions {
        number_of_iterations: iterations,
        max_iter_since_best: 20,
        tabu_list_size: 7,
        swap_range: 4,
        parallel: false,
        iter_since_best_reset: Some(6),
        schedule_count: walkers,
    }
}

fn all_holds(dag: &DAG, best: &OptimizedSchedule) {
    let n = dag.jobs();
    assert!(dag.is_topological(&best.schedule));
    assert_eq!(best.schedule[0], 0);
    assert_eq!(best.schedule[n - 1] as usize, n - 1);
    let starts = dag.compute_start_times(&best.schedule, None);
    let mut latest = 0;
    for a in 0..n {
        latest = latest.max(starts[a] + dag.duration(a as u8) as usize);
        for b in 0..n {
            if dag.has_edge(a as u8, b as u8) {
                assert!(starts[a] + dag.duration(a as u8) as usize <= starts[b]);
            }
        }
    }
    assert_eq!(best.duration, latest);
    assert_eq!(best.duration, starts[n - 1]);
    assert_eq!(best.duration, dag.compute_execution_time(&best.schedule, None));
    assert!(best.duration <= dag.compute_upper_bound());
    for t in 0..=dag.compute_upper_bound() {
        for k in 0..4 {
            let mut taken = 0;
            for a in 0..n {
                if starts[a] <= t && t < starts[a] + dag.duration(a as u8) as usize {
                    taken += dag.demand(a as u8, k);
                }
            }
            assert!(taken <= dag.capacity(k));
        }
    }
    let (bound, path) = dag.compute_lower_bound(false).unwrap();
    assert!(bound <= best.duration);
    assert_eq!(path[0], 0);
    assert_eq!(*path.last().unwrap() as usize, n - 1);
    assert_eq!(path.iter().map(|a| dag.duration(*a) as usize).sum::<usize>(), bound);
    for pair in path.windows(2) {
        assert!(dag.has_edge(pair[0], pair[1]));
    }
    let initial = dag.compute_initial_schedule();
    assert!(best.duration <= dag.compute_execution_time(&initial, None));
}

#[test]
fn made_up_projects_are_searched_soundly_by_one_walker() {
    let mut dice = Dice { state: 2024 };
    for round in 0..25 {
        let psp = made_up(&mut dice, 3 + round % 14);
        let dag = DAG::new(&psp).unwrap();
        let best = single_walker::scheduler(psp.clone(), plain(1, 40)).unwrap();
        all_holds(&dag, &best);
        let again = single_walker::scheduler(psp, plain(1, 40)).unwrap();
        assert_eq!(best.schedule, again.schedule);
        assert_eq!(best.duration, again.duration);
    }
}

#[test]
fn made_up_projects_are_searched_soundly_by_several_walkers() {
    let mut dice = Dice { state: 77 };
    for round in 0..15 {
        let psp = made_up(&mut dice, 4 + round % 11);
        let dag = DAG::new(&psp).unwrap();
        let walkers = 1 + (round as u32) % 5;
        let best = multi_walker::scheduler(psp.clone(), plain(walkers, 200)).unwrap();
        all_holds(&dag, &best);
        let mut first_phase = plain(1, 200 / walkers / 10 * 2);
        first_phase.tabu_list_size = 7;
        let one = single_walker::scheduler(psp, first_phase).unwrap();
        assert!(best.duration <= one.duration);
    }
}

#[test]
fn made_up_projects_have_sound_neighbourhoods() {
    let mut dice = Dice { state: 5 };
    for round in 0..20 {
        let psp = made_up(&mut dice, 3 + round % 12);
        let dag = DAG::new(&psp).unwrap();
        let n = dag.jobs();
        let ranks = dag.compute_job_execution_ranks();
        let mut seen = vec![false; n];
        for (level, rank) in ranks.iter().enumerate() {
            assert!(!rank.is_empty());
            for pair in rank.windows(2) {
                assert!(pair[0] < pair[1]);
            }
            for a in rank.iter() {
                assert!(!seen[*a as usize]);
                seen[*a as usize] = true;
                let mut highest = None;
                for (below, other) in ranks.iter().enumerate() {
                    for u in other.iter() {
                        if dag.has_edge(*u, *a) {
                            assert!(below < level);
                            highest = highest.max(Some(below));
                        }
                    }
                }
                assert_eq!(highest.map_or(0, |h| h + 1), level);
            }
        }
        assert!(seen.iter().all(|s| *s));
        let order = dag.compute_diversified_schedule(&ranks);
        assert!(dag.is_topological(&order));
        for range in [2usize, 3, 6] {
            let moves = dag.compute_reduced_neighborhood_moves(&order, range);
            let mut expected = Vec::new();
            for p in 0..n {
                for d in 1..range {
                    let q = p + d;
                    if q >= n {
                        continue;
                    }
                    let mut moved = order.clone();
                    moved.swap(p, q);
                    let window_free = (p..=q).all(|x| {
                        !dag.has_edge(order[p], order[x]) && !dag.has_edge(order[x], order[q])
                    });
                    if window_free {
                        assert!(dag.is_topological(&moved));
                        expected.push((order[p].min(order[q]), order[p].max(order[q])));
                    }
                }
            }
            assert_eq!(moves, expected);
            for (i, j) in moves {
                let mut moved = order.clone();
                swap_jobs(&mut moved, i, j);
                assert!(dag.is_topological(&moved));
                assert_eq!(
                    dag.compute_execution_time(&moved, None),
                    dag.compute_execution_time(&order, Some((i, j)))
                );
            }
        }
    }
}
