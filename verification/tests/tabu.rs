use rcpsp::generator::generate_activities;
use rcpsp::tabu_list::simple_tabu_list::SimpleTabuList;
use rcpsp::tabu_list::TabuList;
use rcpsp::MoveType;

fn tabu(list: &SimpleTabuList, i: usize, j: usize) -> bool {
    !list.is_possible_move(i, j, MoveType::Swap)
}

fn count_tabu(list: &SimpleTabuList, n: usize) -> usize {
    let mut count = 0;
    for i in 0..n {
        for j in 0..n {
            if tabu(list, i, j) {
                count += 1;
            }
        }
    }
    count
}

#[test]
fn a_new_list_forbids_nothing() {
    let list = SimpleTabuList::new(4, 3);
    assert_eq!(count_tabu(&list, 4), 0);
    assert!(list.is_possible_move(1, 2, MoveType::Swap));
    assert!(list.is_possible_move(3, 3, MoveType::Shift));
}

#[test]
fn a_move_outside_the_project_is_never_possible() {
    let list = SimpleTabuList::new(4, 3);
    assert!(!list.is_possible_move(4, 0, MoveType::Swap));
    assert!(!list.is_possible_move(0, 4, MoveType::Swap));
    assert!(!list.is_possible_move(usize::MAX, 1, MoveType::Swap));
}

#[test]
fn a_move_is_tabu_once_it_is_added() {
    let mut list = SimpleTabuList::new(5, 3);
    list.add_turn_to_tabu_list(1, 2, MoveType::Swap);
    assert!(tabu(&list, 1, 2));
    assert!(!tabu(&list, 2, 1));
    assert!(!tabu(&list, 1, 3));
    assert_eq!(count_tabu(&list, 5), 1);
}

#[test]
fn the_oldest_move_leaves_when_the_list_is_full() {
    let mut list = SimpleTabuList::new(7, 2);
    list.add_turn_to_tabu_list(1, 2, MoveType::Swap);
    list.add_turn_to_tabu_list(3, 4, MoveType::Swap);
    assert!(tabu(&list, 1, 2));
    assert!(tabu(&list, 3, 4));
    list.add_turn_to_tabu_list(5, 6, MoveType::Swap);
    assert!(!tabu(&list, 1, 2));
    assert!(tabu(&list, 3, 4));
    assert!(tabu(&list, 5, 6));
    list.add_turn_to_tabu_list(0, 1, MoveType::Swap);
    assert!(!tabu(&list, 3, 4));
    assert!(tabu(&list, 5, 6));
    assert!(tabu(&list, 0, 1));
    assert_eq!(count_tabu(&list, 7), 2);
}

#[test]
fn a_move_that_takes_its_own_place_stays_tabu() {
    let mut list = SimpleTabuList::new(3, 1);
    list.add_turn_to_tabu_list(1, 2, MoveType::Swap);
    list.add_turn_to_tabu_list(1, 2, MoveType::Swap);
    assert!(tabu(&list, 1, 2));
    list.add_turn_to_tabu_list(0, 2, MoveType::Swap);
    assert!(!tabu(&list, 1, 2));
    assert!(tabu(&list, 0, 2));
}

#[test]
fn a_move_that_is_listed_twice_leaves_with_its_first_entry() {
    let mut list = SimpleTabuList::new(4, 2);
    list.add_turn_to_tabu_list(1, 2, MoveType::Swap);
    list.add_turn_to_tabu_list(1, 2, MoveType::Swap);
    list.add_turn_to_tabu_list(0, 3, MoveType::Swap);
    assert!(!tabu(&list, 1, 2));
    assert!(tabu(&list, 0, 3));
}

#[test]
fn pruning_takes_three_tenths_of_the_moves() {
    let mut list = SimpleTabuList::new(12, 20);
    for i in 0..10 {
        list.add_turn_to_tabu_list(i, i + 1, MoveType::Swap);
    }
    assert_eq!(count_tabu(&list, 12), 10);
    list.prune();
    assert_eq!(count_tabu(&list, 12), 7);
    list.prune();
    assert_eq!(count_tabu(&list, 12), 5);
    list.prune();
    assert_eq!(count_tabu(&list, 12), 4);
    list.prune();
    assert_eq!(count_tabu(&list, 12), 3);
    list.prune();
    assert_eq!(count_tabu(&list, 12), 3);
}

#[test]
fn pruning_makes_no_move_tabu() {
    let mut list = SimpleTabuList::new(12, 10);
    for i in 0..10 {
        list.add_turn_to_tabu_list(i, i + 1, MoveType::Swap);
    }
    list.prune();
    for i in 0..12 {
        for j in 0..12 {
            if tabu(&list, i, j) {
                assert_eq!(j, i + 1);
                assert!(i < 10);
            }
        }
    }
}

#[test]
fn pruning_picks_at_random() {
    let mut kept_first = false;
    let mut lost_first = false;
    for _ in 0..200 {
        let mut list = SimpleTabuList::new(12, 10);
        for i in 0..10 {
            list.add_turn_to_tabu_list(i, i + 1, MoveType::Swap);
        }
        list.prune();
        if tabu(&list, 0, 1) {
            kept_first = true;
        } else {
            lost_first = true;
        }
    }
    assert!(kept_first);
    assert!(lost_first);
}

#[test]
fn pruning_an_empty_list_changes_nothing() {
    let mut list = SimpleTabuList::new(3, 5);
    list.prune();
    assert_eq!(count_tabu(&list, 3), 0);
    list.add_turn_to_tabu_list(0, 1, MoveType::Swap);
    list.add_turn_to_tabu_list(1, 2, MoveType::Swap);
    list.add_turn_to_tabu_list(0, 2, MoveType::Swap);
    list.prune();
    assert_eq!(count_tabu(&list, 3), 3);
}

#[test]
fn the_list_goes_on_after_pruning() {
    let mut list = SimpleTabuList::new(6, 4);
    for i in 0..4 {
        list.add_turn_to_tabu_list(i, i + 1, MoveType::Swap);
    }
    list.prune();
    assert_eq!(count_tabu(&list, 6), 3);
    list.add_turn_to_tabu_list(4, 5, MoveType::Swap);
    assert!(tabu(&list, 4, 5));
    assert!(!tabu(&list, 0, 1));
}

#[test]
fn a_snapshot_brings_the_list_back() {
    let mut list = SimpleTabuList::new(6, 2);
    list.add_turn_to_tabu_list(1, 2, MoveType::Swap);
    let kept = list.snapshot();
    list.add_turn_to_tabu_list(2, 3, MoveType::Swap);
    list.add_turn_to_tabu_list(3, 4, MoveType::Swap);
    assert!(!tabu(&list, 1, 2));
    assert!(tabu(&kept, 1, 2));
    assert!(!tabu(&kept, 2, 3));
    list.restore(&kept);
    assert!(tabu(&list, 1, 2));
    assert!(!tabu(&list, 2, 3));
    assert!(!tabu(&list, 3, 4));
    list.add_turn_to_tabu_list(4, 5, MoveType::Swap);
    assert!(tabu(&list, 1, 2));
    list.add_turn_to_tabu_list(0, 5, MoveType::Swap);
    assert!(!tabu(&list, 1, 2));
    assert!(tabu(&kept, 1, 2));
}

#[test]
fn the_simple_list_counts_no_iterations() {
    let list = SimpleTabuList::new(2, 1);
    list.best_solution_found();
    assert_eq!(list.go_to_next_iter(), 0);
}

#[test]
fn generated_activities_are_numbered_in_turn() {
    let activities = generate_activities(3);
    assert_eq!(activities.len(), 5);
    for (i, activity) in activities.iter().enumerate() {
        assert_eq!(activity.id as usize, i);
        assert_eq!(activity.duration, 0);
        assert_eq!(activity.r0, 0);
        assert_eq!(activity.r1, 0);
    }
    assert_eq!(activities[0].successors, Vec::<u8>::new());
    assert_eq!(activities[1].successors, vec![1, 1]);
    assert_eq!(activities[3].successors, vec![1, 1]);
    assert_eq!(activities[4].successors, Vec::<u8>::new());
    assert_eq!(generate_activities(0).len(), 2);
    assert_eq!(generate_activities(254).len(), 256);
}
