use seating::decide::{commit_action, decide_action, run_round, TableAction};
use seating::manager::AssociationManager;
use seating::table::{drop_one, score_join, Table};
use seating::table_seq::TableSeq;

fn members(t: &Table) -> Vec<u32> {
    let mut v = Vec::new();
    for i in 0..t.len() {
        v.push(t.get(i));
    }
    v
}

fn table_of(ids: &[u32]) -> Table {
    let mut t = Table::new();
    for id in ids {
        t.insert(*id);
    }
    t
}

#[test]
fn unassigned_people_fill_single_group_then_evict() {
    let mut man = AssociationManager::new(3, 1, 2);
    let mut seq = TableSeq::new(&vec![0]);
    let (improved, action) = decide_action(1, &man, &mut seq);
    assert!(improved);
    assert_eq!(action, TableAction::Join(0));
    commit_action(&mut man, &mut seq, 1, action);
    // Joining would make a group of two; evicting person 1 leaves a group of one.
    let (improved, action) = decide_action(2, &man, &mut seq);
    assert!(improved);
    assert_eq!(action, TableAction::Replace(1, 0));
}

#[test]
fn full_single_group_admits_newcomer_only_by_eviction() {
    let mut man = AssociationManager::new(3, 1, 2);
    man.join_table(&1, &0);
    man.join_table(&2, &0);
    let mut seq = TableSeq::new(&vec![0]);
    assert_eq!(members(man.members_of(0)), vec![1, 2]);
    assert_eq!(score_join(3, man.members_of(0), 2), None);
    let (improved, action) = decide_action(3, &man, &mut seq);
    assert!(improved);
    assert_eq!(action, TableAction::Replace(1, 0));
    commit_action(&mut man, &mut seq, 3, action);
    assert_eq!(man.current_group(1), None);
    assert_eq!(man.current_group(2), Some(0));
    assert_eq!(man.current_group(3), Some(0));
    assert_eq!(members(man.members_of(0)), vec![2, 3]);
    assert_eq!(seq.next(), 0);
}

#[test]
fn tie_between_eviction_and_empty_group_goes_to_scan_order() {
    let mut man = AssociationManager::new(2, 2, 1);
    assert_eq!(man.join_table(&1, &0), None);
    let mut seq = TableSeq::new(&vec![0, 1]);
    // Group 0 comes first: evicting person 1 costs 1, the same as joining empty group 1.
    assert_eq!(decide_action(2, &man, &mut seq), (true, TableAction::Replace(1, 0)));
    // With group 1 scanned first, the direct join wins the tie.
    let mut seq = TableSeq::new(&vec![0, 1]);
    seq.prepend(1);
    assert_eq!(decide_action(2, &man, &mut seq), (true, TableAction::Join(1)));
}

#[test]
fn committed_join_redirects_cursor() {
    let mut man = AssociationManager::new(4, 3, 2);
    let mut seq = TableSeq::new(&vec![0, 1, 2]);
    assert_eq!(seq.next(), 0);
    commit_action(&mut man, &mut seq, 7, TableAction::Join(2));
    assert_eq!(seq.next(), 2);
    assert_eq!(seq.next(), 1);
    assert_eq!(man.current_group(7), Some(2));
}

#[test]
fn cursor_cycles_and_override_is_queue_of_one() {
    let mut seq = TableSeq::new(&vec![0, 1, 2]);
    assert_eq!(seq.next(), 0);
    assert_eq!(seq.next(), 1);
    seq.prepend(0);
    seq.prepend(2);
    assert_eq!(seq.next(), 2);
    assert_eq!(seq.next(), 2);
    assert_eq!(seq.next(), 0);
    assert_eq!(seq.next(), 1);
}

#[test]
fn one_pass_lists_each_group_once_override_first() {
    let mut seq = TableSeq::new(&vec![0, 1, 2, 3]);
    assert_eq!(seq.one_pass(), vec![0, 1, 2, 3]);
    seq.prepend(2);
    assert_eq!(seq.one_pass(), vec![2, 0, 1, 3]);
    assert_eq!(seq.next(), 0);
}

#[test]
fn score_is_resulting_size_or_none_over_capacity() {
    let t = table_of(&[4, 5]);
    assert_eq!(score_join(6, &t, 3), Some(3));
    assert_eq!(score_join(6, &t, 2), None);
    assert_eq!(score_join(4, &t, 2), Some(2));
    assert_eq!(score_join(9, &Table::new(), 1), Some(1));
    assert_eq!(score_join(9, &Table::new(), 0), None);
}

#[test]
fn drop_one_gives_each_member_and_the_rest() {
    let t = table_of(&[4, 5, 6]);
    let d = drop_one(&t);
    assert_eq!(d.len(), 3);
    assert_eq!(d[0].0, 4);
    assert_eq!(members(&d[0].1), vec![5, 6]);
    assert_eq!(d[1].0, 5);
    assert_eq!(members(&d[1].1), vec![4, 6]);
    assert_eq!(d[2].0, 6);
    assert_eq!(members(&d[2].1), vec![4, 5]);
    assert_eq!(drop_one(&Table::new()).len(), 0);
}

#[test]
fn table_insert_and_remove_keep_a_set() {
    let mut t = table_of(&[1, 2, 1, 3]);
    assert_eq!(members(&t), vec![1, 2, 3]);
    t.remove(2);
    assert_eq!(members(&t), vec![1, 3]);
    t.remove(8);
    assert_eq!(members(&t), vec![1, 3]);
    assert!(t.contains(3));
    assert!(!t.contains(2));
    assert_eq!(t.position(3), Some(1));
}

#[test]
fn join_returns_previous_group_and_leaves_it_untouched() {
    let mut man = AssociationManager::new(2, 2, 2);
    assert_eq!(man.join_table(&1, &0), None);
    assert_eq!(man.join_table(&1, &1), Some(0));
    assert_eq!(man.current_group(1), Some(1));
    assert_eq!(members(man.members_of(0)), vec![1]);
    assert_eq!(members(man.members_of(1)), vec![1]);
    assert_eq!(members(man.curr_table(&1).unwrap()), vec![1]);
}

#[test]
fn leave_makes_person_unassigned() {
    let mut man = AssociationManager::new(2, 2, 2);
    man.join_table(&1, &1);
    assert_eq!(man.leave_table(&1), Some(1));
    assert_eq!(man.current_group(1), None);
    assert!(man.curr_table(&1).is_none());
    assert_eq!(man.members_of(1).len(), 0);
    assert_eq!(man.leave_table(&1), None);
}

#[test]
fn new_index_is_empty() {
    let man = AssociationManager::new(6, 3, 2);
    assert_eq!(man.n_tables(), 3);
    assert_eq!(man.capacity(), 2);
    for g in 0..3 {
        assert_eq!(man.members_of(g).len(), 0);
    }
    assert_eq!(man.current_group(0), None);
}

fn check_invariants(man: &AssociationManager, people: &[u32]) {
    for p in people {
        let mut holders = Vec::new();
        for g in 0..man.n_tables() as u32 {
            if man.members_of(g).contains(*p) {
                holders.push(g);
            }
        }
        assert!(holders.len() <= 1);
        assert_eq!(holders.first().copied(), man.current_group(*p));
    }
    for g in 0..man.n_tables() as u32 {
        assert!(man.members_of(g).len() <= man.capacity());
    }
}

fn six_people_three_groups() -> (AssociationManager, Vec<TableAction>) {
    let mut man = AssociationManager::new(6, 3, 2);
    let mut seq = TableSeq::new(&vec![0, 1, 2]);
    let pids: Vec<u32> = (0..6).chain(0..6).collect();
    let actions = run_round(&mut man, &mut seq, &pids);
    (man, actions)
}

#[test]
fn round_keeps_single_assignment_and_capacity() {
    let (man, actions) = six_people_three_groups();
    assert_eq!(actions.len(), 12);
    check_invariants(&man, &[0, 1, 2, 3, 4, 5]);
}

#[test]
fn round_moves_and_then_settles() {
    let mut man = AssociationManager::new(3, 3, 2);
    let mut seq = TableSeq::new(&vec![0, 1, 2]);
    let actions = run_round(&mut man, &mut seq, &vec![0, 1, 2]);
    assert_eq!(
        actions,
        vec![TableAction::Join(0), TableAction::Replace(0, 0), TableAction::Replace(1, 0)]
    );
    assert_eq!(man.current_group(0), None);
    assert_eq!(man.current_group(1), None);
    assert_eq!(man.current_group(2), Some(0));
    check_invariants(&man, &[0, 1, 2]);
}

#[test]
fn round_of_people_sitting_alone_stays() {
    let mut man = AssociationManager::new(3, 3, 2);
    man.join_table(&0, &0);
    man.join_table(&1, &1);
    man.join_table(&2, &2);
    let mut seq = TableSeq::new(&vec![0, 1, 2]);
    let actions = run_round(&mut man, &mut seq, &vec![0, 1, 2]);
    assert_eq!(actions, vec![TableAction::Stay, TableAction::Stay, TableAction::Stay]);
    for p in 0..3 {
        assert_eq!(man.current_group(p), Some(p));
    }
}

#[test]
fn repeated_runs_give_identical_assignments() {
    let (a, acts_a) = six_people_three_groups();
    let (b, acts_b) = six_people_three_groups();
    assert_eq!(acts_a, acts_b);
    for p in 0..6 {
        assert_eq!(a.current_group(p), b.current_group(p));
    }
    for g in 0..3 {
        assert_eq!(members(a.members_of(g)), members(b.members_of(g)));
    }
}

#[test]
fn earlier_group_wins_equal_direct_joins() {
    let man = AssociationManager::new(1, 3, 2);
    let mut seq = TableSeq::new(&vec![0, 1, 2]);
    assert_eq!(decide_action(5, &man, &mut seq), (true, TableAction::Join(0)));
    let mut seq = TableSeq::new(&vec![0, 1, 2]);
    seq.prepend(2);
    assert_eq!(decide_action(5, &man, &mut seq), (true, TableAction::Join(2)));
}

#[test]
fn no_improvement_leaves_index_unchanged() {
    let mut man = AssociationManager::new(2, 2, 2);
    man.join_table(&1, &0);
    let mut seq = TableSeq::new(&vec![0, 1]);
    let (improved, _) = decide_action(1, &man, &mut seq);
    assert!(!improved);
    let actions = run_round(&mut man, &mut seq, &vec![1]);
    assert_eq!(actions, vec![TableAction::Stay]);
    assert_eq!(man.current_group(1), Some(0));
    assert_eq!(members(man.members_of(0)), vec![1]);
    assert_eq!(man.members_of(1).len(), 0);
}

#[test]
fn crowded_person_evicts_neighbour_to_shrink_group() {
    let mut man = AssociationManager::new(2, 1, 2);
    man.join_table(&1, &0);
    man.join_table(&2, &0);
    let mut seq = TableSeq::new(&vec![0]);
    assert_eq!(decide_action(1, &man, &mut seq), (true, TableAction::Replace(2, 0)));
}

#[test]
fn pass_after_redirect_keeps_natural_position() {
    let mut seq = TableSeq::new(&vec![0, 1, 2]);
    assert_eq!(seq.next(), 0);
    seq.prepend(1);
    assert_eq!(seq.one_pass(), vec![1, 2, 0]);
    assert_eq!(seq.next(), 1);
    assert_eq!(seq.next(), 2);
}
