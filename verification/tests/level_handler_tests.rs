use lsm_levels::key_range::KeyRange;
use lsm_levels::level_handler::LevelHandler;
use lsm_levels::level_handler::TableStat;

fn kr(lo: u8, hi: u8) -> KeyRange {
    KeyRange { left: vec![lo], right: vec![hi] }
}

fn table(id: u64, lo: u8, hi: u8, task: Option<u64>) -> TableStat {
    TableStat { key_range: kr(lo, hi), table_id: id, compact_task: task }
}

#[test]
fn scenario_pop_returns_claimed_table() {
    // Two tables; task 5 claims table 1 and owns pending range [0, 10).
    let mut level = LevelHandler::Nonoverlapping(
        vec![table(1, 0, 10, Some(5)), table(2, 10, 20, None)],
        vec![(kr(0, 10), 5)],
    );
    let deleted = level.pop_task_input(5);
    assert_eq!(deleted, vec![1]);
    assert_eq!(
        level,
        LevelHandler::Nonoverlapping(vec![table(2, 10, 20, None)], vec![])
    );
}

#[test]
fn scenario_unassign_releases_both_tables() {
    // Task 7 claims both tables and owns pending range [0, 20).
    let mut level = LevelHandler::Nonoverlapping(
        vec![table(1, 0, 10, Some(7)), table(2, 10, 20, Some(7))],
        vec![(kr(0, 20), 7)],
    );
    level.unassign_task(7);
    assert_eq!(
        level,
        LevelHandler::Nonoverlapping(
            vec![table(1, 0, 10, None), table(2, 10, 20, None)],
            vec![]
        )
    );
}

#[test]
fn scenario_unassign_unknown_task_is_noop() {
    let mut level = LevelHandler::Nonoverlapping(
        vec![table(1, 0, 10, None), table(2, 10, 20, None)],
        vec![],
    );
    level.unassign_task(99);
    assert_eq!(
        level,
        LevelHandler::Nonoverlapping(
            vec![table(1, 0, 10, None), table(2, 10, 20, None)],
            vec![]
        )
    );
}

#[test]
fn unassign_leaves_other_tasks_untouched() {
    // Task 3 holds nothing here; task 4's claim and pending entry must stay.
    let mut level = LevelHandler::Overlapping(
        vec![table(8, 0, 10, Some(4)), table(9, 5, 15, None)],
        vec![(kr(20, 30), 4)],
    );
    level.unassign_task(3);
    assert_eq!(
        level,
        LevelHandler::Overlapping(
            vec![table(8, 0, 10, Some(4)), table(9, 5, 15, None)],
            vec![(kr(20, 30), 4)],
        )
    );
}

#[test]
fn pop_clears_claims_and_pending_of_task() {
    let mut level = LevelHandler::Overlapping(
        vec![
            table(1, 0, 10, Some(6)),
            table(2, 5, 15, Some(7)),
            table(3, 10, 20, Some(6)),
        ],
        vec![(kr(0, 20), 6), (kr(30, 40), 7)],
    );
    let deleted = level.pop_task_input(6);
    assert_eq!(deleted, vec![1, 3]);
    match &level {
        LevelHandler::Overlapping(tables, pending) => {
            assert!(tables.iter().all(|t| t.compact_task != Some(6)));
            assert!(pending.iter().all(|e| e.1 != 6));
        }
        _ => panic!("variant changed"),
    }
}

#[test]
fn unassign_clears_claims_but_keeps_count() {
    let mut level = LevelHandler::Nonoverlapping(
        vec![
            table(1, 0, 10, Some(6)),
            table(2, 10, 20, Some(7)),
            table(3, 20, 30, Some(6)),
        ],
        vec![(kr(0, 30), 6)],
    );
    level.unassign_task(6);
    match &level {
        LevelHandler::Nonoverlapping(tables, pending) => {
            assert_eq!(tables.len(), 3);
            assert!(tables.iter().all(|t| t.compact_task != Some(6)));
            assert_eq!(tables[1].compact_task, Some(7));
            assert_eq!(tables[0].table_id, 1);
            assert_eq!(tables[2].table_id, 3);
            assert!(pending.is_empty());
        }
        _ => panic!("variant changed"),
    }
}

#[test]
fn pop_returns_exactly_claimed_ids() {
    let mut level = LevelHandler::Overlapping(
        vec![
            table(10, 0, 10, Some(5)),
            table(11, 5, 15, Some(9)),
            table(12, 10, 20, None),
            table(13, 15, 25, Some(5)),
        ],
        vec![],
    );
    let deleted = level.pop_task_input(5);
    assert_eq!(deleted, vec![10, 13]);
    match &level {
        LevelHandler::Overlapping(tables, _) => {
            let ids: Vec<u64> = tables.iter().map(|t| t.table_id).collect();
            assert_eq!(ids, vec![11, 12]);
        }
        _ => panic!("variant changed"),
    }
}

#[test]
fn pop_twice_second_call_is_empty() {
    let mut level = LevelHandler::Nonoverlapping(
        vec![table(1, 0, 10, Some(5)), table(2, 10, 20, None)],
        vec![(kr(0, 10), 5)],
    );
    let first = level.pop_task_input(5);
    assert_eq!(first, vec![1]);
    let after_first = level.clone();
    let second = level.pop_task_input(5);
    assert!(second.is_empty());
    assert_eq!(level, after_first);
}

#[test]
fn ops_on_empty_level_do_nothing() {
    let mut level = LevelHandler::Nonoverlapping(vec![], vec![]);
    level.unassign_task(1);
    assert_eq!(level, LevelHandler::Nonoverlapping(vec![], vec![]));
    let deleted = level.pop_task_input(1);
    assert!(deleted.is_empty());
    assert_eq!(level, LevelHandler::Nonoverlapping(vec![], vec![]));
}

#[test]
fn unassigned_tables_become_selectable_again() {
    let mut level = LevelHandler::Overlapping(
        vec![table(1, 0, 10, Some(5)), table(2, 10, 20, Some(6))],
        vec![(kr(0, 10), 5)],
    );
    assert_eq!(level.unclaimed_table_ids(), Vec::<u64>::new());
    level.unassign_task(5);
    assert_eq!(level.unclaimed_table_ids(), vec![1]);
}

#[test]
fn unclaimed_table_ids_lists_free_tables() {
    let level = LevelHandler::Nonoverlapping(
        vec![
            table(1, 0, 10, Some(5)),
            table(2, 10, 20, None),
            table(3, 20, 30, None),
        ],
        vec![],
    );
    assert_eq!(level.unclaimed_table_ids(), vec![2, 3]);
}

#[test]
fn pending_conflict_detection() {
    let level = LevelHandler::Nonoverlapping(
        vec![],
        vec![(kr(10, 20), 5)],
    );
    assert!(level.has_pending_conflict(&kr(15, 25)));
    assert!(level.has_pending_conflict(&kr(5, 11)));
    assert!(!level.has_pending_conflict(&kr(20, 30)));
    assert!(!level.has_pending_conflict(&kr(0, 10)));
}
