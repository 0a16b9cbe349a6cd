use lsm_levels::key_range::KeyRange;
use lsm_levels::level_handler::LevelHandler;
use lsm_levels::level_handler::TableStat;
use lsm_levels::snapshot::from_snapshot;
use lsm_levels::snapshot::to_snapshot;

fn kr(lo: &[u8], hi: &[u8]) -> KeyRange {
    KeyRange { left: lo.to_vec(), right: hi.to_vec() }
}

#[test]
fn round_trip_nonoverlapping() {
    let level = LevelHandler::Nonoverlapping(
        vec![
            TableStat { key_range: kr(&[0], &[10]), table_id: 1, compact_task: Some(5) },
            TableStat { key_range: kr(&[10, 3], &[20]), table_id: 2, compact_task: None },
        ],
        vec![(kr(&[0], &[10]), 5), (kr(&[30], &[40, 1, 2]), 6)],
    );
    let snap = to_snapshot(&level);
    assert!(!snap.overlapping);
    assert_eq!(snap.tables.len(), 2);
    assert_eq!(snap.tables[0].table_id, 1);
    assert_eq!(snap.pending_output_ranges.len(), 2);
    let restored = from_snapshot(&snap);
    assert_eq!(restored, level);
}

#[test]
fn round_trip_overlapping() {
    let level = LevelHandler::Overlapping(
        vec![
            TableStat { key_range: kr(&[], &[7, 7]), table_id: 42, compact_task: None },
            TableStat { key_range: kr(&[5], &[9]), table_id: 43, compact_task: Some(9) },
        ],
        vec![(kr(&[1, 2, 3], &[4, 5, 6]), 9)],
    );
    let snap = to_snapshot(&level);
    assert!(snap.overlapping);
    let restored = from_snapshot(&snap);
    assert_eq!(restored, level);
}

#[test]
fn round_trip_empty_level() {
    let level = LevelHandler::Nonoverlapping(vec![], vec![]);
    let restored = from_snapshot(&to_snapshot(&level));
    assert_eq!(restored, level);

    let level = LevelHandler::Overlapping(vec![], vec![]);
    let restored = from_snapshot(&to_snapshot(&level));
    assert_eq!(restored, level);
}
