use lsm_levels::key_range::key_le;
use lsm_levels::key_range::KeyRange;

fn kr(lo: &[u8], hi: &[u8]) -> KeyRange {
    KeyRange { left: lo.to_vec(), right: hi.to_vec() }
}

#[test]
fn lexicographic_order_on_keys() {
    assert!(key_le(&vec![], &vec![1]));
    assert!(key_le(&vec![1, 2], &vec![1, 2]));
    assert!(key_le(&vec![1, 2], &vec![1, 2, 0]));
    assert!(key_le(&vec![1, 2], &vec![2]));
    assert!(!key_le(&vec![2], &vec![1, 200]));
    assert!(!key_le(&vec![1, 2, 0], &vec![1, 2]));
}

#[test]
fn overlap_of_adjacent_ranges() {
    // The right bound is exclusive: [0, 10) and [10, 20) are disjoint.
    assert!(!kr(&[0], &[10]).overlaps(&kr(&[10], &[20])));
    assert!(!kr(&[10], &[20]).overlaps(&kr(&[0], &[10])));
}

#[test]
fn overlap_of_intersecting_ranges() {
    assert!(kr(&[0], &[10]).overlaps(&kr(&[5], &[15])));
    assert!(kr(&[5], &[15]).overlaps(&kr(&[0], &[10])));
    assert!(kr(&[0], &[100]).overlaps(&kr(&[40], &[60])));
    // Multi-byte bounds compare lexicographically.
    assert!(kr(&[1, 0], &[1, 5]).overlaps(&kr(&[1, 4], &[2])));
    assert!(!kr(&[1, 0], &[1, 5]).overlaps(&kr(&[1, 5], &[2])));
}

#[test]
fn key_range_new_keeps_bounds() {
    let r = KeyRange::new(vec![1, 2], vec![3, 4]);
    assert_eq!(r.left, vec![1, 2]);
    assert_eq!(r.right, vec![3, 4]);
}
