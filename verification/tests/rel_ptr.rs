use rkyv_wrappers::rel_ptr::{locate, offset_between, target};

#[test]
fn offset_is_the_signed_distance() {
    assert_eq!(offset_between(0, 1), Some(1));
    assert_eq!(offset_between(1, 0), Some(-1));
    assert_eq!(offset_between(40, 12), Some(-28));
    assert_eq!(offset_between(12, 12), Some(0));
    assert_eq!(offset_between(0, isize::MAX as usize), Some(isize::MAX));
    assert_eq!(offset_between(isize::MAX as usize, 0), Some(-isize::MAX));
    assert_eq!(offset_between(isize::MAX as usize + 1, 0), Some(isize::MIN));
}

#[test]
fn offset_fails_where_no_isize_holds_it() {
    assert_eq!(offset_between(0, isize::MAX as usize + 1), None);
    assert_eq!(offset_between(0, isize::MAX as usize + 2), None);
    assert_eq!(offset_between(isize::MAX as usize + 2, 0), None);
    assert_eq!(offset_between(0, usize::MAX), None);
}

#[test]
fn target_follows_an_offset() {
    assert_eq!(target(40, -28), Some(12));
    assert_eq!(target(12, 28), Some(40));
    assert_eq!(target(5, -5), Some(0));
    assert_eq!(target(5, -6), None);
    assert_eq!(target(0, isize::MIN), None);
    assert_eq!(target(usize::MAX, 1), None);
    assert_eq!(target(usize::MAX, 0), Some(usize::MAX));
    assert_eq!(target(isize::MAX as usize + 1, isize::MIN), Some(0));
    for (from, to) in [(0usize, 9usize), (9, 0), (100, 101), (77, 77)] {
        assert_eq!(target(from, offset_between(from, to).unwrap()), Some(to));
    }
}

#[test]
fn locate_keeps_to_the_archive() {
    assert_eq!(locate(10, -4, 4, 10), Some(6));
    assert_eq!(locate(10, -4, 5, 10), None);
    assert_eq!(locate(10, -11, 1, 10), None);
    assert_eq!(locate(0, 0, 0, 0), Some(0));
    assert_eq!(locate(3, 7, 0, 10), Some(10));
    assert_eq!(locate(3, 8, 0, 10), None);
}
