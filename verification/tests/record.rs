use mullion::record::{RangeSource, VecRecordSource, Window};


#[test]
fn window_constructors() {
    let w = Window::new(vec![1, 2, 3], false);
    assert_eq!(w.len(), 3);
    assert!(!w.is_empty());
    assert!(!w.reached_boundary);

    let e: Window<i32> = Window::empty();
    assert!(e.is_empty());
    assert!(e.reached_boundary);
}

#[test]
fn vec_record_source_sorts_and_keys() {
    // Unsorted input is sorted by key; Row is the (key, value) pair.
    let mut s = VecRecordSource::new(vec![(3, "c"), (1, "a"), (2, "b")]);
    assert_eq!(s.fetch_after(None, 2).rows, vec![(1, "a"), (2, "b")]);
    assert_eq!(s.key_of(&(2, "b")), 2);
    assert_eq!(s.fetch_before(Some(3), 1).rows, vec![(2, "b")]);
    assert_eq!(s.exact_len(), Some(3));
}

#[test]
fn range_source_len_and_emptiness() {
    let s = RangeSource::new(10, |i| i * 2);
    assert_eq!(s.len(), 10);
    assert!(!s.is_empty());
    assert!(RangeSource::new(0, |i| i).is_empty());
}

#[test]
fn range_source_fetches_windows_lazily() {
    // Value = index * 10, so we can check exactly which indices were built.
    let mut s = RangeSource::new(10, |i| i * 10);

    // From the start.
    let w = s.fetch_after(None, 3);
    assert_eq!(w.rows, vec![(0, 0), (1, 10), (2, 20)]);
    assert!(!w.reached_boundary);

    // After a key, hitting the end (only 8,9 remain of len 10).
    let w = s.fetch_after(Some(7), 5);
    assert_eq!(w.rows, vec![(8, 80), (9, 90)]);
    assert!(w.reached_boundary);

    // The last n rows.
    let w = s.fetch_before(None, 2);
    assert_eq!(w.rows, vec![(8, 80), (9, 90)]);
    assert!(!w.reached_boundary);

    // Before a key, hitting the start.
    let w = s.fetch_before(Some(3), 9);
    assert_eq!(w.rows, vec![(0, 0), (1, 10), (2, 20)]);
    assert!(w.reached_boundary);
}

#[test]
fn range_source_over_a_slash_8_is_instant() {
    // 10.0.0.0/8 = 16,777,216 addresses. Fetching a window near the middle must
    // build only the requested rows — materializing all of it would hang/OOM.
    let mut s = RangeSource::new(16_777_216, |i| i);
    assert_eq!(s.exact_len(), Some(16_777_216));
    let w = s.fetch_after(Some(8_000_000), 4);
    assert_eq!(w.rows, vec![(8_000_001, 8_000_001), (8_000_002, 8_000_002), (8_000_003, 8_000_003), (8_000_004, 8_000_004)]);
    assert!(!w.reached_boundary);
}

