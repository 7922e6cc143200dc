use bionemo_noodles::IndexRecord;

#[test]
fn record_getters_and_end() {
    let r = IndexRecord::new(b"chr1".to_vec(), 10, 6, 4, 5).unwrap();
    assert_eq!(r.name(), b"chr1");
    assert_eq!(r.length(), 10);
    assert_eq!(r.offset(), 6);
    assert_eq!(r.line_bases(), 4);
    assert_eq!(r.line_width(), 5);
    assert_eq!(r.end_in_bytes(), 12);
    assert_eq!(r.end_byte(), 18);
}

#[test]
fn record_end_with_full_last_line() {
    let r = IndexRecord::new(b"s".to_vec(), 8, 3, 4, 6).unwrap();
    assert_eq!(r.end_in_bytes(), 12);
    assert_eq!(r.end_byte(), 15);
}

#[test]
fn record_geometry_is_checked() {
    assert!(IndexRecord::new(b"s".to_vec(), 8, 3, 0, 6).is_none());
    assert!(IndexRecord::new(b"s".to_vec(), 8, 3, 5, 4).is_none());
    assert!(IndexRecord::new(b"s".to_vec(), 8, u64::MAX - 5, 4, 5).is_none());
    assert!(IndexRecord::new(b"s".to_vec(), u64::MAX, 0, 1, 2).is_none());
    assert!(IndexRecord::new(b"s".to_vec(), 8, u64::MAX - 10, 4, 5).is_some());
    assert!(IndexRecord::new(b"s".to_vec(), 0, 0, 1, 1).is_some());
}
