use bionemo_noodles::read_sequence_limit;

const FILE: &[u8] = b">chr1\nACGT\nACGT\nAC\n";

#[test]
fn extract_from_line_start() {
    let mut buf = Vec::new();
    let n = read_sequence_limit(FILE, 6, 0, 6, 4, 5, 18, &mut buf);
    assert_eq!(n, 6);
    assert_eq!(buf, b"ACGTAC".to_vec());
}

#[test]
fn extract_from_mid_line() {
    let mut buf = Vec::new();
    let n = read_sequence_limit(FILE, 8, 2, 6, 4, 5, 18, &mut buf);
    assert_eq!(n, 6);
    assert_eq!(buf, b"GTACGT".to_vec());
}

#[test]
fn extract_appends_to_buffer() {
    let mut buf = b"xy".to_vec();
    let n = read_sequence_limit(FILE, 16, 0, 4, 4, 5, 18, &mut buf);
    assert_eq!(n, 2);
    assert_eq!(buf, b"xyAC".to_vec());
}

#[test]
fn extract_stops_at_record_end() {
    let mut buf = Vec::new();
    let n = read_sequence_limit(FILE, 6, 0, 100, 4, 5, 18, &mut buf);
    assert_eq!(n, 10);
    assert_eq!(buf, b"ACGTACGTAC".to_vec());
}

#[test]
fn extract_stops_at_source_end() {
    let mut buf = Vec::new();
    let n = read_sequence_limit(&FILE[..13], 6, 0, 100, 4, 5, 18, &mut buf);
    assert_eq!(n, 6);
    assert_eq!(buf, b"ACGTAC".to_vec());
}

#[test]
fn extract_nothing_when_asked_for_nothing() {
    let mut buf = Vec::new();
    assert_eq!(read_sequence_limit(FILE, 6, 0, 0, 4, 5, 18, &mut buf), 0);
    assert!(buf.is_empty());
    assert_eq!(read_sequence_limit(FILE, 18, 2, 3, 4, 5, 18, &mut buf), 0);
    assert!(buf.is_empty());
}
