use bionemo_noodles::{
    find_record, parse_region, query, query_region, region_length, resolve_region,
    CoordinateRange, IndexRecord, QueryError,
};

const FILE_LF: &[u8] = b">chr1\nACGT\nACGT\nAC\n>chr2\nTTTTGG\nCC\n";
const FILE_CRLF: &[u8] = b">chr1\r\nACGT\r\nACGT\r\nAC\r\n";

fn lf_index() -> Vec<IndexRecord> {
    vec![
        IndexRecord::new(b"chr1".to_vec(), 10, 6, 4, 5).unwrap(),
        IndexRecord::new(b"chr2".to_vec(), 8, 25, 6, 7).unwrap(),
    ]
}

fn crlf_index() -> Vec<IndexRecord> {
    vec![IndexRecord::new(b"chr1".to_vec(), 10, 7, 4, 6).unwrap()]
}

fn range(name: &str, start: Option<u64>, end: Option<u64>) -> CoordinateRange {
    CoordinateRange { name: name.as_bytes().to_vec(), start, end }
}

#[test]
fn middle_range_spans_lines() {
    let got = query_region(&lf_index(), FILE_LF, "chr1:3-8").unwrap();
    assert_eq!(got, b"GTACGT".to_vec());
}

#[test]
fn range_in_last_line_has_no_terminator() {
    let got = query_region(&lf_index(), FILE_LF, "chr1:9-10").unwrap();
    assert_eq!(got, b"AC".to_vec());
}

#[test]
fn unknown_name_is_not_found() {
    assert_eq!(query_region(&lf_index(), FILE_LF, "chrX:1-3"), Err(QueryError::NotFound));
    assert_eq!(query_region(&lf_index(), FILE_LF, "chrX"), Err(QueryError::NotFound));
}

#[test]
fn full_range_is_whole_record_lf() {
    let got = query_region(&lf_index(), FILE_LF, "chr1:1-10").unwrap();
    assert_eq!(got, b"ACGTACGTAC".to_vec());
}

#[test]
fn full_range_is_whole_record_crlf() {
    let got = query_region(&crlf_index(), FILE_CRLF, "chr1:1-10").unwrap();
    assert_eq!(got, b"ACGTACGTAC".to_vec());
}

#[test]
fn crlf_ranges_skip_two_byte_terminators() {
    assert_eq!(query_region(&crlf_index(), FILE_CRLF, "chr1:3-8").unwrap(), b"GTACGT".to_vec());
    assert_eq!(query_region(&crlf_index(), FILE_CRLF, "chr1:4-5").unwrap(), b"TA".to_vec());
}

#[test]
fn every_range_matches_decoded_record() {
    let decoded = b"ACGTACGTAC";
    for a in 1..=10u64 {
        for b in a..=10u64 {
            let want = decoded[(a - 1) as usize..b as usize].to_vec();
            let text = format!("chr1:{}-{}", a, b);
            assert_eq!(query_region(&lf_index(), FILE_LF, &text).unwrap(), want);
            assert_eq!(query_region(&crlf_index(), FILE_CRLF, &text).unwrap(), want);
        }
    }
}

#[test]
fn second_record_is_served() {
    assert_eq!(query_region(&lf_index(), FILE_LF, "chr2:1-8").unwrap(), b"TTTTGGCC".to_vec());
    assert_eq!(query_region(&lf_index(), FILE_LF, "chr2:5-7").unwrap(), b"GGC".to_vec());
}

#[test]
fn repeated_queries_agree() {
    let index = lf_index();
    let first = query_region(&index, FILE_LF, "chr1:2-9");
    let second = query_region(&index, FILE_LF, "chr1:2-9");
    assert_eq!(first, second);
    assert_eq!(first.unwrap(), b"CGTACGTA".to_vec());
}

#[test]
fn range_to_record_end_has_exact_length() {
    let got = query_region(&lf_index(), FILE_LF, "chr1:6-10").unwrap();
    assert_eq!(got.len(), 5);
    assert_eq!(got, b"CGTAC".to_vec());
    assert!(!got.contains(&b'\n'));
}

#[test]
fn range_inside_short_last_line() {
    assert_eq!(query_region(&lf_index(), FILE_LF, "chr1:10-10").unwrap(), b"C".to_vec());
    assert_eq!(query_region(&lf_index(), FILE_LF, "chr2:7-8").unwrap(), b"CC".to_vec());
}

#[test]
fn range_past_record_end_is_truncated() {
    assert_eq!(query_region(&lf_index(), FILE_LF, "chr1:9-20").unwrap(), b"AC".to_vec());
    assert_eq!(query_region(&lf_index(), FILE_LF, "chr1:12-15").unwrap(), Vec::<u8>::new());
}

#[test]
fn range_past_file_end_is_truncated() {
    let cut = &FILE_LF[..14];
    assert_eq!(query_region(&lf_index(), cut, "chr1:1-10").unwrap(), b"ACGTACG".to_vec());
    let unterminated = b">chr1\nACGT\nACGT\nAC";
    assert_eq!(query_region(&lf_index(), unterminated, "chr1:7-10").unwrap(), b"GTAC".to_vec());
}

#[test]
fn single_residue_range() {
    assert_eq!(query_region(&lf_index(), FILE_LF, "chr1:5-5").unwrap(), b"A".to_vec());
}

#[test]
fn open_ranges_are_unsupported() {
    assert_eq!(query_region(&lf_index(), FILE_LF, "chr1"), Err(QueryError::UnsupportedRange));
    assert_eq!(query_region(&lf_index(), FILE_LF, "chr1:3"), Err(QueryError::UnsupportedRange));
}

#[test]
fn reversed_range_is_invalid() {
    assert_eq!(query_region(&lf_index(), FILE_LF, "chr1:8-3"), Err(QueryError::InvalidRange));
    let zero = range("chr1", Some(0), Some(3));
    assert_eq!(query(&lf_index(), FILE_LF, &zero), Err(QueryError::InvalidRange));
}

#[test]
fn unreadable_region_is_malformed() {
    assert_eq!(query_region(&lf_index(), FILE_LF, ""), Err(QueryError::MalformedRegion));
    assert_eq!(query_region(&lf_index(), FILE_LF, "chr1:x-3"), Err(QueryError::MalformedRegion));
    assert_eq!(query_region(&lf_index(), FILE_LF, "chr1:0-3"), Err(QueryError::MalformedRegion));
}

#[test]
fn not_found_comes_before_range_checks() {
    let open = range("chrX", Some(3), None);
    assert_eq!(query(&lf_index(), FILE_LF, &open), Err(QueryError::NotFound));
}

#[test]
fn parse_region_reads_name_and_bounds() {
    let c = parse_region("chr1:3-8").unwrap();
    assert_eq!(c.name, b"chr1".to_vec());
    assert_eq!(c.start, Some(3));
    assert_eq!(c.end, Some(8));
    let open = parse_region("chr2:5").unwrap();
    assert_eq!(open.name, b"chr2".to_vec());
    assert_eq!(open.start, Some(5));
    assert_eq!(open.end, None);
    assert_eq!(parse_region("").unwrap_err(), QueryError::MalformedRegion);
}

#[test]
fn region_length_is_inclusive() {
    assert_eq!(region_length(&range("a", Some(3), Some(8))), Ok(6));
    assert_eq!(region_length(&range("a", Some(4), Some(4))), Ok(1));
    assert_eq!(region_length(&range("a", Some(5), Some(4))), Err(QueryError::InvalidRange));
    assert_eq!(region_length(&range("a", None, Some(4))), Err(QueryError::UnsupportedRange));
    assert_eq!(region_length(&range("a", Some(1), None)), Err(QueryError::UnsupportedRange));
}

#[test]
fn find_record_picks_first_match() {
    let index = vec![
        IndexRecord::new(b"a".to_vec(), 1, 3, 1, 2).unwrap(),
        IndexRecord::new(b"b".to_vec(), 1, 8, 1, 2).unwrap(),
        IndexRecord::new(b"b".to_vec(), 1, 13, 1, 2).unwrap(),
    ];
    assert_eq!(find_record(&index, b"b"), Some(1));
    assert_eq!(find_record(&index, b"a"), Some(0));
    assert_eq!(find_record(&index, b"c"), None);
    assert_eq!(find_record(&index, b""), None);
}

#[test]
fn resolve_region_locates_start_byte() {
    let res = resolve_region(&lf_index(), &range("chr1", Some(7), Some(9))).unwrap();
    assert_eq!(res.record, 0);
    assert_eq!(res.start_byte, 13);
    assert_eq!(res.line_pos, 2);
    assert_eq!(res.length, 3);
    assert_eq!(res.line_bases, 4);
    assert_eq!(res.line_width, 5);
    assert_eq!(res.record_end, 18);
    let past = resolve_region(&lf_index(), &range("chr1", Some(30), Some(31))).unwrap();
    assert_eq!(past.start_byte, 18);
    assert_eq!(past.line_pos, 2);
}
