use preproc::errors::PipelineError;
use preproc::split::estimate_token_count;
use preproc::split::layer4_filter;
use preproc::split::parse_split_ratio;
use preproc::split::scan_for_code;
use preproc::split::split_counts;
use preproc::votes::layer3_filter;
use preproc::xml::scan_rows;

fn votes_doc(dates_and_types: &[(&str, &str)]) -> Vec<u8> {
    let mut d = Vec::new();
    d.extend_from_slice(b"<votes>\n");
    for (date, vt) in dates_and_types {
        d.extend_from_slice(
            format!(
                "  <row Id=\"9\" PostId=\"1\" VoteTypeId=\"{}\" CreationDate=\"{}\" />\n",
                vt, date
            )
            .as_bytes(),
        );
    }
    d.extend_from_slice(b"</votes>\n");
    d
}

const L2_LINE: &[u8] = b"1\tbefore\t2010-01-01T00:00:00.000\tafter\t2010-01-02T10:30:00.000";

#[test]
fn vote_on_the_edit_day_counts_in_neither_bucket() {
    // Date-only comparison: a vote dated exactly on the edit's calendar day
    // is excluded from both buckets.
    let doc = votes_doc(&[("2010-01-02T23:59:59.999", "2")]);
    let rows = scan_rows(&doc).expect("scan");
    let lines = vec![L2_LINE.to_vec()];
    let out = layer3_filter(&rows, &lines).expect("no fault");
    assert_eq!(out, vec![b"1\t0\t0\t0\t0".to_vec()]);
}

#[test]
fn votes_fall_into_day_buckets() {
    let doc = votes_doc(&[
        ("2010-01-03T00:00:00.000", "2"),
        ("2010-01-04T00:00:00.000", "3"),
        ("2010-01-01T00:00:00.000", "2"),
        ("2010-01-01T12:00:00.000", "3"),
        ("2010-01-02T00:00:00.000", "2"),
    ]);
    let rows = scan_rows(&doc).expect("scan");
    let lines = vec![L2_LINE.to_vec()];
    let out = layer3_filter(&rows, &lines).expect("no fault");
    assert_eq!(out, vec![b"1\t1\t1\t1\t1".to_vec()]);
}

#[test]
fn vote_after_the_edit_day_lands_in_the_after_bucket() {
    let doc = votes_doc(&[("2010-01-07T00:00:00.000", "2")]);
    let rows = scan_rows(&doc).expect("scan");
    let lines = vec![L2_LINE.to_vec()];
    let out = layer3_filter(&rows, &lines).expect("no fault");
    assert_eq!(out, vec![b"1\t0\t0\t1\t0".to_vec()]);
}

#[test]
fn vote_before_the_edit_day_lands_in_the_before_bucket() {
    let doc = votes_doc(&[("2009-12-30T00:00:00.000", "3")]);
    let rows = scan_rows(&doc).expect("scan");
    let lines = vec![L2_LINE.to_vec()];
    let out = layer3_filter(&rows, &lines).expect("no fault");
    assert_eq!(out, vec![b"1\t0\t1\t0\t0".to_vec()]);
}

#[test]
fn untracked_keys_and_other_vote_types_are_ignored() {
    let mut doc = Vec::new();
    doc.extend_from_slice(b"<votes>\n");
    doc.extend_from_slice(b"  <row Id=\"9\" PostId=\"2\" VoteTypeId=\"2\" CreationDate=\"2010-01-03T00:00:00.000\" />\n");
    doc.extend_from_slice(b"  <row Id=\"9\" PostId=\"1\" VoteTypeId=\"7\" CreationDate=\"2010-01-03T00:00:00.000\" />\n");
    doc.extend_from_slice(b"</votes>\n");
    let rows = scan_rows(&doc).expect("scan");
    let lines = vec![L2_LINE.to_vec()];
    let out = layer3_filter(&rows, &lines).expect("no fault");
    assert_eq!(out, vec![b"1\t0\t0\t0\t0".to_vec()]);
}

#[test]
fn counted_vote_without_readable_instant_is_fatal() {
    let doc = votes_doc(&[("yesterday", "2")]);
    let rows = scan_rows(&doc).expect("scan");
    let lines = vec![L2_LINE.to_vec()];
    assert!(matches!(
        layer3_filter(&rows, &lines),
        Err(PipelineError::MalformedRecord { .. })
    ));
}

#[test]
fn token_estimate_counts_class_changes() {
    let one: Vec<char> = "hello world".chars().collect();
    assert_eq!(estimate_token_count(&one), 1);
    let mixed: Vec<char> = "a1".chars().collect();
    assert_eq!(estimate_token_count(&mixed), 2);
    let punct: Vec<char> = "a,b".chars().collect();
    assert_eq!(estimate_token_count(&punct), 3);
}

#[test]
fn code_hints_are_detected() {
    assert!(scan_for_code(b"x `y` z"));
    assert!(!scan_for_code(b"x \\`y\\` z"));
    assert!(scan_for_code(b"head&#xD;&#xA;    indented"));
    assert!(!scan_for_code(b"plain text"));
}

#[test]
fn ratio_parsing() {
    assert_eq!(parse_split_ratio(b"8:1:1"), Ok((8, 1, 1)));
    assert!(matches!(
        parse_split_ratio(b"8:1"),
        Err(PipelineError::BadSplitSpec)
    ));
    assert!(matches!(
        parse_split_ratio(b"a:b:c"),
        Err(PipelineError::BadSplitSpec)
    ));
    assert!(matches!(
        parse_split_ratio(b"-1:1:1"),
        Err(PipelineError::BadSplitSpec)
    ));
}

#[test]
fn eval_and_test_round_first_and_train_absorbs_the_rest() {
    assert_eq!(split_counts(10, 8, 1, 1), Ok((8, 1, 1)));
    assert_eq!(split_counts(10, 3, 1, 1), Ok((6, 2, 2)));
    assert_eq!(split_counts(1, 1, 1, 1), Ok((1, 0, 0)));
    assert!(matches!(
        split_counts(5, 0, 0, 0),
        Err(PipelineError::BadSplitSpec)
    ));
    // Rounding both shares up can exceed the population: unsplittable.
    assert!(matches!(
        split_counts(1, 0, 1, 1),
        Err(PipelineError::BadSplitSpec)
    ));
}

fn l2_line(key: u32, b: &str, a: &str) -> Vec<u8> {
    format!(
        "{}\t{}\t2010-01-01T00:00:00.000\t{}\t2010-01-02T00:00:00.000",
        key, b, a
    )
    .into_bytes()
}

#[test]
fn split_copies_pairs_into_three_partitions() {
    let lines = vec![
        l2_line(1, "before one", "after one"),
        l2_line(2, "before two", "after two"),
        l2_line(3, "before three", "after three"),
    ];
    let (train, eval_rows, test_rows) = layer4_filter(&lines, b"1:1:1").expect("split");
    assert_eq!(
        train,
        vec![b"input\toutput".to_vec(), b"before one\tafter one".to_vec()]
    );
    assert_eq!(
        eval_rows,
        vec![b"input\toutput".to_vec(), b"before two\tafter two".to_vec()]
    );
    assert_eq!(
        test_rows,
        vec![b"input\toutput".to_vec(), b"before three\tafter three".to_vec()]
    );
}

#[test]
fn denied_pairs_never_reach_a_partition() {
    let lines = vec![
        l2_line(1, "has `code` inside", "after"),
        l2_line(2, "plain", "pair"),
    ];
    let (train, eval_rows, test_rows) = layer4_filter(&lines, b"1:0:0").expect("split");
    assert_eq!(
        train,
        vec![b"input\toutput".to_vec(), b"plain\tpair".to_vec()]
    );
    assert_eq!(eval_rows, vec![b"input\toutput".to_vec()]);
    assert_eq!(test_rows, vec![b"input\toutput".to_vec()]);
}

#[test]
fn accepted_line_without_five_fields_is_fatal() {
    let lines = vec![b"1\tonly two".to_vec()];
    assert!(matches!(
        layer4_filter(&lines, b"1:1:1"),
        Err(PipelineError::MalformedLine { line: 0 })
    ));
}

#[test]
fn unreadable_text_line_is_fatal() {
    let lines = vec![vec![0xff, 0xfe, b'\t', b'x']];
    assert!(matches!(
        layer4_filter(&lines, b"1:1:1"),
        Err(PipelineError::MalformedLine { line: 0 })
    ));
}
