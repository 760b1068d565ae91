use preproc::errors::PipelineError;
use preproc::join::layer2_filter;
use preproc::join::layer2_scan;
use preproc::join::load_layer_1;
use preproc::join::UNSET_POSITION;
use preproc::ownership::layer1_filter;
use preproc::question_index::generate_question_index;
use preproc::question_index::load_question_index;
use preproc::record::find_attr;
use preproc::revisions::generate_revision_set;
use preproc::xml::resolve_record;
use preproc::xml::scan_rows;

#[test]
fn resolved_offsets_reproduce_their_records() {
    // Every retained offset, re-read directly, decodes the record whose key
    // placed it into the index.
    let doc = b"<posts>\n  <row Id=\"11\" PostTypeId=\"1\" />\n  <row Id=\"22\" PostTypeId=\"1\" />\n</posts>\n";
    let rows = scan_rows(doc).expect("well-formed dump");
    assert_eq!(rows.len(), 2);
    for row in &rows {
        let rec = resolve_record(doc, row.offset).expect("offset re-reads one record");
        let scanned_id = find_attr(&row.rec, b"Id").expect("key present").clone();
        let resolved_id = find_attr(&rec, b"Id").expect("key present").clone();
        assert_eq!(scanned_id, resolved_id);
    }
}

#[test]
fn self_edit_yields_no_ownership_line() {
    // Same author and last editor: the same-author equality check is the
    // determining rule, so the record contributes nothing.
    let doc = b"<posts>\n  <row Id=\"1\" PostTypeId=\"1\" OwnerUserId=\"10\" LastEditorUserId=\"10\" />\n</posts>\n";
    let rows = scan_rows(doc).expect("scan");
    let lines = layer1_filter(&rows).expect("no fault");
    assert_eq!(lines.len(), 0);
}

#[test]
fn foreign_edit_yields_one_ownership_line() {
    let doc = b"<posts>\n  <row Id=\"1\" PostTypeId=\"1\" OwnerUserId=\"10\" LastEditorUserId=\"11\" />\n</posts>\n";
    let rows = scan_rows(doc).expect("scan");
    let lines = layer1_filter(&rows).expect("no fault");
    assert_eq!(lines, vec![b"1\t10".to_vec()]);
}

#[test]
fn ownership_filter_rejects_unreadable_key() {
    let doc = b"<posts>\n  <row Id=\"x1\" PostTypeId=\"1\" OwnerUserId=\"10\" LastEditorUserId=\"11\" />\n</posts>\n";
    let rows = scan_rows(doc).expect("scan");
    assert!(matches!(
        layer1_filter(&rows),
        Err(PipelineError::MalformedRecord { .. })
    ));
}

fn history_doc() -> Vec<u8> {
    let mut d = Vec::new();
    d.extend_from_slice(b"<posthistory>\n");
    d.extend_from_slice(b"  <row PostId=\"1\" PostHistoryTypeId=\"2\" ContentLicense=\"CC BY-SA 4.0\" UserId=\"10\" Text=\"hello\" CreationDate=\"2010-01-01T00:00:00.000\" />\n");
    d.extend_from_slice(b"  <row PostId=\"1\" PostHistoryTypeId=\"5\" ContentLicense=\"CC BY-SA 4.0\" UserId=\"11\" Text=\"world\" CreationDate=\"2010-02-03T04:05:06.007\" />\n");
    d.extend_from_slice(b"</posthistory>\n");
    d
}

#[test]
fn join_emits_one_pair_for_a_single_foreign_edit() {
    let ownership: Vec<Vec<u8>> = vec![b"1\t10".to_vec()];
    let out = layer2_filter(&history_doc(), &ownership).expect("no fault");
    assert_eq!(
        out,
        vec![b"1\thello\t2010-01-01T00:00:00.000\tworld\t2010-02-03T04:05:06.007".to_vec()]
    );
}

#[test]
fn key_with_only_a_before_offset_is_excluded() {
    // No qualifying edit found: the after slot stays at the unset sentinel
    // and the key is dropped from the join output.
    let mut doc = Vec::new();
    doc.extend_from_slice(b"<posthistory>\n");
    doc.extend_from_slice(b"  <row PostId=\"1\" PostHistoryTypeId=\"2\" ContentLicense=\"CC BY-SA 4.0\" UserId=\"10\" Text=\"hello\" CreationDate=\"2010-01-01T00:00:00.000\" />\n");
    doc.extend_from_slice(b"</posthistory>\n");
    let ownership: Vec<Vec<u8>> = vec![b"1\t10".to_vec()];
    let out = layer2_filter(&doc, &ownership).expect("no fault");
    assert_eq!(out.len(), 0);
}

#[test]
fn rejection_is_monotonic_across_the_scan() {
    // A self-edit rejects the key; later qualifying evidence never brings
    // it back into the survivor set.
    let mut doc = Vec::new();
    doc.extend_from_slice(b"<posthistory>\n");
    doc.extend_from_slice(b"  <row PostId=\"1\" PostHistoryTypeId=\"2\" ContentLicense=\"CC BY-SA 4.0\" UserId=\"10\" Text=\"a\" CreationDate=\"2010-01-01T00:00:00.000\" />\n");
    // An edit by the original author: the key is rejected for good.
    doc.extend_from_slice(b"  <row PostId=\"1\" PostHistoryTypeId=\"5\" ContentLicense=\"CC BY-SA 4.0\" UserId=\"10\" Text=\"b\" CreationDate=\"2010-01-02T00:00:00.000\" />\n");
    // A later foreign edit must not re-qualify it.
    doc.extend_from_slice(b"  <row PostId=\"1\" PostHistoryTypeId=\"5\" ContentLicense=\"CC BY-SA 4.0\" UserId=\"11\" Text=\"c\" CreationDate=\"2010-01-03T00:00:00.000\" />\n");
    doc.extend_from_slice(b"</posthistory>\n");
    let ownership: Vec<Vec<u8>> = vec![b"1\t10".to_vec()];
    let rows = scan_rows(&doc).expect("scan");
    let mut index = load_layer_1(&ownership).expect("load");
    let survivors = layer2_scan(&rows, &mut index).expect("no fault");
    assert_eq!(survivors, 0);
    assert_eq!(index.vals.len(), 1);
    assert!(index.vals[0].delete);
    let out = layer2_filter(&doc, &ownership).expect("no fault");
    assert_eq!(out.len(), 0);
}

#[test]
fn second_foreign_edit_rejects_the_key() {
    // Only single-edit items are retained.
    let mut doc = Vec::new();
    doc.extend_from_slice(b"<posthistory>\n");
    doc.extend_from_slice(b"  <row PostId=\"1\" PostHistoryTypeId=\"2\" ContentLicense=\"CC BY-SA 4.0\" UserId=\"10\" Text=\"a\" CreationDate=\"2010-01-01T00:00:00.000\" />\n");
    doc.extend_from_slice(b"  <row PostId=\"1\" PostHistoryTypeId=\"5\" ContentLicense=\"CC BY-SA 4.0\" UserId=\"11\" Text=\"b\" CreationDate=\"2010-01-02T00:00:00.000\" />\n");
    doc.extend_from_slice(b"  <row PostId=\"1\" PostHistoryTypeId=\"5\" ContentLicense=\"CC BY-SA 4.0\" UserId=\"12\" Text=\"c\" CreationDate=\"2010-01-03T00:00:00.000\" />\n");
    doc.extend_from_slice(b"</posthistory>\n");
    let ownership: Vec<Vec<u8>> = vec![b"1\t10".to_vec()];
    let out = layer2_filter(&doc, &ownership).expect("no fault");
    assert_eq!(out.len(), 0);
}

#[test]
fn disallowed_license_is_fatal() {
    let mut doc = Vec::new();
    doc.extend_from_slice(b"<posthistory>\n");
    doc.extend_from_slice(b"  <row PostId=\"1\" PostHistoryTypeId=\"2\" ContentLicense=\"MIT\" UserId=\"10\" Text=\"a\" CreationDate=\"2010-01-01T00:00:00.000\" />\n");
    doc.extend_from_slice(b"</posthistory>\n");
    let ownership: Vec<Vec<u8>> = vec![b"1\t10".to_vec()];
    assert!(matches!(
        layer2_filter(&doc, &ownership),
        Err(PipelineError::DisallowedLicense { .. })
    ));
}

#[test]
fn missing_body_resolves_to_empty_text() {
    // An absent free-text attribute is a legitimately empty body, never an
    // error; the pair is still emitted.
    let mut doc = Vec::new();
    doc.extend_from_slice(b"<posthistory>\n");
    doc.extend_from_slice(b"  <row PostId=\"1\" PostHistoryTypeId=\"2\" ContentLicense=\"CC BY-SA 4.0\" UserId=\"10\" Text=\"\" CreationDate=\"2010-01-01T00:00:00.000\" />\n");
    doc.extend_from_slice(b"  <row PostId=\"1\" PostHistoryTypeId=\"5\" ContentLicense=\"CC BY-SA 4.0\" UserId=\"11\" Text=\"world\" CreationDate=\"2010-02-03T04:05:06.007\" />\n");
    doc.extend_from_slice(b"</posthistory>\n");
    let ownership: Vec<Vec<u8>> = vec![b"1\t10".to_vec()];
    let out = layer2_filter(&doc, &ownership).expect("no fault");
    assert_eq!(
        out,
        vec![b"1\t\t2010-01-01T00:00:00.000\tworld\t2010-02-03T04:05:06.007".to_vec()]
    );
}

#[test]
fn unreadable_instant_drops_the_pair_silently() {
    let mut doc = Vec::new();
    doc.extend_from_slice(b"<posthistory>\n");
    doc.extend_from_slice(b"  <row PostId=\"1\" PostHistoryTypeId=\"2\" ContentLicense=\"CC BY-SA 4.0\" UserId=\"10\" Text=\"a\" CreationDate=\"not a time\" />\n");
    doc.extend_from_slice(b"  <row PostId=\"1\" PostHistoryTypeId=\"5\" ContentLicense=\"CC BY-SA 4.0\" UserId=\"11\" Text=\"b\" CreationDate=\"2010-02-03T04:05:06.007\" />\n");
    doc.extend_from_slice(b"</posthistory>\n");
    let ownership: Vec<Vec<u8>> = vec![b"1\t10".to_vec()];
    let out = layer2_filter(&doc, &ownership).expect("non-fatal");
    assert_eq!(out.len(), 0);
}

#[test]
fn question_index_lists_top_level_items() {
    let doc = b"<posts>\n  <row Id=\"3\" PostTypeId=\"1\" />\n  <row Id=\"4\" PostTypeId=\"2\" />\n  <row Id=\"5\" PostTypeId=\"1\" />\n</posts>\n";
    let rows = scan_rows(doc).expect("scan");
    let lines = generate_question_index(&rows).expect("no fault");
    assert_eq!(lines, vec![b"3".to_vec(), b"5".to_vec()]);
    let idx = load_question_index(&lines).expect("load");
    assert_eq!(idx.keys, vec![3, 5]);
}

#[test]
fn revision_set_pairs_earliest_and_latest() {
    let mut doc = Vec::new();
    doc.extend_from_slice(b"<posthistory>\n");
    doc.extend_from_slice(b"  <row PostId=\"1\" PostHistoryTypeId=\"5\" ContentLicense=\"CC BY-SA 4.0\" Text=\"mid\" CreationDate=\"2010-01-15T00:00:00.000\" />\n");
    doc.extend_from_slice(b"  <row PostId=\"1\" PostHistoryTypeId=\"2\" ContentLicense=\"CC BY-SA 4.0\" Text=\"first\" CreationDate=\"2010-01-01T00:00:00.000\" />\n");
    doc.extend_from_slice(b"  <row PostId=\"1\" PostHistoryTypeId=\"8\" ContentLicense=\"CC BY-SA 4.0\" Text=\"last\" CreationDate=\"2010-02-01T00:00:00.000\" />\n");
    doc.extend_from_slice(b"</posthistory>\n");
    let qidx: Vec<Vec<u8>> = vec![b"1".to_vec()];
    let out = generate_revision_set(&doc, &qidx).expect("no fault");
    assert_eq!(
        out,
        vec![
            b"1\t2\t2010-01-01T00:00:00.000\tfirst\t8\t2010-02-01T00:00:00.000\tlast".to_vec()
        ]
    );
}

#[test]
fn single_revision_key_is_not_emitted() {
    let mut doc = Vec::new();
    doc.extend_from_slice(b"<posthistory>\n");
    doc.extend_from_slice(b"  <row PostId=\"1\" PostHistoryTypeId=\"2\" ContentLicense=\"CC BY-SA 4.0\" Text=\"only\" CreationDate=\"2010-01-01T00:00:00.000\" />\n");
    doc.extend_from_slice(b"</posthistory>\n");
    let qidx: Vec<Vec<u8>> = vec![b"1".to_vec()];
    let out = generate_revision_set(&doc, &qidx).expect("no fault");
    assert_eq!(out.len(), 0);
}

#[test]
fn loader_rejects_short_ownership_line() {
    let ownership: Vec<Vec<u8>> = vec![b"1".to_vec()];
    assert!(matches!(
        load_layer_1(&ownership),
        Err(PipelineError::MalformedLine { line: 0 })
    ));
}

#[test]
fn loader_seeds_unset_offsets() {
    let ownership: Vec<Vec<u8>> = vec![b"5\t7".to_vec(), b"2\t3".to_vec()];
    let m = load_layer_1(&ownership).expect("load");
    assert_eq!(m.keys, vec![2, 5]);
    assert_eq!(m.vals[0].author_id, 3);
    assert_eq!(m.vals[1].author_id, 7);
    assert!(!m.vals[0].delete);
    assert_eq!(m.vals[0].before_position, UNSET_POSITION);
    assert_eq!(m.vals[0].after_position, UNSET_POSITION);
}

#[test]
fn empty_dump_scans_to_nothing() {
    let rows = scan_rows(b"").expect("empty input is a whole document");
    assert_eq!(rows.len(), 0);
}

#[test]
fn repeated_ownership_key_keeps_the_later_author() {
    let ownership: Vec<Vec<u8>> = vec![b"1\t10".to_vec(), b"1\t20".to_vec()];
    let m = load_layer_1(&ownership).expect("load");
    assert_eq!(m.keys, vec![1]);
    assert_eq!(m.vals[0].author_id, 20);
}

#[test]
fn revision_without_readable_instant_drops_its_key() {
    // A revision whose record lacks a readable instant drops the whole key
    // from the revision set, without aborting the run.
    let mut doc = Vec::new();
    doc.extend_from_slice(b"<posthistory>\n");
    doc.extend_from_slice(b"  <row PostId=\"1\" PostHistoryTypeId=\"2\" ContentLicense=\"CC BY-SA 4.0\" Text=\"first\" CreationDate=\"2010-01-01T00:00:00.000\" />\n");
    doc.extend_from_slice(b"  <row PostId=\"1\" PostHistoryTypeId=\"5\" ContentLicense=\"CC BY-SA 4.0\" Text=\"second\" CreationDate=\"nope\" />\n");
    doc.extend_from_slice(b"</posthistory>\n");
    let qidx: Vec<Vec<u8>> = vec![b"1".to_vec()];
    let out = generate_revision_set(&doc, &qidx).expect("non-fatal");
    assert_eq!(out.len(), 0);
}
