use preproc::relabel::relabel_code;
use preproc::relabel::relabel_pair;
use preproc::spans::apply_spans;
use preproc::spans::locate_code_segments;
use preproc::spans::Span;

fn spans_of(text: &[u8]) -> Vec<Span> {
    locate_code_segments(text)
}

#[test]
fn inline_span_over_backticks() {
    // One inline span covering `code`, both backticks included.
    let text = b"plain `code` text";
    let spans = spans_of(text);
    assert_eq!(spans.len(), 1);
    assert_eq!(spans[0].start, 6);
    assert_eq!(spans[0].end, 11);
    assert_eq!(spans[0].tag, -1);
}

#[test]
fn unterminated_inline_span_not_emitted() {
    let text = b"plain `code text";
    let spans = spans_of(text);
    assert_eq!(spans.len(), 0);
}

#[test]
fn escaped_backtick_does_not_toggle() {
    let text = b"plain \\`not code\\` text";
    let spans = spans_of(text);
    assert_eq!(spans.len(), 0);
}

#[test]
fn indent_block_trimmed_at_both_ends() {
    let text = b"x\n    code\nrest";
    let spans = spans_of(text);
    assert_eq!(spans.len(), 1);
    assert_eq!(spans[0].start, 2);
    assert_eq!(spans[0].end, 9);
}

#[test]
fn fenced_block_covers_both_fences() {
    let text = b"a\n```\ncode\n```\nrest";
    let spans = spans_of(text);
    assert_eq!(spans.len(), 1);
    assert_eq!(spans[0].start, 2);
    assert_eq!(spans[0].end, 13);
}

#[test]
fn spans_never_overlap_and_stay_ordered() {
    // Indent block and inline spans in one buffer.
    let text = b"see `a`\n    indented code\nthen `b` end";
    let spans = spans_of(text);
    assert!(spans.len() >= 2);
    for w in 1..spans.len() {
        assert!(spans[w - 1].end < spans[w].start);
        assert!(spans[w].start <= spans[w].end);
    }
}

#[test]
fn placeholder_carries_unified_tag() {
    // The inline span resolves to tag 0 of the unified list.
    let before = b"plain `code` text";
    let after = b"plain text";
    let r = relabel_pair(before, after);
    let (b, a) = r.expect("differing pair is kept");
    assert_eq!(b, b"plain <N0> text".to_vec());
    assert_eq!(a, b"plain text".to_vec());
}

#[test]
fn identical_content_resolves_to_one_tag() {
    // The same span content in both snapshots gets the same tag index.
    let before = b"a `x` b";
    let after = b"c `x` d";
    let (b, a) = relabel_pair(before, after).expect("kept");
    assert_eq!(b, b"a <N0> b".to_vec());
    assert_eq!(a, b"c <N0> d".to_vec());
}

#[test]
fn placeholders_carry_unified_tags_across_snapshots() {
    // The after-snapshot's span holds the second unified content, so its
    // placeholder references tag 1 even though it is that snapshot's first span.
    let before = b"`x` and `y`";
    let after = b"`y` only";
    let (b, a) = relabel_pair(before, after).expect("kept");
    assert_eq!(b, b"<N0> and <N1>".to_vec());
    assert_eq!(a, b"<N1> only".to_vec());
}

#[test]
fn byte_identical_pair_is_excluded() {
    // A no-op edit relabels identically and is filtered out.
    let text = b"some `code` here";
    assert!(relabel_pair(text, text).is_none());
}

#[test]
fn code_only_edit_changes_the_label() {
    // Changed code content is a different entry of the unified list, so the
    // relabeled texts differ by tag and the pair is kept.
    let before = b"say `old` now";
    let after = b"say `new` now";
    let (b, a) = relabel_pair(before, after).expect("kept");
    assert_eq!(b, b"say <N0> now".to_vec());
    assert_eq!(a, b"say <N1> now".to_vec());
}

#[test]
fn line_break_escapes_are_restored() {
    let before = b"head&#xD;&#xA;    code line&#xD;&#xA;tail one";
    let after = b"head&#xD;&#xA;tail two";
    let (b, a) = relabel_pair(before, after).expect("kept");
    assert_eq!(b, b"head&#xD;&#xA;<N0>&#xD;&#xA;tail one".to_vec());
    assert_eq!(a, b"head&#xD;&#xA;tail two".to_vec());
}

#[test]
fn apply_spans_substitutes_the_assigned_tags() {
    let text = b"aa`b`cc`d`";
    let mut spans = locate_code_segments(text);
    assert_eq!(spans.len(), 2);
    spans[0].tag = 1;
    spans[1].tag = 0;
    let out = apply_spans(text, &spans);
    assert_eq!(out, b"aa<N1>cc<N0>".to_vec());
}

#[test]
fn relabel_code_keeps_only_changed_pairs() {
    let lines: Vec<Vec<u8>> = vec![
        b"7\t2\td0\tone `a` x\t5\td1\tone `b` x".to_vec(),
        b"8\t2\td0\tsame\t5\td1\tsame".to_vec(),
        b"9\t2\td0\tfoo\t5\td1\tbar".to_vec(),
    ];
    let out = relabel_code(&lines).expect("all lines well-formed");
    assert_eq!(
        out,
        vec![b"one <N0> x\tone <N1> x".to_vec(), b"foo\tbar".to_vec()]
    );
}

#[test]
fn relabel_code_rejects_short_line() {
    let lines: Vec<Vec<u8>> = vec![b"7\tonly\tthree".to_vec()];
    let r = relabel_code(&lines);
    assert!(matches!(
        r,
        Err(preproc::errors::PipelineError::MalformedLine { line: 0 })
    ));
}

#[test]
fn relabel_code_rejects_bad_key() {
    let lines: Vec<Vec<u8>> = vec![b"x\t2\td0\ta\t5\td1\tb".to_vec()];
    let r = relabel_code(&lines);
    assert!(matches!(
        r,
        Err(preproc::errors::PipelineError::MalformedLine { line: 0 })
    ));
}

#[test]
fn empty_text_has_no_spans_and_no_pair() {
    assert_eq!(locate_code_segments(b"").len(), 0);
    assert!(relabel_pair(b"", b"").is_none());
}
