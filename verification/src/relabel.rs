//! The relabeler: unifies the spans detected in two related text snapshots
//! into content-addressed tags and substitutes them with placeholders,
//! producing a diff-safe pair.  A pair whose relabeled forms are identical
//! (an edit that changed only code content) is excluded.

use vstd::prelude::*;

use crate::errors::PipelineError;
use crate::numtext::int_literal_value;
use crate::numtext::is_int_literal;
use crate::numtext::parse_i64;
use crate::spans::apply_spans;
use crate::spans::apply_subst;
use crate::spans::locate_code_segments;
use crate::spans::located_spans;
use crate::spans::spans_in;
use crate::spans::spans_wf;
use crate::spans::Span;
use crate::textops::byte_views;
use crate::textops::bytes_eq;
use crate::textops::clone_bytes;
use crate::textops::push_range;
use crate::textops::replace_bytes;
use crate::textops::replace_seq;
use crate::textops::split_bytes;
use crate::textops::split_seq;

verus! {

/// The escape the dumps use for a line break, spelled out byte by byte.
pub open spec fn break_escape() -> Seq<u8> {
    seq![38u8, 35u8, 120u8, 68u8, 59u8, 38u8, 35u8, 120u8, 65u8, 59u8]
}

pub open spec fn line_break() -> Seq<u8> {
    seq![10u8]
}

fn break_escape_bytes() -> (r: Vec<u8>)
    ensures
        r@ == break_escape(),
{
    let mut r: Vec<u8> = Vec::new();
    r.push(38);
    r.push(35);
    r.push(120);
    r.push(68);
    r.push(59);
    r.push(38);
    r.push(35);
    r.push(120);
    r.push(65);
    r.push(59);
    proof {
        assert(r@ =~= break_escape());
    }
    r
}

fn line_break_bytes() -> (r: Vec<u8>)
    ensures
        r@ == line_break(),
{
    let mut r: Vec<u8> = Vec::new();
    r.push(10);
    proof {
        assert(r@ =~= line_break());
    }
    r
}

/// The text with every line-break escape expanded to a real line break.
pub open spec fn unescaped(s: Seq<u8>) -> Seq<u8> {
    replace_seq(s, break_escape(), line_break())
}

/// The text with every line break restored to its escape.
pub open spec fn reescaped(s: Seq<u8>) -> Seq<u8> {
    replace_seq(s, line_break(), break_escape())
}

/// Expands the line-break escapes before detection.
pub fn unescape_breaks(s: &[u8]) -> (r: Vec<u8>)
    ensures
        r@ == unescaped(s@),
{
    let pat = break_escape_bytes();
    let rep = line_break_bytes();
    replace_bytes(s, pat.as_slice(), rep.as_slice())
}

/// Restores the line-break escapes after substitution.
pub fn reescape_breaks(s: &[u8]) -> (r: Vec<u8>)
    ensures
        r@ == reescaped(s@),
{
    let pat = line_break_bytes();
    let rep = break_escape_bytes();
    replace_bytes(s, pat.as_slice(), rep.as_slice())
}

/// The bytes a span covers, both boundaries included.
pub open spec fn content_of(t: Seq<u8>, sp: Span) -> Seq<u8> {
    t.subrange(sp.start as int, sp.end + 1)
}

/// The contents of a span list over its text.
pub open spec fn contents_of(t: Seq<u8>, spans: Seq<Span>) -> Seq<Seq<u8>> {
    Seq::new(spans.len(), |i: int| content_of(t, spans[i]))
}

/// Appends `c` unless an equal content is already listed: first occurrence wins.
pub open spec fn push_unique(list: Seq<Seq<u8>>, c: Seq<u8>) -> Seq<Seq<u8>> {
    if list.contains(c) {
        list
    } else {
        list.push(c)
    }
}

pub open spec fn dedup_upto(cs: Seq<Seq<u8>>, k: int) -> Seq<Seq<u8>>
    decreases k,
{
    if k <= 0 {
        Seq::empty()
    } else {
        push_unique(dedup_upto(cs, k - 1), cs[k - 1])
    }
}

/// The contents with exact duplicates removed, first occurrence kept.
pub open spec fn dedup_contents(cs: Seq<Seq<u8>>) -> Seq<Seq<u8>> {
    dedup_upto(cs, cs.len() as int)
}

/// The position of the first listed content equal to `c`, or the length
/// of the list when none is.
pub open spec fn first_index(list: Seq<Seq<u8>>, c: Seq<u8>) -> int
    decreases list.len(),
{
    if list.len() == 0 {
        0
    } else if list[0] == c {
        0
    } else {
        1 + first_index(list.skip(1), c)
    }
}

/// Copies the bytes a span covers.
fn span_content(t: &[u8], sp: &Span) -> (r: Vec<u8>)
    requires
        sp.start <= sp.end,
        sp.end < t@.len(),
    ensures
        r@ == content_of(t@, *sp),
{
    let n = t.len();
    let mut r: Vec<u8> = Vec::new();
    push_range(&mut r, t, sp.start, sp.end + 1);
    proof {
        assert(r@ =~= content_of(t@, *sp));
    }
    r
}

/// Copies the contents of every span of `t`.
fn collect_contents(t: &[u8], spans: &Vec<Span>) -> (r: Vec<Vec<u8>>)
    requires
        spans_wf(spans@),
        spans_in(spans@, t@.len() as int),
    ensures
        byte_views(r@) == contents_of(t@, spans@),
{
    let mut r: Vec<Vec<u8>> = Vec::new();
    let mut k: usize = 0;
    while k < spans.len()
        invariant
            k <= spans@.len(),
            spans_wf(spans@),
            spans_in(spans@, t@.len() as int),
            byte_views(r@) =~= contents_of(t@, spans@).take(k as int),
        decreases spans@.len() - k,
    {
        let sp = spans[k];
        let ghost old_r = r@;
        let c = span_content(t, &sp);
        let ghost cview = c@;
        r.push(c);
        k = k + 1;
        proof {
            assert(byte_views(r@) =~= byte_views(old_r).push(cview));
            assert(byte_views(r@) =~= contents_of(t@, spans@).take(k as int));
        }
    }
    proof {
        assert(contents_of(t@, spans@).take(spans@.len() as int) =~= contents_of(t@, spans@));
    }
    r
}

/// Whether an equal content is already listed.
fn contains_bytes(list: &Vec<Vec<u8>>, c: &Vec<u8>) -> (r: bool)
    ensures
        r == byte_views(list@).contains(c@),
{
    let mut i: usize = 0;
    while i < list.len()
        invariant
            i <= list@.len(),
            forall|t: int| 0 <= t < i ==> byte_views(list@)[t] != c@,
        decreases list@.len() - i,
    {
        if bytes_eq(&list[i], c) {
            proof {
                assert(byte_views(list@)[i as int] == c@);
            }
            return true;
        }
        i = i + 1;
    }
    proof {
        assert(!byte_views(list@).contains(c@));
    }
    false
}

/// Deduplicates the contents, keeping the first occurrence of each.
fn dedup_exec(cs: &Vec<Vec<u8>>) -> (r: Vec<Vec<u8>>)
    ensures
        byte_views(r@) == dedup_contents(byte_views(cs@)),
{
    let mut r: Vec<Vec<u8>> = Vec::new();
    let mut k: usize = 0;
    while k < cs.len()
        invariant
            k <= cs@.len(),
            byte_views(r@) =~= dedup_upto(byte_views(cs@), k as int),
        decreases cs@.len() - k,
    {
        let hit = contains_bytes(&r, &cs[k]);
        if !hit {
            let ghost old_r = r@;
            let copy = clone_bytes(&cs[k]);
            r.push(copy);
            proof {
                assert(byte_views(r@) =~= byte_views(old_r).push(byte_views(cs@)[k as int]));
            }
        }
        k = k + 1;
        proof {
            assert(byte_views(r@) =~= dedup_upto(byte_views(cs@), k as int));
        }
    }
    r
}

/// Finds the first listed content equal to `c`.
fn find_first(list: &Vec<Vec<u8>>, c: &Vec<u8>) -> (r: usize)
    ensures
        r as int == first_index(byte_views(list@), c@),
{
    let ghost views = byte_views(list@);
    let mut i: usize = 0;
    proof {
        assert(views.skip(0) =~= views);
    }
    while i < list.len()
        invariant
            i <= list@.len(),
            views == byte_views(list@),
            first_index(views, c@) == i + first_index(views.skip(i as int), c@),
        decreases list@.len() - i,
    {
        if bytes_eq(&list[i], c) {
            proof {
                assert(views.skip(i as int)[0] == c@);
            }
            return i;
        }
        proof {
            assert(views.skip(i as int)[0] == views[i as int]);
            assert(views.skip(i as int).skip(1) =~= views.skip(i as int + 1));
        }
        i = i + 1;
    }
    proof {
        assert(views.skip(i as int) =~= Seq::<Seq<u8>>::empty());
    }
    i
}

/// The spans with each tag resolved to the index of the span's content in
/// the unified list.
pub open spec fn tagged_spans(t: Seq<u8>, spans: Seq<Span>, unified: Seq<Seq<u8>>) -> Seq<Span> {
    Seq::new(
        spans.len(),
        |i: int|
            Span {
                start: spans[i].start,
                end: spans[i].end,
                tag: first_index(unified, content_of(t, spans[i])) as i32,
            },
    )
}

/// Resolves every span's tag against the unified content list.
fn assign_tags(t: &[u8], spans: &Vec<Span>, unified: &Vec<Vec<u8>>) -> (r: Vec<Span>)
    requires
        spans_wf(spans@),
        spans_in(spans@, t@.len() as int),
    ensures
        r@ == tagged_spans(t@, spans@, byte_views(unified@)),
        spans_wf(r@),
        spans_in(r@, t@.len() as int),
{
    let ghost uviews = byte_views(unified@);
    let mut r: Vec<Span> = Vec::new();
    let mut k: usize = 0;
    while k < spans.len()
        invariant
            k <= spans@.len(),
            spans_wf(spans@),
            spans_in(spans@, t@.len() as int),
            uviews == byte_views(unified@),
            r@ =~= tagged_spans(t@, spans@, uviews).take(k as int),
        decreases spans@.len() - k,
    {
        let sp = spans[k];
        let c = span_content(t, &sp);
        let u = find_first(unified, &c);
        #[verifier::truncate]
        let tag: i32 = u as i32;
        r.push(Span { start: sp.start, end: sp.end, tag });
        k = k + 1;
        proof {
            assert(r@ =~= tagged_spans(t@, spans@, uviews).take(k as int));
        }
    }
    proof {
        let tagged = tagged_spans(t@, spans@, uviews);
        assert(tagged.take(spans@.len() as int) =~= tagged);
        assert forall|i: int| 0 <= i < tagged.len() implies (#[trigger] tagged[i]).start
            <= tagged[i].end && tagged[i].end < t@.len() by {
            assert(tagged[i].start == spans@[i].start && tagged[i].end == spans@[i].end);
        }
        assert forall|i: int| 0 <= i && i + 1 < tagged.len() implies (#[trigger] tagged[i]).end
            < tagged[i + 1].start by {
            assert(tagged[i].end == spans@[i].end && tagged[i + 1].start == spans@[i + 1].start);
        }
    }
    r
}

/// The unified content list of a snapshot pair: the before-snapshot
/// contents in order, then the after-snapshot contents, deduplicated by
/// exact equality with the first occurrence kept.
pub open spec fn relabel_unified(b: Seq<u8>, a: Seq<u8>) -> Seq<Seq<u8>> {
    dedup_contents(
        contents_of(unescaped(b), located_spans(unescaped(b))) + contents_of(
            unescaped(a),
            located_spans(unescaped(a)),
        ),
    )
}

/// The two relabeled texts of a snapshot pair, escapes restored.
pub open spec fn relabel_outputs(b: Seq<u8>, a: Seq<u8>) -> (Seq<u8>, Seq<u8>) {
    let tb = unescaped(b);
    let ta = unescaped(a);
    let unified = relabel_unified(b, a);
    (
        reescaped(apply_subst(tb, tagged_spans(tb, located_spans(tb), unified))),
        reescaped(apply_subst(ta, tagged_spans(ta, located_spans(ta), unified))),
    )
}

/// The emitted pair: the relabeled texts when they differ, nothing when the
/// edit became label-equivalent.
pub open spec fn relabeled_pair(b: Seq<u8>, a: Seq<u8>) -> Option<(Seq<u8>, Seq<u8>)> {
    if relabel_outputs(b, a).0 == relabel_outputs(b, a).1 {
        None
    } else {
        Some(relabel_outputs(b, a))
    }
}

/// Relabels one before/after pair; emits it only if the relabeled texts differ.
pub fn relabel_pair(before: &[u8], after: &[u8]) -> (r: Option<(Vec<u8>, Vec<u8>)>)
    ensures
        r is Some <==> relabeled_pair(before@, after@) is Some,
        r matches Some(p) ==> p.0@ == relabel_outputs(before@, after@).0 && p.1@
            == relabel_outputs(before@, after@).1,
{
    let tb = unescape_breaks(before);
    let ta = unescape_breaks(after);
    let sb = locate_code_segments(tb.as_slice());
    let sa = locate_code_segments(ta.as_slice());
    let cb = collect_contents(tb.as_slice(), &sb);
    let ca = collect_contents(ta.as_slice(), &sa);
    let mut all = cb;
    let mut ca = ca;
    all.append(&mut ca);
    proof {
        assert(byte_views(all@) =~= contents_of(tb@, sb@) + contents_of(ta@, sa@));
    }
    let unified = dedup_exec(&all);
    let tagged_b = assign_tags(tb.as_slice(), &sb, &unified);
    let tagged_a = assign_tags(ta.as_slice(), &sa, &unified);
    let rb = apply_spans(tb.as_slice(), &tagged_b);
    let ra = apply_spans(ta.as_slice(), &tagged_a);
    let eb = reescape_breaks(rb.as_slice());
    let ea = reescape_breaks(ra.as_slice());
    if bytes_eq(&eb, &ea) {
        None
    } else {
        Some((eb, ea))
    }
}

/// Relabeling a byte-identical pair yields identical relabeled forms, and
/// the pair is excluded from the output.
pub proof fn lemma_noop_edit_excluded(b: Seq<u8>, a: Seq<u8>)
    requires
        b == a,
    ensures
        relabel_outputs(b, a).0 == relabel_outputs(b, a).1,
        relabeled_pair(b, a) is None,
{
}

/// Identical span content appearing in both snapshots resolves to the same
/// tag index.
pub proof fn lemma_tag_stability(b: Seq<u8>, a: Seq<u8>, i: int, j: int)
    requires
        0 <= i < located_spans(unescaped(b)).len(),
        0 <= j < located_spans(unescaped(a)).len(),
        content_of(unescaped(b), located_spans(unescaped(b))[i]) == content_of(
            unescaped(a),
            located_spans(unescaped(a))[j],
        ),
    ensures
        tagged_spans(unescaped(b), located_spans(unescaped(b)), relabel_unified(b, a))[i].tag
            == tagged_spans(unescaped(a), located_spans(unescaped(a)), relabel_unified(b, a))[j].tag,
{
}

/// A well-formed revision line: at least seven tab-separated fields, the
/// first one an integer key.
pub open spec fn revision_line_ok(line: Seq<u8>) -> bool {
    &&& split_seq(line, 9).len() >= 7
    &&& is_int_literal(split_seq(line, 9)[0])
    &&& i64::MIN <= int_literal_value(split_seq(line, 9)[0]) <= i64::MAX
}

/// The relabeled output of one revision line, if the pair is kept.
pub open spec fn relabeled_line(line: Seq<u8>) -> Option<Seq<u8>> {
    let fs = split_seq(line, 9);
    match relabeled_pair(fs[3], fs[6]) {
        Some(p) => Some(p.0 + seq![9u8] + p.1),
        None => None,
    }
}

/// The kept output lines of the first `k` revision lines.
pub open spec fn relabel_upto(lines: Seq<Seq<u8>>, k: int) -> Seq<Seq<u8>>
    decreases k,
{
    if k <= 0 {
        Seq::empty()
    } else {
        match relabeled_line(lines[k - 1]) {
            Some(l) => relabel_upto(lines, k - 1).push(l),
            None => relabel_upto(lines, k - 1),
        }
    }
}

/// Relabels a whole revision set: each input line holds a key and the two
/// text snapshots; the output holds one tab-separated pair per kept line.
/// A line without the expected fields is a fatal condition.
pub fn relabel_code(lines: &Vec<Vec<u8>>) -> (r: Result<Vec<Vec<u8>>, PipelineError>)
    ensures
        r is Ok <==> forall|k: int| 0 <= k < lines@.len() ==> revision_line_ok(
            #[trigger] byte_views(lines@)[k],
        ),
        r matches Ok(out) ==> byte_views(out@) == relabel_upto(
            byte_views(lines@),
            lines@.len() as int,
        ),
        r matches Err(e) ==> e matches PipelineError::MalformedLine { line } && 0 <= line
            < lines@.len() && !revision_line_ok(byte_views(lines@)[line as int]) && (forall|t: int|
            0 <= t < line ==> revision_line_ok(#[trigger] byte_views(lines@)[t])),
{
    let ghost lviews = byte_views(lines@);
    let mut out: Vec<Vec<u8>> = Vec::new();
    let mut k: usize = 0;
    while k < lines.len()
        invariant
            k <= lines@.len(),
            lviews == byte_views(lines@),
            forall|t: int| 0 <= t < k ==> revision_line_ok(#[trigger] lviews[t]),
            byte_views(out@) =~= relabel_upto(lviews, k as int),
        decreases lines@.len() - k,
    {
        let fields = split_bytes(lines[k].as_slice(), 9);
        proof {
            assert(byte_views(fields@) == split_seq(lviews[k as int], 9));
        }
        if fields.len() < 7 {
            return Err(PipelineError::MalformedLine { line: k });
        }
        let key = parse_i64(fields[0].as_slice());
        if key.is_none() {
            proof {
                assert(byte_views(fields@)[0] == fields@[0]@);
            }
            return Err(PipelineError::MalformedLine { line: k });
        }
        proof {
            assert(byte_views(fields@)[0] == fields@[0]@);
            assert(byte_views(fields@)[3] == fields@[3]@);
            assert(byte_views(fields@)[6] == fields@[6]@);
            assert(revision_line_ok(lviews[k as int]));
        }
        match relabel_pair(fields[3].as_slice(), fields[6].as_slice()) {
            Some(p) => {
                let (eb, ea) = p;
                let mut line: Vec<u8> = eb;
                line.push(9);
                let mut ea = ea;
                line.append(&mut ea);
                let ghost old_out = out@;
                proof {
                    assert(line@ =~= relabel_outputs(
                        byte_views(fields@)[3],
                        byte_views(fields@)[6],
                    ).0 + seq![9u8] + relabel_outputs(
                        byte_views(fields@)[3],
                        byte_views(fields@)[6],
                    ).1);
                }
                out.push(line);
                proof {
                    assert(byte_views(out@) =~= byte_views(old_out).push(
                        relabeled_line(lviews[k as int]).unwrap(),
                    ));
                }
            }
            None => {
            }
        }
        k = k + 1;
        proof {
            assert(byte_views(out@) =~= relabel_upto(lviews, k as int));
        }
    }
    Ok(out)
}

} // verus!
