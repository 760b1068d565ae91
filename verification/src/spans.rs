//! Detection of non-prose (code) regions inside free text.
//!
//! Three conventions are recognised, in precedence order: indent blocks
//! (runs of lines starting with four spaces), fenced blocks (line-start
//! triple-backtick pairs) and inline single-backtick spans.  The text is
//! scanned as raw bytes, since every marker is single-byte ASCII.

use vstd::prelude::*;

use crate::textops::push_range;

verus! {

/// A detected non-prose region: inclusive byte positions `[start, end]` of one
/// text buffer, plus the unified-content tag assigned by the relabeler
/// (`-1` until a tag is assigned).
#[derive(Clone, Copy, PartialEq, Eq, Structural, Debug)]
pub struct Span {
    pub start: usize,
    pub end: usize,
    pub tag: i32,
}

/// Spans are in left-to-right order, each non-empty, none overlapping:
/// every span ends strictly before the next one starts.
pub open spec fn spans_wf(sp: Seq<Span>) -> bool {
    &&& forall|k: int| 0 <= k < sp.len() ==> (#[trigger] sp[k]).start <= sp[k].end
    &&& forall|k: int| 0 <= k && k + 1 < sp.len() ==> (#[trigger] sp[k]).end < sp[k + 1].start
}

/// Every span lies inside a buffer of length `n`.
pub open spec fn spans_in(sp: Seq<Span>, n: int) -> bool {
    forall|k: int| 0 <= k < sp.len() ==> (#[trigger] sp[k]).end < n
}

/// State of the indent-block automaton: the start of the run being
/// collected, whether a run is open, and the spans emitted so far.
pub ghost struct IndentSt {
    pub mark: int,
    pub started: bool,
    pub spans: Seq<Span>,
}

pub open spec fn indent_init() -> IndentSt {
    IndentSt { mark: 0, started: false, spans: Seq::empty() }
}

/// Position `i` holds a line break followed by at least four spaces.
pub open spec fn four_spaces_after(s: Seq<u8>, i: int) -> bool {
    &&& i + 4 < s.len()
    &&& s[i + 1] == 32u8
    &&& s[i + 2] == 32u8
    &&& s[i + 3] == 32u8
    &&& s[i + 4] == 32u8
}

/// One step of the indent-block automaton at position `i`: a line break
/// opening an indented line extends or opens a run, any other line break
/// closes an open run one byte short of the break.
pub open spec fn indent_step(s: Seq<u8>, i: int, st: IndentSt) -> IndentSt {
    if s[i] == 10u8 {
        if four_spaces_after(s, i) {
            if !st.started {
                IndentSt { mark: i + 1, started: true, spans: st.spans }
            } else {
                st
            }
        } else {
            if st.started {
                IndentSt {
                    mark: st.mark,
                    started: false,
                    spans: st.spans.push(
                        Span { start: st.mark as usize, end: (i - 1) as usize, tag: -1i32 },
                    ),
                }
            } else {
                st
            }
        }
    } else {
        st
    }
}

/// The automaton state after scanning the first `n` bytes.
pub open spec fn indent_run(s: Seq<u8>, n: int) -> IndentSt
    decreases n,
{
    if n <= 0 {
        indent_init()
    } else {
        indent_step(s, n - 1, indent_run(s, n - 1))
    }
}

/// The indent-block spans of a whole buffer.
pub open spec fn indent_spans(s: Seq<u8>) -> Seq<Span> {
    indent_run(s, s.len() as int).spans
}

/// Invariant carried by the indent automaton.
pub open spec fn indent_inv(s: Seq<u8>, n: int, st: IndentSt) -> bool {
    &&& spans_wf(st.spans)
    &&& forall|k: int|
        0 <= k < st.spans.len() ==> 1 <= (#[trigger] st.spans[k]).start && st.spans[k].end + 2
            <= n
    &&& st.started ==> {
        &&& 1 <= st.mark <= n
        &&& st.mark + 3 < s.len()
        &&& s[st.mark] == 32u8
        &&& s[st.mark + 1] == 32u8
        &&& s[st.mark + 2] == 32u8
        &&& s[st.mark + 3] == 32u8
        &&& (st.spans.len() > 0 ==> st.spans.last().end + 2 <= st.mark)
    }
}

pub proof fn lemma_indent_run_wf(s: Seq<u8>, n: int)
    requires
        0 <= n <= s.len(),
        s.len() <= usize::MAX,
    ensures
        indent_inv(s, n, indent_run(s, n)),
    decreases n,
{
    if n > 0 {
        lemma_indent_run_wf(s, n - 1);
        let st = indent_run(s, n - 1);
        let st2 = indent_step(s, n - 1, st);
        let i = n - 1;
        if s[i] == 10u8 {
            if four_spaces_after(s, i) {
                if !st.started {
                    assert(indent_inv(s, n, st2));
                }
            } else {
                if st.started {
                    // The open run's mark points at a space, the break is at `i`,
                    // so the run is non-empty and ends before the break.
                    assert(st.mark != i);
                    assert(st.mark < i);
                    let sp = Span { start: st.mark as usize, end: (i - 1) as usize, tag: -1i32 };
                    assert(sp.start <= sp.end);
                    assert(st2.spans == st.spans.push(sp));
                    assert forall|k: int| 0 <= k && k + 1 < st2.spans.len() implies (#[trigger] st2
                        .spans[k]).end < st2.spans[k + 1].start by {
                        if k + 1 < st.spans.len() {
                            assert(st2.spans[k] == st.spans[k]);
                            assert(st2.spans[k + 1] == st.spans[k + 1]);
                            assert(st.spans[k].end < st.spans[k + 1].start);
                        } else {
                            assert(k == st.spans.len() - 1);
                            assert(st2.spans[k] == st.spans[k]);
                            assert(st.spans.last() == st.spans[k]);
                            assert(st2.spans[k + 1] == sp);
                        }
                    }
                    assert(indent_inv(s, n, st2));
                }
            }
        }
    }
}

/// First pass: maximal runs of consecutive lines that each begin with at
/// least four spaces, each trimmed by one byte at both boundaries.
pub fn indent_pass(s: &[u8]) -> (r: Vec<Span>)
    ensures
        r@ == indent_spans(s@),
{
    let n = s.len();
    let mut spans: Vec<Span> = Vec::new();
    let mut mark: usize = 0;
    let mut did_start = false;
    let mut i: usize = 0;
    while i < n
        invariant
            0 <= i <= n,
            n == s@.len(),
            spans@ == indent_run(s@, i as int).spans,
            did_start == indent_run(s@, i as int).started,
            did_start ==> mark == indent_run(s@, i as int).mark,
        decreases n - i,
    {
        let ghost st = indent_run(s@, i as int);
        proof {
            assert(indent_run(s@, i + 1) == indent_step(s@, i as int, st));
        }
        if s[i] == 10 {
            let deep = n >= 5 && i < n - 4 && s[i + 1] == 32 && s[i + 2] == 32 && s[i + 3] == 32
                && s[i + 4] == 32;
            proof {
                assert(deep == four_spaces_after(s@, i as int));
            }
            if deep {
                if !did_start {
                    did_start = true;
                    mark = i + 1;
                }
            } else {
                if did_start {
                    did_start = false;
                    spans.push(Span { start: mark, end: i - 1, tag: -1 });
                }
            }
        }
        i = i + 1;
    }
    spans
}


/// State of the backtick automaton: the start of the open span, whether a
/// span is open, whether it is a fenced (triple-backtick) span, how many
/// trailing fence bytes remain to be consumed, the index of the current
/// indent-block span, and the spans emitted so far.
pub ghost struct TickSt {
    pub mark: int,
    pub started: bool,
    pub triple: bool,
    pub trailing: int,
    pub j: int,
    pub spans: Seq<Span>,
}

pub open spec fn tick_init() -> TickSt {
    TickSt { mark: 0, started: false, triple: false, trailing: 0, j: 0, spans: Seq::empty() }
}

/// Position `i` starts a line-opening triple-backtick marker.
pub open spec fn fence_at(s: Seq<u8>, i: int) -> bool {
    &&& i > 0
    &&& s[i - 1] == 10u8
    &&& i + 2 < s.len()
    &&& s[i] == 96u8
    &&& s[i + 1] == 96u8
    &&& s[i + 2] == 96u8
}

/// Position `i` holds a backtick that no backslash escapes.
pub open spec fn plain_tick_at(s: Seq<u8>, i: int) -> bool {
    s[i] == 96u8 && (i == 0 || s[i - 1] != 92u8)
}

/// One step of the backtick automaton at position `i`, skipping positions
/// claimed by the indent-block spans `a`.
pub open spec fn tick_step(s: Seq<u8>, a: Seq<Span>, i: int, st: TickSt) -> TickSt {
    let j = if st.j < a.len() && i > a[st.j].end { st.j + 1 } else { st.j };
    if j < a.len() && a[j].start <= i <= a[j].end {
        TickSt { mark: st.mark, started: st.started, triple: st.triple, trailing: st.trailing, j: j, spans: st.spans }
    } else if st.trailing > 0 {
        TickSt { mark: st.mark, started: st.started, triple: st.triple, trailing: st.trailing - 1, j: j, spans: st.spans }
    } else if fence_at(s, i) {
        if st.triple && st.started {
            TickSt {
                mark: st.mark,
                started: false,
                triple: false,
                trailing: 2,
                j: j,
                spans: st.spans.push(Span { start: st.mark as usize, end: (i + 2) as usize, tag: -1i32 }),
            }
        } else if st.started {
            TickSt {
                mark: st.mark,
                started: false,
                triple: st.triple,
                trailing: 0,
                j: j,
                spans: st.spans.push(Span { start: st.mark as usize, end: i as usize, tag: -1i32 }),
            }
        } else {
            TickSt { mark: i, started: true, triple: true, trailing: 0, j: j, spans: st.spans }
        }
    } else if plain_tick_at(s, i) && !st.triple {
        if !st.started {
            TickSt { mark: i, started: true, triple: false, trailing: 0, j: j, spans: st.spans }
        } else {
            TickSt {
                mark: st.mark,
                started: false,
                triple: false,
                trailing: 0,
                j: j,
                spans: st.spans.push(Span { start: st.mark as usize, end: i as usize, tag: -1i32 }),
            }
        }
    } else {
        TickSt { mark: st.mark, started: st.started, triple: st.triple, trailing: st.trailing, j: j, spans: st.spans }
    }
}

/// The backtick automaton state after scanning the first `n` bytes.
pub open spec fn tick_run(s: Seq<u8>, a: Seq<Span>, n: int) -> TickSt
    decreases n,
{
    if n <= 0 {
        tick_init()
    } else {
        tick_step(s, a, n - 1, tick_run(s, a, n - 1))
    }
}

/// The fenced and inline spans of a whole buffer, given its indent spans.
pub open spec fn tick_spans(s: Seq<u8>, a: Seq<Span>) -> Seq<Span> {
    tick_run(s, a, s.len() as int).spans
}

/// Bounds carried by the backtick automaton.
pub open spec fn tick_inv(s: Seq<u8>, n: int, st: TickSt) -> bool {
    &&& st.started ==> 0 <= st.mark < n
    &&& forall|k: int|
        0 <= k < st.spans.len() ==> (#[trigger] st.spans[k]).start <= st.spans[k].end
            && st.spans[k].end < s.len()
}

pub proof fn lemma_tick_run_bounds(s: Seq<u8>, a: Seq<Span>, n: int)
    requires
        0 <= n <= s.len(),
        s.len() <= usize::MAX,
    ensures
        tick_inv(s, n, tick_run(s, a, n)),
    decreases n,
{
    if n > 0 {
        lemma_tick_run_bounds(s, a, n - 1);
        let st = tick_run(s, a, n - 1);
        let st2 = tick_step(s, a, n - 1, st);
        assert(tick_inv(s, n, st2));
    }
}

/// Second pass: fenced blocks and inline spans over the bytes the indent
/// pass left unclaimed.
pub fn tick_pass(s: &[u8], a: &Vec<Span>) -> (r: Vec<Span>)
    ensures
        r@ == tick_spans(s@, a@),
{
    let n = s.len();
    let mut spans: Vec<Span> = Vec::new();
    let mut mark: usize = 0;
    let mut did_start = false;
    let mut triple = false;
    let mut trailing: u8 = 0;
    let mut j: usize = 0;
    let mut i: usize = 0;
    while i < n
        invariant
            0 <= i <= n,
            n == s@.len(),
            j <= a@.len(),
            trailing <= 2,
            spans@ == tick_run(s@, a@, i as int).spans,
            did_start == tick_run(s@, a@, i as int).started,
            triple == tick_run(s@, a@, i as int).triple,
            trailing as int == tick_run(s@, a@, i as int).trailing,
            j as int == tick_run(s@, a@, i as int).j,
            did_start ==> mark == tick_run(s@, a@, i as int).mark,
        decreases n - i,
    {
        let ghost st = tick_run(s@, a@, i as int);
        proof {
            assert(tick_run(s@, a@, i + 1) == tick_step(s@, a@, i as int, st));
        }
        if j < a.len() && i > a[j].end {
            j = j + 1;
        }
        if j < a.len() && a[j].start <= i && i <= a[j].end {
            i = i + 1;
            continue;
        }
        if trailing > 0 {
            trailing = trailing - 1;
            i = i + 1;
            continue;
        }
        let fence = i > 0 && s[i - 1] == 10 && n >= 3 && i < n - 2 && s[i] == 96 && s[i + 1] == 96
            && s[i + 2] == 96;
        proof {
            assert(fence == fence_at(s@, i as int));
        }
        if fence {
            if triple && did_start {
                triple = false;
                did_start = false;
                spans.push(Span { start: mark, end: i + 2, tag: -1 });
                trailing = 2;
            } else if did_start {
                did_start = false;
                spans.push(Span { start: mark, end: i, tag: -1 });
            } else {
                triple = true;
                did_start = true;
                mark = i;
            }
            i = i + 1;
            continue;
        }
        if s[i] == 96 && (i == 0 || s[i - 1] != 92) {
            if !triple {
                if !did_start {
                    mark = i;
                    did_start = true;
                } else {
                    did_start = false;
                    spans.push(Span { start: mark, end: i, tag: -1 });
                }
            }
        }
        i = i + 1;
    }
    spans
}


/// Inserts `sp` into an ordered non-overlapping list: spans wholly before it
/// stay in place; if `sp` overlaps a listed span, the listed span wins and
/// `sp` is discarded.
pub open spec fn span_insert(list: Seq<Span>, sp: Span) -> Seq<Span>
    decreases list.len(),
{
    if list.len() == 0 {
        seq![sp]
    } else if list[0].end < sp.start {
        seq![list[0]] + span_insert(list.skip(1), sp)
    } else if sp.end < list[0].start {
        seq![sp] + list
    } else {
        list
    }
}

pub proof fn lemma_span_insert_wf(list: Seq<Span>, sp: Span, n: int)
    requires
        spans_wf(list),
        spans_in(list, n),
        sp.start <= sp.end,
        sp.end < n,
    ensures
        spans_wf(span_insert(list, sp)),
        spans_in(span_insert(list, sp), n),
        span_insert(list, sp).len() >= 1,
        span_insert(list, sp)[0].start >= if list.len() == 0 {
            sp.start as int
        } else if list[0].start <= sp.start {
            list[0].start as int
        } else {
            sp.start as int
        },
    decreases list.len(),
{
    let r = span_insert(list, sp);
    if list.len() == 0 {
        assert(spans_wf(r));
    } else if list[0].end < sp.start {
        let rest = list.skip(1);
        assert(spans_wf(rest)) by {
            assert(forall|k: int| 0 <= k < rest.len() ==> rest[k] == list[k + 1]);
        }
        assert(spans_in(rest, n)) by {
            assert(forall|k: int| 0 <= k < rest.len() ==> rest[k] == list[k + 1]);
        }
        lemma_span_insert_wf(rest, sp, n);
        let tail = span_insert(rest, sp);
        assert(r == seq![list[0]] + tail);
        assert(r[0] == list[0]);
        // The head precedes whatever now starts the inserted tail.
        assert(list[0].end < tail[0].start) by {
            if rest.len() == 0 {
                assert(tail[0] == sp);
            } else {
                assert(rest[0] == list[1]);
                assert(list[0].end < list[1].start);
            }
        }
        assert forall|k: int| 0 <= k < r.len() implies (#[trigger] r[k]).start <= r[k].end
            && r[k].end < n by {
            if k > 0 {
                assert(r[k] == tail[k - 1]);
            }
        }
        assert forall|k: int| 0 <= k && k + 1 < r.len() implies (#[trigger] r[k]).end < r[k
            + 1].start by {
            if k == 0 {
                assert(r[1] == tail[0]);
            } else {
                assert(r[k] == tail[k - 1]);
                assert(r[k + 1] == tail[k]);
            }
        }
    } else if sp.end < list[0].start {
        assert(r == seq![sp] + list);
        assert forall|k: int| 0 <= k < r.len() implies (#[trigger] r[k]).start <= r[k].end
            && r[k].end < n by {
            if k > 0 {
                assert(r[k] == list[k - 1]);
            }
        }
        assert forall|k: int| 0 <= k && k + 1 < r.len() implies (#[trigger] r[k]).end < r[k
            + 1].start by {
            if k == 0 {
                assert(r[1] == list[0]);
            } else {
                assert(r[k] == list[k - 1]);
                assert(r[k + 1] == list[k]);
            }
        }
    } else {
        assert(r == list);
    }
}

/// The ordered union of `base` and the first `k` spans of `add`.
pub open spec fn spans_merge_upto(base: Seq<Span>, add: Seq<Span>, k: int) -> Seq<Span>
    decreases k,
{
    if k <= 0 {
        base
    } else {
        span_insert(spans_merge_upto(base, add, k - 1), add[k - 1])
    }
}

/// The ordered union of two span lists; on overlap the `base` span wins.
pub open spec fn spans_merge(base: Seq<Span>, add: Seq<Span>) -> Seq<Span> {
    spans_merge_upto(base, add, add.len() as int)
}

pub proof fn lemma_spans_merge_wf(base: Seq<Span>, add: Seq<Span>, k: int, n: int)
    requires
        spans_wf(base),
        spans_in(base, n),
        0 <= k <= add.len(),
        forall|t: int|
            0 <= t < add.len() ==> (#[trigger] add[t]).start <= add[t].end && add[t].end < n,
    ensures
        spans_wf(spans_merge_upto(base, add, k)),
        spans_in(spans_merge_upto(base, add, k), n),
    decreases k,
{
    if k > 0 {
        lemma_spans_merge_wf(base, add, k - 1, n);
        lemma_span_insert_wf(spans_merge_upto(base, add, k - 1), add[k - 1], n);
    }
}

/// Inserts one span into an ordered list, discarding it on overlap.
fn insert_span(list: &Vec<Span>, sp: Span) -> (r: Vec<Span>)
    ensures
        r@ == span_insert(list@, sp),
{
    let n = list.len();
    let mut out: Vec<Span> = Vec::new();
    let mut i: usize = 0;
    proof {
        assert(list@.skip(0) =~= list@);
        assert(out@ =~= list@.take(0));
        assert(out@ + span_insert(list@, sp) =~= span_insert(list@, sp));
    }
    while i < n && list[i].end < sp.start
        invariant
            i <= n,
            n == list@.len(),
            out@ =~= list@.take(i as int),
            span_insert(list@, sp) =~= out@ + span_insert(list@.skip(i as int), sp),
        decreases n - i,
    {
        proof {
            let pre = list@.skip(i as int);
            assert(pre[0] == list@[i as int]);
            assert(pre.skip(1) =~= list@.skip(i as int + 1));
            assert(span_insert(pre, sp) == seq![pre[0]] + span_insert(pre.skip(1), sp));
        }
        out.push(list[i]);
        i = i + 1;
        proof {
            assert(out@ =~= list@.take(i as int));
            assert(span_insert(list@, sp) =~= out@ + span_insert(list@.skip(i as int), sp));
        }
    }
    let ghost split = i as int;
    if i < n && !(sp.end < list[i].start) {
        // `sp` overlaps the span at `i`: it is discarded and the list kept.
        proof {
            let pre = list@.skip(split);
            assert(pre[0] == list@[split]);
            assert(span_insert(pre, sp) == pre);
        }
        while i < n
            invariant
                split <= i as int <= n,
                n == list@.len(),
                out@ =~= list@.take(i as int),
            decreases n - i,
        {
            out.push(list[i]);
            i = i + 1;
            proof {
                assert(out@ =~= list@.take(i as int));
            }
        }
        proof {
            assert(list@.take(n as int) =~= list@);
            assert(list@.take(split) + list@.skip(split) =~= list@);
        }
        return out;
    }
    proof {
        let pre = list@.skip(split);
        if split < n {
            assert(pre[0] == list@[split]);
            assert(span_insert(pre, sp) == seq![sp] + pre);
        } else {
            assert(pre =~= Seq::<Span>::empty());
            assert(span_insert(pre, sp) == seq![sp]);
            assert(span_insert(pre, sp) =~= seq![sp] + pre);
        }
    }
    out.push(sp);
    proof {
        assert(out@ =~= list@.take(split) + seq![sp] + list@.subrange(split, split));
    }
    while i < n
        invariant
            0 <= split <= i as int <= n,
            n == list@.len(),
            out@ =~= list@.take(split) + seq![sp] + list@.subrange(split, i as int),
        decreases n - i,
    {
        out.push(list[i]);
        i = i + 1;
        proof {
            assert(out@ =~= list@.take(split) + seq![sp] + list@.subrange(split, i as int));
        }
    }
    proof {
        assert(list@.subrange(split, n as int) =~= list@.skip(split));
        assert(out@ =~= list@.take(split) + (seq![sp] + list@.skip(split)));
    }
    out
}

/// The non-prose spans of a whole buffer: the indent-block spans joined with
/// the fenced and inline spans, in left-to-right order; a backtick span that
/// would overlap an indent block is discarded.
pub open spec fn located_spans(s: Seq<u8>) -> Seq<Span> {
    spans_merge(indent_spans(s), tick_spans(s, indent_spans(s)))
}

/// Finds every non-prose span of `s`, in left-to-right, non-overlapping order.
pub fn locate_code_segments(s: &[u8]) -> (r: Vec<Span>)
    ensures
        r@ == located_spans(s@),
        spans_wf(r@),
        spans_in(r@, s@.len() as int),
{
    let n = s.len();
    let a = indent_pass(s);
    let b = tick_pass(s, &a);
    proof {
        assert(n == s@.len());
        lemma_indent_run_wf(s@, s@.len() as int);
        lemma_tick_run_bounds(s@, a@, s@.len() as int);
        lemma_spans_merge_wf(a@, b@, b@.len() as int, s@.len() as int);
    }
    let mut out = a;
    let mut k: usize = 0;
    while k < b.len()
        invariant
            k <= b@.len(),
            out@ == spans_merge_upto(indent_spans(s@), b@, k as int),
            b@ == tick_spans(s@, indent_spans(s@)),
        decreases b@.len() - k,
    {
        out = insert_span(&out, b[k]);
        k = k + 1;
    }
    out
}

/// The placeholder token that substitutes a span whose unified tag is `k`.
pub open spec fn placeholder(k: int) -> Seq<u8> {
    seq![60u8, 78u8] + crate::numtext::int_repr(k) + seq![62u8]
}

/// The substituted text from span `k` on, `prev` being the first byte the
/// preceding spans have not consumed.
pub open spec fn apply_rest(t: Seq<u8>, spans: Seq<Span>, k: int, prev: int) -> Seq<u8>
    decreases spans.len() - k,
{
    if k < 0 || k >= spans.len() {
        t.skip(prev)
    } else {
        let sp = spans[k];
        (if sp.start > prev {
            t.subrange(prev, sp.start as int)
        } else {
            Seq::empty()
        }) + placeholder(sp.tag as int) + apply_rest(t, spans, k + 1, sp.end + 1)
    }
}

/// The text with every span replaced by the placeholder of its unified tag,
/// unclaimed text passed through unchanged.
pub open spec fn apply_subst(t: Seq<u8>, spans: Seq<Span>) -> Seq<u8> {
    apply_rest(t, spans, 0, 0)
}

/// Appends the placeholder token of unified tag `k`.
fn push_placeholder(out: &mut Vec<u8>, k: i32)
    ensures
        final(out)@ == old(out)@ + placeholder(k as int),
{
    out.push(60);
    out.push(78);
    let mut digits = crate::numtext::int_bytes(k as i64);
    out.append(&mut digits);
    out.push(62);
    proof {
        assert(out@ =~= old(out)@ + placeholder(k as int));
    }
}

/// Substitutes every span of `t`, left to right, with a placeholder carrying
/// its index; unclaimed text is copied through unchanged.
pub fn apply_spans(t: &[u8], spans: &Vec<Span>) -> (r: Vec<u8>)
    requires
        spans_wf(spans@),
        spans_in(spans@, t@.len() as int),
    ensures
        r@ == apply_subst(t@, spans@),
{
    let n = t.len();
    let mut out: Vec<u8> = Vec::new();
    let mut prev: usize = 0;
    let mut k: usize = 0;
    proof {
        assert(out@ + apply_rest(t@, spans@, 0, 0) =~= apply_subst(t@, spans@));
    }
    while k < spans.len()
        invariant
            n == t@.len(),
            k <= spans@.len(),
            spans_wf(spans@),
            spans_in(spans@, t@.len() as int),
            if k == 0 {
                prev == 0
            } else {
                prev == spans@[k as int - 1].end + 1
            },
            prev <= n,
            apply_subst(t@, spans@) =~= out@ + apply_rest(t@, spans@, k as int, prev as int),
        decreases spans@.len() - k,
    {
        let ghost pre_out = out@;
        let sp = spans[k];
        proof {
            if k > 0 {
                assert(spans@[k as int - 1].end < spans@[k as int].start);
            }
            assert(prev <= sp.start);
            assert(sp.end < n);
        }
        if sp.start > prev {
            push_range(&mut out, t, prev, sp.start);
        }
        push_placeholder(&mut out, sp.tag);
        proof {
            let gap: Seq<u8> = if sp.start > prev {
                t@.subrange(prev as int, sp.start as int)
            } else {
                Seq::<u8>::empty()
            };
            assert(out@ =~= pre_out + gap + placeholder(sp.tag as int));
            assert(apply_rest(t@, spans@, k as int, prev as int) == gap + placeholder(
                sp.tag as int,
            ) + apply_rest(t@, spans@, k as int + 1, sp.end + 1));
        }
        prev = sp.end + 1;
        k = k + 1;
        proof {
            assert(apply_subst(t@, spans@) =~= out@ + apply_rest(
                t@,
                spans@,
                k as int,
                prev as int,
            ));
        }
    }
    proof {
        assert(apply_rest(t@, spans@, k as int, prev as int) == t@.skip(prev as int));
    }
    push_range(&mut out, t, prev, n);
    proof {
        assert(t@.subrange(prev as int, n as int) =~= t@.skip(prev as int));
        assert(out@ =~= apply_subst(t@, spans@));
    }
    out
}

} // verus!
