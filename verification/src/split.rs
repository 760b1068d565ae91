//! The dataset split stage: denies joined pairs that look like code or run
//! too long, computes the partition sizes from a requested integer ratio —
//! eval and test first by proportional rounding, train absorbing the
//! remainder — and copies each selected pair into its partition.

use vstd::prelude::*;

use crate::errors::PipelineError;
use crate::index::KeyMap;
use crate::join::parseable_i64;
use crate::numtext::int_literal_value;
use crate::numtext::parse_i64;
use crate::relabel::break_escape;
use crate::textops::byte_views;
use crate::textops::clone_bytes;
use crate::textops::prefix_match;
use crate::textops::split_bytes;
use crate::textops::split_seq;
use crate::timestamp::is_timestamp_text;
use crate::timestamp::parse_timestamp;
use crate::timestamp::timestamp_of;
use crate::timestamp::Timestamp;
use crate::PostId;

verus! {

/// Whether a character is alphabetic.  The result depends on the character
/// alone.
pub uninterp spec fn alphabetic(c: char) -> bool;

/// Whether a character is numeric.  The result depends on the character alone.
pub uninterp spec fn numeric(c: char) -> bool;

/// Whether a character is white space.  The result depends on the character
/// alone.
pub uninterp spec fn whitespace(c: char) -> bool;

/// Relies on char::is_alphabetic.
pub assume_specification[ char::is_alphabetic ](c: char) -> (r: bool)
    ensures
        r == alphabetic(c),
;

/// Relies on char::is_numeric.
pub assume_specification[ char::is_numeric ](c: char) -> (r: bool)
    ensures
        r == numeric(c),
;

/// Relies on char::is_whitespace.
pub assume_specification[ char::is_whitespace ](c: char) -> (r: bool)
    ensures
        r == whitespace(c),
;

/// Relies on std::str::from_utf8 and str::chars: the characters a line's
/// UTF-8 bytes decode to; an ill-encoded line yields nothing.
#[verifier::external_body]
fn utf8_chars(b: &[u8]) -> (r: Option<Vec<char>>)
    ensures
        r is Some <==> vstd::utf8::valid_utf8(b@),
        r matches Some(v) ==> v@ == vstd::utf8::decode_utf8(b@),
{
    std::str::from_utf8(b).ok().map(|s| s.chars().collect())
}

/// An ASCII punctuation character.
pub open spec fn ascii_punct(c: char) -> bool {
    ||| 33 <= (c as u32) <= 47
    ||| 58 <= (c as u32) <= 64
    ||| 91 <= (c as u32) <= 96
    ||| 123 <= (c as u32) <= 126
}

fn is_ascii_punct(c: char) -> (r: bool)
    ensures
        r == ascii_punct(c),
{
    let u = c as u32;
    (33 <= u && u <= 47) || (58 <= u && u <= 64) || (91 <= u && u <= 96) || (123 <= u && u <= 126)
}

/// State of the token estimator: the running tally and the previous
/// character of the current word (a line break standing for none).
pub ghost struct TokenSt {
    pub count: int,
    pub prev: char,
}

pub open spec fn token_init() -> TokenSt {
    TokenSt { count: 1, prev: '\n' }
}

/// One character of the token estimate: white space ends the word; inside a
/// word, punctuation counts, and so does entering letters or digits from a
/// different class.
pub open spec fn token_step(c: char, st: TokenSt) -> TokenSt {
    if whitespace(c) {
        TokenSt { count: st.count, prev: '\n' }
    } else {
        TokenSt {
            count: st.count + (if ascii_punct(c) {
                1int
            } else {
                0int
            }) + (if alphabetic(c) && st.prev != '\n' && !alphabetic(st.prev) {
                1int
            } else {
                0int
            }) + (if numeric(c) && st.prev != '\n' && !numeric(st.prev) {
                1int
            } else {
                0int
            }),
            prev: c,
        }
    }
}

pub open spec fn token_run(s: Seq<char>, n: int) -> TokenSt
    decreases n,
{
    if n <= 0 {
        token_init()
    } else {
        token_step(s[n - 1], token_run(s, n - 1))
    }
}

/// The rough token tally of a text.
pub open spec fn token_estimate(s: Seq<char>) -> int {
    token_run(s, s.len() as int).count
}

/// Estimates how many tokens a text would split into.
pub fn estimate_token_count(chars: &Vec<char>) -> (r: u128)
    ensures
        r == token_estimate(chars@),
{
    let n = chars.len();
    let mut count: u128 = 1;
    let mut prev: char = '\n';
    let mut i: usize = 0;
    while i < n
        invariant
            i <= n,
            n == chars@.len(),
            count == token_run(chars@, i as int).count,
            prev == token_run(chars@, i as int).prev,
            count <= 1 + 3 * i,
        decreases n - i,
    {
        let c = chars[i];
        if c.is_whitespace() {
            prev = '\n';
        } else {
            if is_ascii_punct(c) {
                count = count + 1;
            }
            if c.is_alphabetic() && prev != '\n' && !prev.is_alphabetic() {
                count = count + 1;
            }
            if c.is_numeric() && prev != '\n' && !prev.is_numeric() {
                count = count + 1;
            }
            prev = c;
        }
        i = i + 1;
    }
    count
}

/// `pat` occurs somewhere in `s`.
pub open spec fn contains_seq(s: Seq<u8>, pat: Seq<u8>) -> bool {
    exists|i: int| 0 <= i && i + pat.len() <= s.len() && #[trigger] s.subrange(i, i + pat.len() as int) == pat
}

fn find_seq(s: &[u8], pat: &[u8]) -> (r: bool)
    ensures
        r == contains_seq(s@, pat@),
{
    let n = s.len();
    if pat.len() == 0 {
        proof {
            assert(contains_seq(s@, pat@)) by {
                assert(0 + pat@.len() <= s@.len());
                assert(s@.subrange(0, 0 + pat@.len() as int) =~= pat@);
            }
        }
        return true;
    }
    let mut i: usize = 0;
    while i < n
        invariant
            i <= n,
            n == s@.len(),
            forall|t: int|
                0 <= t < i ==> !(t + pat@.len() <= s@.len() && #[trigger] s@.subrange(
                    t,
                    t + pat@.len() as int,
                ) == pat@),
        decreases n - i,
    {
        if prefix_match(s, i, pat) {
            return true;
        }
        i = i + 1;
    }
    proof {
        if contains_seq(s@, pat@) {
            let w = choose|w: int|
                0 <= w && w + pat@.len() <= s@.len() && #[trigger] s@.subrange(
                    w,
                    w + pat@.len() as int,
                ) == pat@;
            if pat@.len() > 0 {
                assert(w < n);
            } else {
                assert(s@.subrange(0, 0) =~= pat@);
            }
        }
    }
    false
}

/// The marker of an escaped indent block: the line-break escape followed by
/// four spaces.
pub open spec fn escaped_indent_marker() -> Seq<u8> {
    break_escape() + seq![32u8, 32u8, 32u8, 32u8]
}

fn escaped_indent_marker_bytes() -> (r: Vec<u8>)
    ensures
        r@ == escaped_indent_marker(),
{
    let mut r: Vec<u8> = Vec::new();
    r.push(38);
    r.push(35);
    r.push(120);
    r.push(68);
    r.push(59);
    r.push(38);
    r.push(35);
    r.push(120);
    r.push(65);
    r.push(59);
    r.push(32);
    r.push(32);
    r.push(32);
    r.push(32);
    proof {
        assert(r@ =~= escaped_indent_marker());
    }
    r
}

/// How many bytes of `s` hold `b`.
pub open spec fn count_byte(s: Seq<u8>, b: u8) -> int
    decreases s.len(),
{
    if s.len() == 0 {
        0
    } else {
        (if s[0] == b {
            1int
        } else {
            0int
        }) + count_byte(s.skip(1), b)
    }
}

/// How many backslash-escaped backticks `s` holds, scanning left to right
/// without rescanning.
pub open spec fn count_escaped_ticks(s: Seq<u8>) -> int
    decreases s.len(),
{
    if s.len() < 2 {
        0
    } else if s[0] == 92u8 && s[1] == 96u8 {
        1 + count_escaped_ticks(s.skip(2))
    } else {
        count_escaped_ticks(s.skip(1))
    }
}

/// The line looks like it carries code: an escaped indent block, or more
/// backticks than backslash-escaped ones.
pub open spec fn has_code_hint(s: Seq<u8>) -> bool {
    contains_seq(s, escaped_indent_marker()) || count_byte(s, 96) > count_escaped_ticks(s)
}

/// Whether a joined-pair line looks like it carries code.
pub fn scan_for_code(s: &[u8]) -> (r: bool)
    ensures
        r == has_code_hint(s@),
{
    let marker = escaped_indent_marker_bytes();
    if find_seq(s, marker.as_slice()) {
        return true;
    }
    let n = s.len();
    let mut ticks: u64 = 0;
    let mut i: usize = 0;
    proof {
        assert(s@.skip(0) =~= s@);
    }
    while i < n
        invariant
            i <= n,
            n == s@.len(),
            ticks <= i,
            count_byte(s@, 96) == ticks + count_byte(s@.skip(i as int), 96),
        decreases n - i,
    {
        proof {
            assert(s@.skip(i as int)[0] == s@[i as int]);
            assert(s@.skip(i as int).skip(1) =~= s@.skip(i as int + 1));
        }
        if s[i] == 96 {
            ticks = ticks + 1;
        }
        i = i + 1;
    }
    proof {
        assert(s@.skip(n as int) =~= Seq::<u8>::empty());
    }
    let mut escaped: u64 = 0;
    let mut j: usize = 0;
    proof {
        assert(s@.skip(0) =~= s@);
    }
    while j < n
        invariant
            j <= n,
            n == s@.len(),
            escaped <= j,
            count_escaped_ticks(s@) == escaped + count_escaped_ticks(s@.skip(j as int)),
        decreases n - j,
    {
        proof {
            assert(s@.skip(j as int)[0] == s@[j as int]);
            if j + 1 < n {
                assert(s@.skip(j as int)[1] == s@[j as int + 1]);
                assert(s@.skip(j as int).skip(2) =~= s@.skip(j as int + 2));
            }
            assert(s@.skip(j as int).skip(1) =~= s@.skip(j as int + 1));
        }
        if j + 1 < n && s[j] == 92 && s[j + 1] == 96 {
            escaped = escaped + 1;
            j = j + 2;
        } else {
            proof {
                if s@.skip(j as int).len() >= 2 {
                    assert(!(s@.skip(j as int)[0] == 92u8 && s@.skip(j as int)[1] == 96u8));
                }
            }
            j = j + 1;
        }
    }
    proof {
        assert(s@.skip(j as int).len() < 2);
    }
    ticks > escaped
}

/// Per-key state of the split stage: the pair's two instants and vote
/// tallies reserved for later enrichment.
#[derive(Clone, Copy, PartialEq, Eq, Structural, Debug)]
pub struct XInfo {
    pub created_date: Timestamp,
    pub edit_date: Timestamp,
    pub pre_edit_up_votes: u64,
    pub post_edit_up_votes: u64,
    pub pre_edit_down_votes: u64,
    pub post_edit_down_votes: u64,
}

/// The line is denied: it reads as too many tokens, or looks like code.
pub open spec fn line_denied(line: Seq<u8>) -> bool {
    token_estimate(vstd::utf8::decode_utf8(line)) > 200 || has_code_hint(line)
}

/// A joined-pair line this stage accepts: readable text, five fields, the
/// key and the two instants readable.
pub open spec fn l4_line_ok(line: Seq<u8>) -> bool {
    &&& vstd::utf8::valid_utf8(line)
    &&& (line_denied(line) || {
        &&& split_seq(line, 9).len() == 5
        &&& parseable_i64(split_seq(line, 9)[0])
        &&& is_timestamp_text(split_seq(line, 9)[2]) && timestamp_of(split_seq(line, 9)[2]).valid()
        &&& is_timestamp_text(split_seq(line, 9)[4]) && timestamp_of(split_seq(line, 9)[4]).valid()
    })
}

/// The state the last accepted line for `k` among the first `upto` lines
/// records, if any.
pub open spec fn x_entry(lines: Seq<Seq<u8>>, upto: int, k: PostId) -> Option<XInfo>
    decreases upto,
{
    if upto <= 0 {
        None
    } else {
        let line = lines[upto - 1];
        let fs = split_seq(line, 9);
        if l4_line_ok(line) && !line_denied(line) && int_literal_value(fs[0]) == k {
            Some(
                XInfo {
                    created_date: timestamp_of(fs[2]),
                    edit_date: timestamp_of(fs[4]),
                    pre_edit_up_votes: 0,
                    post_edit_up_votes: 0,
                    pre_edit_down_votes: 0,
                    post_edit_down_votes: 0,
                },
            )
        } else {
            x_entry(lines, upto - 1, k)
        }
    }
}

/// Runs the deny filters over the joined pairs and keys the survivors: a
/// pair denied for length or code content is dropped; any other line must
/// carry its five fields, or the run stops as a fatal condition.
pub fn layer4_simple_filters(lines: &Vec<Vec<u8>>) -> (r: Result<KeyMap<XInfo>, PipelineError>)
    ensures
        r is Ok <==> forall|t: int|
            0 <= t < lines@.len() ==> l4_line_ok(#[trigger] byte_views(lines@)[t]),
        r matches Ok(m) ==> {
            &&& m.wf()
            &&& forall|k: PostId|
                m.has_key(k) <==> #[trigger] x_entry(
                    byte_views(lines@),
                    lines@.len() as int,
                    k,
                ) is Some
            &&& forall|k: PostId|
                #[trigger] x_entry(byte_views(lines@), lines@.len() as int, k) is Some
                    ==> m.has_key(k) && m.spec_value(k) == x_entry(
                    byte_views(lines@),
                    lines@.len() as int,
                    k,
                ).unwrap()
        },
        r matches Err(e) ==> e matches PipelineError::MalformedLine { line } && 0 <= line
            < lines@.len() && !l4_line_ok(byte_views(lines@)[line as int]),
{
    let ghost lviews = byte_views(lines@);
    let mut m: KeyMap<XInfo> = KeyMap::new();
    let mut i: usize = 0;
    while i < lines.len()
        invariant
            i <= lines@.len(),
            lviews == byte_views(lines@),
            m.wf(),
            forall|t: int| 0 <= t < i ==> l4_line_ok(#[trigger] lviews[t]),
            forall|k: PostId| m.has_key(k) <==> #[trigger] x_entry(lviews, i as int, k) is Some,
            forall|k: PostId|
                #[trigger] x_entry(lviews, i as int, k) is Some ==> m.has_key(k) && m.spec_value(k)
                    == x_entry(lviews, i as int, k).unwrap(),
        decreases lines@.len() - i,
    {
        proof {
            assert(lviews[i as int] == lines@[i as int]@);
        }
        let line = &lines[i];
        let chars = match utf8_chars(line.as_slice()) {
            Some(c) => c,
            None => {
                return Err(PipelineError::MalformedLine { line: i });
            }
        };
        let denied = estimate_token_count(&chars) > 200 || scan_for_code(line.as_slice());
        proof {
            assert(denied == line_denied(lviews[i as int]));
        }
        if denied {
            i = i + 1;
            proof {
                assert forall|k: PostId|
                    (m.has_key(k) <==> #[trigger] x_entry(lviews, i as int, k) is Some) && (
                x_entry(lviews, i as int, k) is Some ==> m.has_key(k) && m.spec_value(k)
                    == x_entry(lviews, i as int, k).unwrap()) by {
                    assert(x_entry(lviews, i as int, k) == x_entry(lviews, i as int - 1, k));
                }
            }
            continue ;
        }
        let fields = split_bytes(line.as_slice(), 9);
        proof {
            assert(byte_views(fields@) == split_seq(lviews[i as int], 9));
            assert(byte_views(fields@).len() == fields@.len());
        }
        if fields.len() != 5 {
            return Err(PipelineError::MalformedLine { line: i });
        }
        proof {
            assert(byte_views(fields@)[0] == fields@[0]@);
            assert(byte_views(fields@)[2] == fields@[2]@);
            assert(byte_views(fields@)[4] == fields@[4]@);
        }
        let key = match parse_i64(fields[0].as_slice()) {
            Some(k) => k,
            None => {
                return Err(PipelineError::MalformedLine { line: i });
            }
        };
        let created = match parse_timestamp(fields[2].as_slice()) {
            Some(t) => t,
            None => {
                return Err(PipelineError::MalformedLine { line: i });
            }
        };
        let edited = match parse_timestamp(fields[4].as_slice()) {
            Some(t) => t,
            None => {
                return Err(PipelineError::MalformedLine { line: i });
            }
        };
        proof {
            assert(l4_line_ok(lviews[i as int]));
        }
        let entry = XInfo {
            created_date: created,
            edit_date: edited,
            pre_edit_up_votes: 0,
            post_edit_up_votes: 0,
            pre_edit_down_votes: 0,
            post_edit_down_votes: 0,
        };
        m.insert(key, entry);
        i = i + 1;
        proof {
            assert(x_entry(lviews, i as int, key) == Some(entry));
            assert forall|k: PostId|
                (m.has_key(k) <==> #[trigger] x_entry(lviews, i as int, k) is Some) && (x_entry(
                lviews,
                i as int,
                k,
            ) is Some ==> m.has_key(k) && m.spec_value(k) == x_entry(
                lviews,
                i as int,
                k,
            ).unwrap()) by {
                if k != key {
                    assert(x_entry(lviews, i as int, k) == x_entry(lviews, i as int - 1, k));
                }
            }
        }
    }
    Ok(m)
}

/// Division rounded half up.
pub open spec fn round_div(x: int, d: int) -> int {
    (2 * x + d) / (2 * d)
}

/// Parses a `train:eval:test` integer ratio.
pub fn parse_split_ratio(s: &[u8]) -> (r: Result<(u64, u64, u64), PipelineError>)
    ensures
        r is Ok <==> {
            &&& split_seq(s@, 58).len() == 3
            &&& forall|t: int|
                0 <= t < 3 ==> parseable_i64(#[trigger] split_seq(s@, 58)[t])
                    && 0 <= int_literal_value(split_seq(s@, 58)[t]) <= u32::MAX
        },
        r matches Ok(w) ==> {
            &&& w.0 == int_literal_value(split_seq(s@, 58)[0])
            &&& w.1 == int_literal_value(split_seq(s@, 58)[1])
            &&& w.2 == int_literal_value(split_seq(s@, 58)[2])
        },
        r matches Err(e) ==> e is BadSplitSpec,
{
    let fields = split_bytes(s, 58);
    proof {
        assert(byte_views(fields@) == split_seq(s@, 58));
        assert(byte_views(fields@).len() == fields@.len());
        assert(byte_views(fields@).len() == 3 ==> (byte_views(fields@)[0] == fields@[0]@
            && byte_views(fields@)[1] == fields@[1]@ && byte_views(fields@)[2] == fields@[2]@));
    }
    if fields.len() != 3 {
        return Err(PipelineError::BadSplitSpec);
    }
    let mut out: [u64; 3] = [0, 0, 0];
    let a = match parse_i64(fields[0].as_slice()) {
        Some(v) => v,
        None => {
            return Err(PipelineError::BadSplitSpec);
        }
    };
    let b = match parse_i64(fields[1].as_slice()) {
        Some(v) => v,
        None => {
            return Err(PipelineError::BadSplitSpec);
        }
    };
    let c = match parse_i64(fields[2].as_slice()) {
        Some(v) => v,
        None => {
            return Err(PipelineError::BadSplitSpec);
        }
    };
    if a < 0 || a > u32::MAX as i64 || b < 0 || b > u32::MAX as i64 || c < 0 || c > u32::MAX as i64 {
        proof {
            assert(!(forall|t: int|
                0 <= t < 3 ==> parseable_i64(#[trigger] split_seq(s@, 58)[t])
                    && 0 <= int_literal_value(split_seq(s@, 58)[t]) <= u32::MAX)) by {
                if a < 0 || a > u32::MAX as i64 {
                    assert(!(0 <= int_literal_value(split_seq(s@, 58)[0]) <= u32::MAX));
                } else if b < 0 || b > u32::MAX as i64 {
                    assert(!(0 <= int_literal_value(split_seq(s@, 58)[1]) <= u32::MAX));
                } else {
                    assert(!(0 <= int_literal_value(split_seq(s@, 58)[2]) <= u32::MAX));
                }
            }
        }
        return Err(PipelineError::BadSplitSpec);
    }
    proof {
        assert forall|t: int|
            0 <= t < 3 implies parseable_i64(#[trigger] split_seq(s@, 58)[t]) && 0
            <= int_literal_value(split_seq(s@, 58)[t]) <= u32::MAX by {
            if t == 0 {
            } else if t == 1 {
            } else {
                assert(t == 2);
            }
        }
    }
    Ok((a as u64, b as u64, c as u64))
}

/// The partition sizes of `n` items under the ratio `a:b:c`: eval and test
/// take their proportionally rounded shares first, train absorbs the
/// remainder, and the three always sum to `n`.  A zero ratio, or a rounding
/// that exceeds the population, cannot be split.
pub fn split_counts(n: usize, a: u64, b: u64, c: u64) -> (r: Result<
    (usize, usize, usize),
    PipelineError,
>)
    requires
        a <= u32::MAX,
        b <= u32::MAX,
        c <= u32::MAX,
    ensures
        r is Ok <==> a + b + c > 0 && round_div(n * b, a + b + c) + round_div(n * c, a + b + c)
            <= n,
        r matches Ok(p) ==> {
            &&& p.1 == round_div(n * b, a + b + c)
            &&& p.2 == round_div(n * c, a + b + c)
            &&& p.0 == n - p.1 - p.2
            &&& p.0 + p.1 + p.2 == n
        },
        r matches Err(e) ==> e is BadSplitSpec,
{
    let total: u128 = a as u128 + b as u128 + c as u128;
    if total == 0 {
        return Err(PipelineError::BadSplitSpec);
    }
    let nn: u128 = n as u128;
    proof {
        assert(nn <= u64::MAX);
        assert(nn * (b as u128) <= (u64::MAX as u128) * (u32::MAX as u128)) by (nonlinear_arith)
            requires
                nn <= u64::MAX,
                b <= u32::MAX,
        ;
        assert(nn * (c as u128) <= (u64::MAX as u128) * (u32::MAX as u128)) by (nonlinear_arith)
            requires
                nn <= u64::MAX,
                c <= u32::MAX,
        ;
    }
    let prod_b: u128 = nn * (b as u128);
    let prod_c: u128 = nn * (c as u128);
    let ev: u128 = (2 * prod_b + total) / (2 * total);
    let te: u128 = (2 * prod_c + total) / (2 * total);
    proof {
        assert(prod_b == n * b) by (nonlinear_arith)
            requires
                prod_b == nn * (b as u128),
                nn == n,
        ;
        assert(prod_c == n * c) by (nonlinear_arith)
            requires
                prod_c == nn * (c as u128),
                nn == n,
        ;
        assert(ev == round_div(n * b, a + b + c));
        assert(te == round_div(n * c, a + b + c));
        assert(ev <= nn && te <= nn) by {
            lemma_round_div_le(n as int, b as int, (a + b + c) as int);
            lemma_round_div_le(n as int, c as int, (a + b + c) as int);
        }
        assert(round_div(n * b, a + b + c) >= 0) by {
            lemma_round_div_nonneg(n as int, b as int, (a + b + c) as int);
        }
        assert(round_div(n * c, a + b + c) >= 0) by {
            lemma_round_div_nonneg(n as int, c as int, (a + b + c) as int);
        }
    }
    let evs: usize = ev as usize;
    let tes: usize = te as usize;
    if evs > n || tes > n || n - evs < tes {
        return Err(PipelineError::BadSplitSpec);
    }
    Ok((n - evs - tes, evs, tes))
}

/// Rounded shares never exceed the population.
proof fn lemma_round_div_le(n: int, w: int, total: int)
    requires
        n >= 0,
        0 <= w <= total,
        total >= 1,
    ensures
        0 <= round_div(n * w, total) <= n,
{
    lemma_round_div_nonneg(n, w, total);
    assert(2 * (n * w) + total <= 2 * n * total + total) by (nonlinear_arith)
        requires
            n >= 0,
            0 <= w <= total,
    ;
    assert((2 * n * total + total) / (2 * total) == n) by (nonlinear_arith)
        requires
            total >= 1,
    ;
    assert((2 * (n * w) + total) / (2 * total) <= (2 * n * total + total) / (2 * total)) by (
    nonlinear_arith)
        requires
            total >= 1,
            2 * (n * w) + total <= 2 * n * total + total,
    ;
}

proof fn lemma_round_div_nonneg(n: int, w: int, total: int)
    requires
        n >= 0,
        w >= 0,
        total >= 1,
    ensures
        round_div(n * w, total) >= 0,
{
    assert(n * w >= 0) by (nonlinear_arith)
        requires
            n >= 0,
            w >= 0,
    ;
    assert((2 * (n * w) + total) / (2 * total) >= 0) by (nonlinear_arith)
        requires
            total >= 1,
            n * w >= 0,
    ;
}

/// The header row every partition starts with.
pub open spec fn header_line() -> Seq<u8> {
    seq![105u8, 110u8, 112u8, 117u8, 116u8, 9u8, 111u8, 117u8, 116u8, 112u8, 117u8, 116u8]
}

fn header_line_bytes() -> (r: Vec<u8>)
    ensures
        r@ == header_line(),
{
    let mut r: Vec<u8> = Vec::new();
    r.push(105);
    r.push(110);
    r.push(112);
    r.push(117);
    r.push(116);
    r.push(9);
    r.push(111);
    r.push(117);
    r.push(116);
    r.push(112);
    r.push(117);
    r.push(116);
    proof {
        assert(r@ =~= header_line());
    }
    r
}

/// A joined-pair line this selector can read: a key and at least the two
/// text fields.
pub open spec fn select_line_ok(line: Seq<u8>) -> bool {
    &&& split_seq(line, 9).len() >= 4
    &&& parseable_i64(split_seq(line, 9)[0])
}

/// The dataset row of one selected pair: before-text, then after-text.
pub open spec fn dataset_line(line: Seq<u8>) -> Seq<u8> {
    split_seq(line, 9)[1] + seq![9u8] + split_seq(line, 9)[3]
}

/// The rows selected from `lines[i..]` until `count` keys of the survivor
/// set have been copied, with the position reached; selection fails where a
/// visited line cannot be read, or the input ends first.
pub open spec fn take_selected(
    lines: Seq<Seq<u8>>,
    i: int,
    keys: Seq<PostId>,
    count: int,
) -> Result<(Seq<Seq<u8>>, int), PipelineError>
    decreases lines.len() - i,
{
    if count <= 0 {
        Ok((Seq::empty(), i))
    } else if i < 0 || i >= lines.len() {
        Err(PipelineError::BadSplitSpec)
    } else if !select_line_ok(lines[i]) {
        Err(PipelineError::MalformedLine { line: i as usize })
    } else if keys.contains(int_literal_value(split_seq(lines[i], 9)[0]) as PostId) {
        match take_selected(lines, i + 1, keys, count - 1) {
            Ok(p) => Ok((seq![dataset_line(lines[i])] + p.0, p.1)),
            Err(e) => Err(e),
        }
    } else {
        take_selected(lines, i + 1, keys, count)
    }
}

/// Copies `count` selected dataset rows starting at line `from`.
pub fn layer4_write(
    lines: &Vec<Vec<u8>>,
    from: usize,
    count: usize,
    posts: &KeyMap<XInfo>,
) -> (r: Result<(Vec<Vec<u8>>, usize), PipelineError>)
    requires
        posts.wf(),
        from <= lines@.len(),
    ensures
        r matches Ok(p) ==> take_selected(
            byte_views(lines@),
            from as int,
            posts.spec_keys(),
            count as int,
        ) == Ok::<_, PipelineError>((byte_views(p.0@), p.1 as int)) && p.1 <= lines@.len(),
        r matches Err(e) ==> take_selected(
            byte_views(lines@),
            from as int,
            posts.spec_keys(),
            count as int,
        ) == Err::<(Seq<Seq<u8>>, int), _>(e),
{
    let ghost lviews = byte_views(lines@);
    let ghost keys = posts.spec_keys();
    let mut out: Vec<Vec<u8>> = Vec::new();
    let mut i: usize = from;
    let mut remaining: usize = count;
    while remaining > 0
        invariant
            from <= i <= lines@.len(),
            lviews == byte_views(lines@),
            keys == posts.spec_keys(),
            posts.wf(),
            take_selected(lviews, from as int, keys, count as int) == (match take_selected(
                lviews,
                i as int,
                keys,
                remaining as int,
            ) {
                Ok(p) => Ok::<(Seq<Seq<u8>>, int), PipelineError>(
                    (byte_views(out@) + p.0, p.1),
                ),
                Err(e) => Err::<(Seq<Seq<u8>>, int), PipelineError>(e),
            }),
        decreases lines@.len() - i,
    {
        if i >= lines.len() {
            return Err(PipelineError::BadSplitSpec);
        }
        proof {
            assert(lviews[i as int] == lines@[i as int]@);
        }
        let fields = split_bytes(lines[i].as_slice(), 9);
        proof {
            assert(byte_views(fields@) == split_seq(lviews[i as int], 9));
            assert(byte_views(fields@).len() == fields@.len());
        }
        if fields.len() < 4 {
            return Err(PipelineError::MalformedLine { line: i });
        }
        proof {
            assert(byte_views(fields@)[0] == fields@[0]@);
            assert(byte_views(fields@)[1] == fields@[1]@);
            assert(byte_views(fields@)[3] == fields@[3]@);
        }
        let key = match parse_i64(fields[0].as_slice()) {
            Some(k) => k,
            None => {
                return Err(PipelineError::MalformedLine { line: i });
            }
        };
        proof {
            assert(select_line_ok(lviews[i as int]));
        }
        let selected = match posts.index_of(key) {
            Some(_) => true,
            None => false,
        };
        if selected {
            let mut row = clone_bytes(&fields[1]);
            row.push(9);
            let mut after = clone_bytes(&fields[3]);
            row.append(&mut after);
            proof {
                assert(row@ =~= dataset_line(lviews[i as int]));
            }
            let ghost old_out = out@;
            out.push(row);
            i = i + 1;
            remaining = remaining - 1;
            proof {
                assert(byte_views(out@) =~= byte_views(old_out).push(
                    dataset_line(lviews[i as int - 1]),
                ));
                assert forall|p0: Seq<Seq<u8>>|
                    byte_views(old_out) + (seq![dataset_line(lviews[i as int - 1])] + p0)
                        =~= byte_views(out@) + p0 by {}
            }
        } else {
            i = i + 1;
        }
    }
    proof {
        assert(take_selected(lviews, i as int, keys, 0) == Ok::<(Seq<Seq<u8>>, int),
            PipelineError,
        >((Seq::empty(), i as int)));
        assert(byte_views(out@) + Seq::<Seq<u8>>::empty() =~= byte_views(out@));
    }
    Ok((out, i))
}

/// The requested ratio is three readable integer weights.
pub open spec fn ratio_ok(s: Seq<u8>) -> bool {
    &&& split_seq(s, 58).len() == 3
    &&& forall|t: int|
        0 <= t < 3 ==> parseable_i64(#[trigger] split_seq(s, 58)[t]) && 0 <= int_literal_value(
            split_seq(s, 58)[t],
        ) <= u32::MAX
}

/// The whole outcome of sizing and filling the partitions: an unreadable or
/// unsatisfiable ratio is refused, and otherwise the partitions are the
/// fold of the selection over the survivor keys.
pub open spec fn generate_outcome(
    lines: Seq<Seq<u8>>,
    keys: Seq<PostId>,
    n: int,
    split: Seq<u8>,
) -> Result<(Seq<Seq<u8>>, Seq<Seq<u8>>, Seq<Seq<u8>>), PipelineError> {
    if !ratio_ok(split) {
        Err(PipelineError::BadSplitSpec)
    } else {
        let w = split_seq(split, 58);
        let a = int_literal_value(w[0]);
        let b = int_literal_value(w[1]);
        let c = int_literal_value(w[2]);
        let total = a + b + c;
        if !(total > 0 && round_div(n * b, total) + round_div(n * c, total) <= n) {
            Err(PipelineError::BadSplitSpec)
        } else {
            partitions_of(lines, keys, n, b, c, total)
        }
    }
}

/// The three partitions' rows, when the ratio fits the survivor count and
/// every visited line can be read: eval and test sizes are rounded first,
/// train absorbs the remainder, and the selected rows fill train, then eval,
/// then test, in input order.
pub open spec fn partitions_of(
    lines: Seq<Seq<u8>>,
    keys: Seq<PostId>,
    n: int,
    w1: int,
    w2: int,
    total: int,
) -> Result<(Seq<Seq<u8>>, Seq<Seq<u8>>, Seq<Seq<u8>>), PipelineError> {
    let ec = round_div(n * w1, total);
    let sc = round_div(n * w2, total);
    let tc = n - ec - sc;
    match take_selected(lines, 0, keys, tc) {
        Err(e) => Err(e),
        Ok(tr) => match take_selected(lines, tr.1, keys, ec) {
            Err(e) => Err(e),
            Ok(ev) => match take_selected(lines, ev.1, keys, sc) {
                Err(e) => Err(e),
                Ok(te) => Ok(
                    (
                        seq![header_line()] + tr.0,
                        seq![header_line()] + ev.0,
                        seq![header_line()] + te.0,
                    ),
                ),
            },
        },
    }
}

/// Splits the selected pairs into the three partitions: the first selected
/// rows fill train, the next fill eval, the last fill test, each behind a
/// header row.
pub fn layer4_generate(
    lines: &Vec<Vec<u8>>,
    posts: &KeyMap<XInfo>,
    split: &[u8],
) -> (r: Result<(Vec<Vec<u8>>, Vec<Vec<u8>>, Vec<Vec<u8>>), PipelineError>)
    requires
        posts.wf(),
    ensures
        r is Ok <==> generate_outcome(
            byte_views(lines@),
            posts.spec_keys(),
            posts.spec_len() as int,
            split@,
        ) is Ok,
        r matches Ok(p) ==> generate_outcome(
            byte_views(lines@),
            posts.spec_keys(),
            posts.spec_len() as int,
            split@,
        ) == Ok::<_, PipelineError>((byte_views(p.0@), byte_views(p.1@), byte_views(p.2@))),
        r matches Err(e) ==> generate_outcome(
            byte_views(lines@),
            posts.spec_keys(),
            posts.spec_len() as int,
            split@,
        ) == Err::<(Seq<Seq<u8>>, Seq<Seq<u8>>, Seq<Seq<u8>>), _>(e),
        r matches Ok(p) ==> {
            &&& p.0@.len() >= 1 && byte_views(p.0@)[0] == header_line()
            &&& p.1@.len() >= 1 && byte_views(p.1@)[0] == header_line()
            &&& p.2@.len() >= 1 && byte_views(p.2@)[0] == header_line()
        },
{
    let (a, b, c) = match parse_split_ratio(split) {
        Ok(w) => w,
        Err(e) => {
            proof {
                assert(!ratio_ok(split@));
            }
            return Err(e);
        }
    };
    proof {
        assert(ratio_ok(split@));
    }
    let n = posts.len();
    let (tc, ec, sc) = match split_counts(n, a, b, c) {
        Ok(p) => p,
        Err(e) => {
            return Err(e);
        }
    };
    let (train_rows, pos1) = match layer4_write(lines, 0, tc, posts) {
        Ok(p) => p,
        Err(e) => {
            return Err(e);
        }
    };
    let (eval_rows, pos2) = match layer4_write(lines, pos1, ec, posts) {
        Ok(p) => p,
        Err(e) => {
            return Err(e);
        }
    };
    let (test_rows, _pos3) = match layer4_write(lines, pos2, sc, posts) {
        Ok(p) => p,
        Err(e) => {
            return Err(e);
        }
    };
    let ghost train_sel = byte_views(train_rows@);
    let ghost eval_sel = byte_views(eval_rows@);
    let ghost test_sel = byte_views(test_rows@);
    let mut train: Vec<Vec<u8>> = Vec::new();
    train.push(header_line_bytes());
    let mut tr = train_rows;
    train.append(&mut tr);
    let mut evalp: Vec<Vec<u8>> = Vec::new();
    evalp.push(header_line_bytes());
    let mut ev = eval_rows;
    evalp.append(&mut ev);
    let mut test: Vec<Vec<u8>> = Vec::new();
    test.push(header_line_bytes());
    let mut te = test_rows;
    test.append(&mut te);
    proof {
        assert(byte_views(train@) =~= seq![header_line()] + train_sel);
        assert(byte_views(evalp@) =~= seq![header_line()] + eval_sel);
        assert(byte_views(test@) =~= seq![header_line()] + test_sel);
        assert(byte_views(train@)[0] == header_line());
        assert(byte_views(evalp@)[0] == header_line());
        assert(byte_views(test@)[0] == header_line());
    }
    Ok((train, evalp, test))
}

/// The whole split stage: denies over-long and code-like pairs, sizes the
/// partitions from the requested ratio, and copies each surviving pair's
/// texts into its partition behind a header row.
/// The partitions come from the survivor index the deny filters keyed.
pub open spec fn split_chain(
    lines: Seq<Seq<u8>>,
    split: Seq<u8>,
    train: Seq<Seq<u8>>,
    eval_rows: Seq<Seq<u8>>,
    test_rows: Seq<Seq<u8>>,
    m: KeyMap<XInfo>,
) -> bool {
    &&& m.wf()
    &&& (forall|k: PostId|
        m.has_key(k) <==> #[trigger] x_entry(lines, lines.len() as int, k) is Some)
    &&& (forall|k: PostId|
        #[trigger] x_entry(lines, lines.len() as int, k) is Some ==> m.spec_value(k) == x_entry(
            lines,
            lines.len() as int,
            k,
        ).unwrap())
    &&& generate_outcome(lines, m.spec_keys(), m.spec_len() as int, split) == Ok::<
        _,
        PipelineError,
    >((train, eval_rows, test_rows))
}

pub fn layer4_filter(lines: &Vec<Vec<u8>>, split: &[u8]) -> (r: Result<
    (Vec<Vec<u8>>, Vec<Vec<u8>>, Vec<Vec<u8>>),
    PipelineError,
>)
    ensures
        r is Ok ==> exists|m: KeyMap<XInfo>|
            split_chain(
                byte_views(lines@),
                split@,
                byte_views((r->Ok_0).0@),
                byte_views((r->Ok_0).1@),
                byte_views((r->Ok_0).2@),
                m,
            ),
        r matches Ok(p) ==> {
            &&& p.0@.len() >= 1 && byte_views(p.0@)[0] == header_line()
            &&& p.1@.len() >= 1 && byte_views(p.1@)[0] == header_line()
            &&& p.2@.len() >= 1 && byte_views(p.2@)[0] == header_line()
        },
{
    let posts = match layer4_simple_filters(lines) {
        Ok(m) => m,
        Err(e) => {
            return Err(e);
        }
    };
    let result = layer4_generate(lines, &posts, split);
    proof {
        if result is Ok {
            assert(split_chain(
                byte_views(lines@),
                split@,
                byte_views((result->Ok_0).0@),
                byte_views((result->Ok_0).1@),
                byte_views((result->Ok_0).2@),
                posts,
            ));
            assert(exists|m: KeyMap<XInfo>|
                split_chain(
                    byte_views(lines@),
                    split@,
                    byte_views((result->Ok_0).0@),
                    byte_views((result->Ok_0).1@),
                    byte_views((result->Ok_0).2@),
                    m,
                ));
        }
    }
    result
}

} // verus!
