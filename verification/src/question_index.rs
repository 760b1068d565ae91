//! The question index: the keys of every top-level item, one per line, and
//! the loader that reads such an index back as a key set.

use vstd::prelude::*;

use crate::errors::PipelineError;
use crate::index::KeyMap;
use crate::join::parseable_i64;
use crate::join::RecordFault;
use crate::numtext::int_bytes;
use crate::numtext::int_literal_value;
use crate::numtext::int_repr;
use crate::numtext::parse_i64;
use crate::ownership::marker_question;
use crate::record::attr_value;
use crate::record::find_attr;
use crate::record::has_attr;
use crate::record::n_id;
use crate::record::n_post_type_id;
use crate::record::name_id;
use crate::record::name_post_type_id;
use crate::record::AttrModel;
use crate::record::RawRecord;
use crate::textops::byte_views;
use crate::xml::row_views;
use crate::xml::RowModel;
use crate::xml::ScannedRow;
use crate::PostId;

verus! {

/// The fault a posts record carries, if any: a key that does not read as an
/// integer.
pub open spec fn question_fault(rec: Seq<AttrModel>) -> Option<RecordFault> {
    if attr_value(rec, n_id()) matches Some(v) && !parseable_i64(v) {
        Some(RecordFault::BadNumber)
    } else {
        None
    }
}

/// The key a posts record contributes to the question index: the record must
/// carry a key and be marked a top-level item.
pub open spec fn classify_question(rec: Seq<AttrModel>) -> Option<PostId>
    recommends
        question_fault(rec) is None,
{
    if has_attr(rec, n_id()) && has_attr(rec, n_post_type_id()) && attr_value(
        rec,
        n_post_type_id(),
    ).unwrap() == marker_question() {
        Some(int_literal_value(attr_value(rec, n_id()).unwrap()) as PostId)
    } else {
        None
    }
}

/// Classifies one scanned posts record for the question index.
pub fn question_classify(rec: &RawRecord) -> (r: Result<Option<PostId>, RecordFault>)
    ensures
        r matches Err(f) ==> question_fault(rec@) == Some(f),
        r matches Ok(o) ==> question_fault(rec@) is None && o == classify_question(rec@),
{
    let nid = name_id();
    let ntype = name_post_type_id();
    let pid: Option<i64> = match find_attr(rec, nid.as_slice()) {
        Some(v) => {
            match parse_i64(v.as_slice()) {
                Some(p) => Some(p),
                None => {
                    return Err(RecordFault::BadNumber);
                }
            }
        }
        None => None,
    };
    proof {
        assert(question_fault(rec@) is None);
    }
    let tv = match find_attr(rec, ntype.as_slice()) {
        Some(v) => v,
        None => {
            return Ok(None);
        }
    };
    let is_question = tv.len() == 1 && tv[0] == 49;
    proof {
        assert(tv@ == marker_question() <==> (tv@.len() == 1 && tv@[0] == 49u8)) by {
            if tv@.len() == 1 && tv@[0] == 49u8 {
                assert(tv@ =~= marker_question());
            }
        }
    }
    if !is_question {
        return Ok(None);
    }
    match pid {
        Some(p) => Ok(Some(p)),
        None => Ok(None),
    }
}

/// The index lines of the first `k` scanned records: one key per line.
pub open spec fn question_index_upto(rows: Seq<RowModel>, k: int) -> Seq<Seq<u8>>
    decreases k,
{
    if k <= 0 {
        Seq::empty()
    } else {
        let prev = question_index_upto(rows, k - 1);
        if question_fault(rows[k - 1].attrs) is Some {
            prev
        } else {
            match classify_question(rows[k - 1].attrs) {
                Some(p) => prev.push(int_repr(p as int)),
                None => prev,
            }
        }
    }
}

/// Writes the question index of a scanned posts dump: the key of every
/// top-level item, one per line, in scan order.  A record with an unreadable
/// key is a fatal condition.
pub fn generate_question_index(rows: &Vec<ScannedRow>) -> (r: Result<Vec<Vec<u8>>, PipelineError>)
    ensures
        r is Ok <==> forall|t: int|
            0 <= t < rows@.len() ==> question_fault(#[trigger] row_views(rows@)[t].attrs) is None,
        r matches Ok(lines) ==> byte_views(lines@) == question_index_upto(
            row_views(rows@),
            rows@.len() as int,
        ),
        r matches Err(e) ==> e is MalformedRecord,
{
    let ghost rviews = row_views(rows@);
    let mut out: Vec<Vec<u8>> = Vec::new();
    let mut k: usize = 0;
    while k < rows.len()
        invariant
            k <= rows@.len(),
            rviews == row_views(rows@),
            forall|t: int| 0 <= t < k ==> question_fault(#[trigger] rviews[t].attrs) is None,
            byte_views(out@) =~= question_index_upto(rviews, k as int),
        decreases rows@.len() - k,
    {
        let row = &rows[k];
        proof {
            assert(rviews[k as int] == rows@[k as int]@);
        }
        match question_classify(&row.rec) {
            Err(_) => {
                proof {
                    assert(question_fault(rviews[k as int].attrs) is Some);
                }
                return Err(PipelineError::MalformedRecord { position: row.offset });
            }
            Ok(Some(p)) => {
                let line = int_bytes(p);
                let ghost old_out = out@;
                out.push(line);
                k = k + 1;
                proof {
                    assert(byte_views(out@) =~= byte_views(old_out).push(int_repr(p as int)));
                    assert(byte_views(out@) =~= question_index_upto(rviews, k as int));
                }
            }
            Ok(None) => {
                k = k + 1;
                proof {
                    assert(byte_views(out@) =~= question_index_upto(rviews, k as int));
                }
            }
        }
    }
    Ok(out)
}

/// A key of the index file: one integer literal on its own line.
pub open spec fn index_line_ok(line: Seq<u8>) -> bool {
    parseable_i64(line)
}

/// `k` is listed among the first `upto` index lines.
pub open spec fn index_has_key(lines: Seq<Seq<u8>>, upto: int, k: PostId) -> bool
    decreases upto,
{
    if upto <= 0 {
        false
    } else {
        (index_line_ok(lines[upto - 1]) && int_literal_value(lines[upto - 1]) == k)
            || index_has_key(lines, upto - 1, k)
    }
}

/// Loads a question index: one key per line, duplicates collapsed.  A line
/// that does not read as an integer is a fatal condition.
pub fn load_question_index(lines: &Vec<Vec<u8>>) -> (r: Result<KeyMap<()>, PipelineError>)
    ensures
        r is Ok <==> forall|t: int|
            0 <= t < lines@.len() ==> index_line_ok(#[trigger] byte_views(lines@)[t]),
        r matches Ok(m) ==> m.wf() && forall|k: PostId|
            #[trigger] m.has_key(k) == index_has_key(byte_views(lines@), lines@.len() as int, k),
        r matches Err(e) ==> e matches PipelineError::MalformedLine { line } && 0 <= line
            < lines@.len() && !index_line_ok(byte_views(lines@)[line as int]) && (forall|t: int|
            0 <= t < line ==> index_line_ok(#[trigger] byte_views(lines@)[t])),
{
    let ghost lviews = byte_views(lines@);
    let mut m: KeyMap<()> = KeyMap::new();
    let mut i: usize = 0;
    while i < lines.len()
        invariant
            i <= lines@.len(),
            lviews == byte_views(lines@),
            m.wf(),
            forall|t: int| 0 <= t < i ==> index_line_ok(#[trigger] lviews[t]),
            forall|k: PostId| #[trigger] m.has_key(k) == index_has_key(lviews, i as int, k),
        decreases lines@.len() - i,
    {
        proof {
            assert(lviews[i as int] == lines@[i as int]@);
        }
        let key = match parse_i64(lines[i].as_slice()) {
            Some(k) => k,
            None => {
                return Err(PipelineError::MalformedLine { line: i });
            }
        };
        m.insert(key, ());
        i = i + 1;
        proof {
            assert forall|k: PostId|
                #[trigger] m.has_key(k) == index_has_key(lviews, i as int, k) by {
                if k != key {
                    assert(index_has_key(lviews, i as int, k) == index_has_key(
                        lviews,
                        i as int - 1,
                        k,
                    ));
                }
            }
        }
    }
    Ok(m)
}


/// Looking a key up reads only the first `upto` lines.
proof fn lemma_index_has_key_prefix(a: Seq<Seq<u8>>, b: Seq<Seq<u8>>, upto: int, k: PostId)
    requires
        0 <= upto <= a.len(),
        upto <= b.len(),
        forall|t: int| 0 <= t < upto ==> a[t] == b[t],
    ensures
        index_has_key(a, upto, k) == index_has_key(b, upto, k),
    decreases upto,
{
    if upto > 0 {
        lemma_index_has_key_prefix(a, b, upto - 1, k);
    }
}

/// The write-then-load round trip of the question index loses nothing: a key
/// is read back from the written index exactly when some scanned record
/// contributed it.
pub proof fn lemma_question_index_round_trip(rows: Seq<RowModel>, n: int, k: PostId)
    requires
        0 <= n <= rows.len(),
        forall|t: int| 0 <= t < n ==> question_fault(#[trigger] rows[t].attrs) is None,
    ensures
        index_has_key(
            question_index_upto(rows, n),
            question_index_upto(rows, n).len() as int,
            k,
        ) <==> exists|t: int| 0 <= t < n && classify_question(#[trigger] rows[t].attrs) == Some(k),
    decreases n,
{
    if n > 0 {
        lemma_question_index_round_trip(rows, n - 1, k);
        let prev = question_index_upto(rows, n - 1);
        let cur = question_index_upto(rows, n);
        match classify_question(rows[n - 1].attrs) {
            Some(p) => {
                assert(cur == prev.push(crate::numtext::int_repr(p as int)));
                crate::numtext::lemma_int_repr_value(p as int);
                assert(cur[cur.len() - 1] == crate::numtext::int_repr(p as int));
                assert(index_line_ok(cur[cur.len() - 1]));
                assert(int_literal_value(cur[cur.len() - 1]) == p);
                lemma_index_has_key_prefix(prev, cur, prev.len() as int, k);
                assert(index_has_key(cur, cur.len() as int, k) == ((p == k) || index_has_key(
                    prev,
                    prev.len() as int,
                    k,
                )));
                if p == k {
                    assert(classify_question(rows[n - 1].attrs) == Some(k));
                    assert(exists|t: int|
                        0 <= t < n && classify_question(#[trigger] rows[t].attrs) == Some(k));
                } else {
                    if index_has_key(prev, prev.len() as int, k) {
                        let w = choose|t: int|
                            0 <= t < n - 1 && classify_question(#[trigger] rows[t].attrs) == Some(
                                k,
                            );
                        assert(classify_question(rows[w].attrs) == Some(k));
                    }
                    if exists|t: int|
                        0 <= t < n && classify_question(#[trigger] rows[t].attrs) == Some(k) {
                        let w = choose|t: int|
                            0 <= t < n && classify_question(#[trigger] rows[t].attrs) == Some(k);
                        assert(w < n - 1);
                        assert(exists|t: int|
                            0 <= t < n - 1 && classify_question(#[trigger] rows[t].attrs) == Some(
                                k,
                            ));
                    }
                }
            }
            None => {
                assert(cur == prev);
                if exists|t: int|
                    0 <= t < n && classify_question(#[trigger] rows[t].attrs) == Some(k) {
                    let w = choose|t: int|
                        0 <= t < n && classify_question(#[trigger] rows[t].attrs) == Some(k);
                    assert(w < n - 1);
                    assert(exists|t: int|
                        0 <= t < n - 1 && classify_question(#[trigger] rows[t].attrs) == Some(k));
                }
                if exists|t: int|
                    0 <= t < n - 1 && classify_question(#[trigger] rows[t].attrs) == Some(k) {
                    let w = choose|t: int|
                        0 <= t < n - 1 && classify_question(#[trigger] rows[t].attrs) == Some(k);
                    assert(classify_question(rows[w].attrs) == Some(k));
                }
            }
        }
    }
}
} // verus!
