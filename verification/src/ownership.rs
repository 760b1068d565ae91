//! The ownership filter: selects the records of top-level items whose last
//! editor differs from their creator, and emits the key/author index that
//! seeds the join stage.

use vstd::prelude::*;

use crate::errors::PipelineError;
use crate::join::parseable_i32;
use crate::join::parseable_i64;
use crate::join::RecordFault;
use crate::numtext::int_bytes;
use crate::numtext::int_literal_value;
use crate::numtext::int_repr;
use crate::numtext::parse_i32;
use crate::numtext::parse_i64;
use crate::record::attr_value;
use crate::record::find_attr;
use crate::record::has_attr;
use crate::record::n_id;
use crate::record::n_last_editor_user_id;
use crate::record::n_owner_user_id;
use crate::record::n_post_type_id;
use crate::record::name_id;
use crate::record::name_last_editor_user_id;
use crate::record::name_owner_user_id;
use crate::record::name_post_type_id;
use crate::record::AttrModel;
use crate::record::RawRecord;
use crate::textops::byte_views;
use crate::xml::row_views;
use crate::xml::RowModel;
use crate::xml::ScannedRow;
use crate::PostId;

verus! {

/// The type marker of a top-level item.
pub open spec fn marker_question() -> Seq<u8> {
    seq![49u8]
}

/// The dataset-integrity fault an ownership record carries, if any: a
/// numeric attribute that does not read as an integer of its type.
pub open spec fn ownership_fault(rec: Seq<AttrModel>) -> Option<RecordFault> {
    if attr_value(rec, n_id()) matches Some(v) && !parseable_i64(v) {
        Some(RecordFault::BadNumber)
    } else if attr_value(rec, n_owner_user_id()) matches Some(v) && !parseable_i32(v) {
        Some(RecordFault::BadNumber)
    } else if attr_value(rec, n_last_editor_user_id()) matches Some(v) && !parseable_i32(v) {
        Some(RecordFault::BadNumber)
    } else {
        None
    }
}

/// The key and author an ownership record contributes: all four checklist
/// attributes must be present, the record must be a top-level item, and a
/// self-edit (same author and last editor) is excluded — the same-author
/// equality check is the determining rule of this stage.
pub open spec fn classify_ownership(rec: Seq<AttrModel>) -> Option<(PostId, i32)>
    recommends
        ownership_fault(rec) is None,
{
    if has_attr(rec, n_id()) && has_attr(rec, n_post_type_id()) && has_attr(rec, n_owner_user_id())
        && has_attr(rec, n_last_editor_user_id()) && attr_value(rec, n_post_type_id()).unwrap()
        == marker_question() {
        let pid = int_literal_value(attr_value(rec, n_id()).unwrap()) as PostId;
        let owner = int_literal_value(attr_value(rec, n_owner_user_id()).unwrap()) as i32;
        let editor = int_literal_value(
            attr_value(rec, n_last_editor_user_id()).unwrap(),
        ) as i32;
        if editor != owner {
            Some((pid, owner))
        } else {
            None
        }
    } else {
        None
    }
}

/// Classifies one scanned record for the ownership filter.
pub fn ownership_classify(rec: &RawRecord) -> (r: Result<Option<(PostId, i32)>, RecordFault>)
    ensures
        r matches Err(f) ==> ownership_fault(rec@) == Some(f),
        r matches Ok(o) ==> ownership_fault(rec@) is None && o == classify_ownership(rec@),
{
    let nid = name_id();
    let ntype = name_post_type_id();
    let nowner = name_owner_user_id();
    let neditor = name_last_editor_user_id();
    let pid: Option<i64> = match find_attr(rec, nid.as_slice()) {
        Some(v) => {
            match parse_i64(v.as_slice()) {
                Some(p) => Some(p),
                None => {
                    return Err(RecordFault::BadNumber);
                }
            }
        }
        None => None,
    };
    let owner: Option<i32> = match find_attr(rec, nowner.as_slice()) {
        Some(v) => {
            match parse_i32(v.as_slice()) {
                Some(p) => Some(p),
                None => {
                    return Err(RecordFault::BadNumber);
                }
            }
        }
        None => None,
    };
    let editor: Option<i32> = match find_attr(rec, neditor.as_slice()) {
        Some(v) => {
            match parse_i32(v.as_slice()) {
                Some(p) => Some(p),
                None => {
                    return Err(RecordFault::BadNumber);
                }
            }
        }
        None => None,
    };
    proof {
        assert(ownership_fault(rec@) is None);
    }
    let tv = match find_attr(rec, ntype.as_slice()) {
        Some(v) => v,
        None => {
            return Ok(None);
        }
    };
    let is_question = tv.len() == 1 && tv[0] == 49;
    proof {
        assert(tv@ == marker_question() <==> (tv@.len() == 1 && tv@[0] == 49u8)) by {
            if tv@.len() == 1 && tv@[0] == 49u8 {
                assert(tv@ =~= marker_question());
            }
        }
    }
    if !is_question {
        return Ok(None);
    }
    match (pid, owner, editor) {
        (Some(p), Some(o), Some(e)) => {
            if e != o {
                Ok(Some((p, o)))
            } else {
                Ok(None)
            }
        }
        _ => Ok(None),
    }
}

/// The index line of one selected record: key and author, tab-separated.
pub open spec fn ownership_line(key: PostId, author: i32) -> Seq<u8> {
    int_repr(key as int) + seq![9u8] + int_repr(author as int)
}

/// Builds one ownership index line.
pub fn build_ownership_line(key: PostId, author: i32) -> (r: Vec<u8>)
    ensures
        r@ == ownership_line(key, author),
{
    let mut line = int_bytes(key);
    line.push(9);
    let mut a = int_bytes(author as i64);
    line.append(&mut a);
    proof {
        assert(line@ =~= ownership_line(key, author));
    }
    line
}

/// The ownership index lines of the first `k` scanned records.
pub open spec fn ownership_upto(rows: Seq<RowModel>, k: int) -> Seq<Seq<u8>>
    decreases k,
{
    if k <= 0 {
        Seq::empty()
    } else {
        let prev = ownership_upto(rows, k - 1);
        if ownership_fault(rows[k - 1].attrs) is Some {
            prev
        } else {
            match classify_ownership(rows[k - 1].attrs) {
                Some(p) => prev.push(ownership_line(p.0, p.1)),
                None => prev,
            }
        }
    }
}

/// The ownership filter over scanned records: one key/author line per
/// selected record, in scan order.  A record with an unreadable number is a
/// fatal condition and stops the run where it stands.
pub fn layer1_filter(rows: &Vec<ScannedRow>) -> (r: Result<Vec<Vec<u8>>, PipelineError>)
    ensures
        r is Ok <==> forall|t: int|
            0 <= t < rows@.len() ==> ownership_fault(#[trigger] row_views(rows@)[t].attrs) is None,
        r matches Ok(lines) ==> byte_views(lines@) == ownership_upto(
            row_views(rows@),
            rows@.len() as int,
        ),
        r matches Err(e) ==> e is MalformedRecord,
{
    let ghost rviews = row_views(rows@);
    let mut out: Vec<Vec<u8>> = Vec::new();
    let mut k: usize = 0;
    while k < rows.len()
        invariant
            k <= rows@.len(),
            rviews == row_views(rows@),
            forall|t: int| 0 <= t < k ==> ownership_fault(#[trigger] rviews[t].attrs) is None,
            byte_views(out@) =~= ownership_upto(rviews, k as int),
        decreases rows@.len() - k,
    {
        let row = &rows[k];
        proof {
            assert(rviews[k as int] == rows@[k as int]@);
        }
        match ownership_classify(&row.rec) {
            Err(_) => {
                proof {
                    assert(ownership_fault(rviews[k as int].attrs) is Some);
                }
                return Err(PipelineError::MalformedRecord { position: row.offset });
            }
            Ok(Some(p)) => {
                let line = build_ownership_line(p.0, p.1);
                let ghost old_out = out@;
                out.push(line);
                k = k + 1;
                proof {
                    assert(byte_views(out@) =~= byte_views(old_out).push(
                        ownership_line(p.0, p.1),
                    ));
                    assert(byte_views(out@) =~= ownership_upto(rviews, k as int));
                }
            }
            Ok(None) => {
                k = k + 1;
                proof {
                    assert(byte_views(out@) =~= ownership_upto(rviews, k as int));
                }
            }
        }
    }
    Ok(out)
}

} // verus!
