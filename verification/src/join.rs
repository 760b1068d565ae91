//! The join engine of the revision-pair stage: a first streaming pass builds
//! a key index with candidate-elimination state, a second pass materialises
//! only the surviving keys by direct seek.

use vstd::prelude::*;

use crate::errors::PipelineError;
use crate::index::seq_key_index;
use crate::index::KeyMap;
use crate::numtext::int_bytes;
use crate::numtext::int_literal_value;
use crate::numtext::int_repr;
use crate::numtext::is_int_literal;
use crate::numtext::parse_i32;
use crate::numtext::parse_i64;
use crate::record::attr_value;
use crate::record::has_attr;
use crate::record::license_25;
use crate::record::license_25_bytes;
use crate::record::license_30;
use crate::record::license_30_bytes;
use crate::record::license_40;
use crate::record::license_40_bytes;
use crate::record::find_attr;
use crate::record::n_content_license;
use crate::record::n_creation_date;
use crate::record::n_post_history_type_id;
use crate::record::n_post_id;
use crate::record::n_text;
use crate::record::n_user_id;
use crate::record::name_content_license;
use crate::record::name_creation_date;
use crate::record::name_post_history_type_id;
use crate::record::name_post_id;
use crate::record::name_text;
use crate::record::name_user_id;
use crate::record::AttrModel;
use crate::record::RawRecord;
use crate::textops::bytes_eq;
use crate::textops::byte_views;
use crate::textops::clone_bytes;
use crate::textops::replace_bytes;
use crate::textops::replace_seq;
use crate::textops::split_bytes;
use crate::textops::split_seq;
use crate::timestamp::is_timestamp_text;
use crate::timestamp::parse_timestamp;
use crate::timestamp::timestamp_of;
use crate::timestamp::format_timestamp;
use crate::timestamp::timestamp_repr;
use crate::timestamp::Timestamp;
use crate::xml::resolve_record;
use crate::xml::ScannedRow;
use crate::PostId;

verus! {

/// The byte offset sentinel of an offset slot not yet set.
pub const UNSET_POSITION: u64 = 0xffff_ffff_ffff_ffff;

/// Per-key mutable state accumulated across a scan.  Once `delete` is set
/// the key is permanently excluded.  An offset slot holds `UNSET_POSITION`
/// until a qualifying record is observed.
#[derive(Clone, Copy, PartialEq, Eq, Structural, Debug)]
pub struct QInfo {
    pub delete: bool,
    pub author_id: i32,
    pub before_position: u64,
    pub after_position: u64,
}

/// What one scanned record means for the key index.
#[derive(Clone, Copy, PartialEq, Eq, Structural, Debug)]
pub enum Layer2ScanFilterAction {
    /// The record is not about a tracked, still-live key, or lacks the checklist.
    Ignore,
    /// The key is rejected for good.
    Delete(PostId),
    /// The key's canonical initial version starts at the scanned offset.
    AddBefore(PostId),
    /// The key's single qualifying edit starts at the scanned offset.
    AddAfter(PostId),
}

/// A per-record dataset-integrity violation found during classification.
#[derive(Clone, Copy, PartialEq, Eq, Structural, Debug)]
pub enum RecordFault {
    /// A numeric attribute that does not spell an integer of its type.
    BadNumber,
    /// A content license outside the allow-listed set.
    BadLicense,
}

/// A content-license value of the allow-listed set.
pub open spec fn license_allowed(v: Seq<u8>) -> bool {
    v == license_25() || v == license_30() || v == license_40()
}

pub fn license_ok(v: &Vec<u8>) -> (r: bool)
    ensures
        r == license_allowed(v@),
{
    let l25 = license_25_bytes();
    let l30 = license_30_bytes();
    let l40 = license_40_bytes();
    bytes_eq(v, &l25) || bytes_eq(v, &l30) || bytes_eq(v, &l40)
}

/// The value spells an integer that fits in `i64`.
pub open spec fn parseable_i64(v: Seq<u8>) -> bool {
    is_int_literal(v) && i64::MIN <= int_literal_value(v) <= i64::MAX
}

/// The value spells an integer that fits in `i32`.
pub open spec fn parseable_i32(v: Seq<u8>) -> bool {
    is_int_literal(v) && i32::MIN <= int_literal_value(v) <= i32::MAX
}

/// The dataset-integrity fault a history record carries, if any: an
/// unreadable key or author, or a disallowed license.  These abort the run
/// whatever else the record holds: the whole attribute set is scanned
/// before any rule passes judgement.
pub open spec fn history_fault(rec: Seq<AttrModel>) -> Option<RecordFault> {
    if attr_value(rec, n_post_id()) matches Some(v) && !parseable_i64(v) {
        Some(RecordFault::BadNumber)
    } else if attr_value(rec, n_user_id()) matches Some(v) && !parseable_i32(v) {
        Some(RecordFault::BadNumber)
    } else if attr_value(rec, n_content_license()) matches Some(v) && !license_allowed(v) {
        Some(RecordFault::BadLicense)
    } else {
        None
    }
}

/// The history-type marker of the canonical initial version.
pub open spec fn marker_original() -> Seq<u8> {
    seq![50u8]
}

/// The history-type marker of a body edit.
pub open spec fn marker_edit() -> Seq<u8> {
    seq![53u8]
}

/// Classifies one history record against the key index.  All five checklist
/// attributes must be present; the record must concern a tracked, still-live
/// key; an initial version records the before offset; an edit by the
/// original author, or a second edit, rejects the key for good.
pub open spec fn classify_history(
    rec: Seq<AttrModel>,
    keys: Seq<PostId>,
    vals: Seq<QInfo>,
) -> Layer2ScanFilterAction
    recommends
        history_fault(rec) is None,
{
    if !(has_attr(rec, n_post_id()) && has_attr(rec, n_post_history_type_id()) && has_attr(
        rec,
        n_content_license(),
    ) && has_attr(rec, n_user_id()) && has_attr(rec, n_text())) {
        Layer2ScanFilterAction::Ignore
    } else {
        let pid = int_literal_value(attr_value(rec, n_post_id()).unwrap()) as PostId;
        let ht = attr_value(rec, n_post_history_type_id()).unwrap();
        if !(ht == marker_original() || ht == marker_edit()) {
            Layer2ScanFilterAction::Ignore
        } else if !keys.contains(pid) {
            Layer2ScanFilterAction::Ignore
        } else if vals[seq_key_index(keys, pid)].delete {
            Layer2ScanFilterAction::Ignore
        } else if ht == marker_original() {
            Layer2ScanFilterAction::AddBefore(pid)
        } else {
            let user = int_literal_value(attr_value(rec, n_user_id()).unwrap()) as i32;
            let entry = vals[seq_key_index(keys, pid)];
            if entry.author_id == user {
                Layer2ScanFilterAction::Delete(pid)
            } else if entry.after_position != UNSET_POSITION {
                Layer2ScanFilterAction::Delete(pid)
            } else {
                Layer2ScanFilterAction::AddAfter(pid)
            }
        }
    }
}

/// Classifies one scanned history record.  A record that carries an
/// unreadable number or a disallowed license is a fatal condition.
pub fn layer2_scan_filter(rec: &RawRecord, l1: &KeyMap<QInfo>) -> (r: Result<
    Layer2ScanFilterAction,
    RecordFault,
>)
    requires
        l1.wf(),
    ensures
        r matches Err(f) ==> history_fault(rec@) == Some(f),
        r matches Ok(a) ==> history_fault(rec@) is None && a == classify_history(
            rec@,
            l1.spec_keys(),
            l1.spec_vals(),
        ),
{
    let name_pid = name_post_id();
    let name_ht = name_post_history_type_id();
    let name_lic = name_content_license();
    let name_uid = name_user_id();
    let name_txt = name_text();

    // Fatal checks come first: the whole attribute set is judged before
    // any filtering rule may discard the record.
    let pid_attr = find_attr(rec, name_pid.as_slice());
    let pid: Option<i64> = match pid_attr {
        Some(v) => {
            match parse_i64(v.as_slice()) {
                Some(p) => Some(p),
                None => {
                    return Err(RecordFault::BadNumber);
                }
            }
        }
        None => None,
    };
    let uid_attr = find_attr(rec, name_uid.as_slice());
    let uid: Option<i32> = match uid_attr {
        Some(v) => {
            match parse_i32(v.as_slice()) {
                Some(u) => Some(u),
                None => {
                    return Err(RecordFault::BadNumber);
                }
            }
        }
        None => None,
    };
    let lic_attr = find_attr(rec, name_lic.as_slice());
    match lic_attr {
        Some(v) => {
            if !license_ok(v) {
                return Err(RecordFault::BadLicense);
            }
        }
        None => {}
    }
    proof {
        assert(history_fault(rec@) is None);
    }
    let ht_attr = find_attr(rec, name_ht.as_slice());
    let has_text = match find_attr(rec, name_txt.as_slice()) {
        Some(_) => true,
        None => false,
    };
    if pid.is_none() || uid.is_none() || lic_attr.is_none() || ht_attr.is_none() || !has_text {
        return Ok(Layer2ScanFilterAction::Ignore);
    }
    let pid = pid.unwrap();
    let uid = uid.unwrap();
    let ht = ht_attr.unwrap();
    let is_original = ht.len() == 1 && ht[0] == 50;
    let is_edit = ht.len() == 1 && ht[0] == 53;
    proof {
        assert(ht@ == marker_original() <==> (ht@.len() == 1 && ht@[0] == 50u8)) by {
            if ht@.len() == 1 && ht@[0] == 50u8 {
                assert(ht@ =~= marker_original());
            }
        }
        assert(ht@ == marker_edit() <==> (ht@.len() == 1 && ht@[0] == 53u8)) by {
            if ht@.len() == 1 && ht@[0] == 53u8 {
                assert(ht@ =~= marker_edit());
            }
        }
    }
    if !is_original && !is_edit {
        return Ok(Layer2ScanFilterAction::Ignore);
    }
    match l1.index_of(pid) {
        None => Ok(Layer2ScanFilterAction::Ignore),
        Some(i) => {
            let entry = *l1.val_at(i);
            if entry.delete {
                Ok(Layer2ScanFilterAction::Ignore)
            } else if is_original {
                Ok(Layer2ScanFilterAction::AddBefore(pid))
            } else if entry.author_id == uid {
                Ok(Layer2ScanFilterAction::Delete(pid))
            } else if entry.after_position != UNSET_POSITION {
                Ok(Layer2ScanFilterAction::Delete(pid))
            } else {
                Ok(Layer2ScanFilterAction::AddAfter(pid))
            }
        }
    }
}


/// The fatal error one record fault raises, at the record's offset.
pub open spec fn fault_error(f: RecordFault, position: u64) -> PipelineError {
    match f {
        RecordFault::BadNumber => PipelineError::MalformedRecord { position },
        RecordFault::BadLicense => PipelineError::DisallowedLicense { position },
    }
}

/// The index values after one action is applied at the scanned offset.
pub open spec fn apply_action(
    keys: Seq<PostId>,
    vals: Seq<QInfo>,
    a: Layer2ScanFilterAction,
    pos: u64,
) -> Seq<QInfo> {
    match a {
        Layer2ScanFilterAction::Ignore => vals,
        Layer2ScanFilterAction::Delete(y) => {
            if keys.contains(y) {
                let i = seq_key_index(keys, y);
                vals.update(i, QInfo { delete: true, ..vals[i] })
            } else {
                vals
            }
        }
        Layer2ScanFilterAction::AddBefore(y) => {
            if keys.contains(y) {
                let i = seq_key_index(keys, y);
                vals.update(i, QInfo { before_position: pos, ..vals[i] })
            } else {
                vals
            }
        }
        Layer2ScanFilterAction::AddAfter(y) => {
            if keys.contains(y) {
                let i = seq_key_index(keys, y);
                vals.update(i, QInfo { after_position: pos, ..vals[i] })
            } else {
                vals
            }
        }
    }
}

/// The index values after the first `k` records are scanned; a record with
/// a fault stops the run, so later records leave no trace.
pub open spec fn scan_history_upto(
    keys: Seq<PostId>,
    vals0: Seq<QInfo>,
    rows: Seq<crate::xml::RowModel>,
    k: int,
) -> Seq<QInfo>
    decreases k,
{
    if k <= 0 {
        vals0
    } else {
        let prev = scan_history_upto(keys, vals0, rows, k - 1);
        if history_fault(rows[k - 1].attrs) is Some {
            prev
        } else {
            apply_action(
                keys,
                prev,
                classify_history(rows[k - 1].attrs, keys, prev),
                rows[k - 1].offset,
            )
        }
    }
}

/// The running survivor tally: keys not yet rejected.
pub open spec fn survivor_count(vals: Seq<QInfo>) -> int
    decreases vals.len(),
{
    if vals.len() == 0 {
        0
    } else {
        survivor_count(vals.drop_last()) + if vals.last().delete {
            0int
        } else {
            1int
        }
    }
}

pub proof fn lemma_survivor_all_live(vals: Seq<QInfo>)
    requires
        forall|i: int| 0 <= i < vals.len() ==> !(#[trigger] vals[i]).delete,
    ensures
        survivor_count(vals) == vals.len(),
    decreases vals.len(),
{
    if vals.len() > 0 {
        assert(forall|i: int|
            0 <= i < vals.drop_last().len() ==> vals.drop_last()[i] == vals[i]);
        lemma_survivor_all_live(vals.drop_last());
    }
}

pub proof fn lemma_survivor_bounds(vals: Seq<QInfo>)
    ensures
        0 <= survivor_count(vals) <= vals.len(),
    decreases vals.len(),
{
    if vals.len() > 0 {
        lemma_survivor_bounds(vals.drop_last());
    }
}

/// A live entry keeps the tally positive.
pub proof fn lemma_survivor_pos(vals: Seq<QInfo>, i: int)
    requires
        0 <= i < vals.len(),
        !vals[i].delete,
    ensures
        survivor_count(vals) >= 1,
    decreases vals.len(),
{
    lemma_survivor_bounds(vals.drop_last());
    if i == vals.len() - 1 {
    } else {
        assert(vals.drop_last()[i] == vals[i]);
        lemma_survivor_pos(vals.drop_last(), i);
    }
}

/// Replacing one entry moves the tally by the difference of the two entries.
pub proof fn lemma_survivor_update(vals: Seq<QInfo>, i: int, v: QInfo)
    requires
        0 <= i < vals.len(),
    ensures
        survivor_count(vals.update(i, v)) == survivor_count(vals) + (if v.delete {
            0int
        } else {
            1int
        }) - (if vals[i].delete {
            0int
        } else {
            1int
        }),
    decreases vals.len(),
{
    let u = vals.update(i, v);
    if i == vals.len() - 1 {
        assert(u.drop_last() =~= vals.drop_last());
        assert(u.last() == v);
    } else {
        assert(u.drop_last() =~= vals.drop_last().update(i, v));
        assert(u.last() == vals.last());
        lemma_survivor_update(vals.drop_last(), i, v);
    }
}

/// No action ever clears a rejection: the `delete` flag of every entry is
/// monotone under the scan.
pub proof fn lemma_apply_preserves_delete(
    keys: Seq<PostId>,
    vals: Seq<QInfo>,
    a: Layer2ScanFilterAction,
    pos: u64,
    i: int,
)
    requires
        vals.len() == keys.len(),
        0 <= i < vals.len(),
        vals[i].delete,
    ensures
        apply_action(keys, vals, a, pos).len() == vals.len(),
        apply_action(keys, vals, a, pos)[i].delete,
{
    match a {
        Layer2ScanFilterAction::Ignore => {}
        Layer2ScanFilterAction::Delete(y) => {
            if keys.contains(y) {
                crate::index::lemma_seq_key_index(keys, y);
            }
        }
        Layer2ScanFilterAction::AddBefore(y) => {
            if keys.contains(y) {
                crate::index::lemma_seq_key_index(keys, y);
            }
        }
        Layer2ScanFilterAction::AddAfter(y) => {
            if keys.contains(y) {
                crate::index::lemma_seq_key_index(keys, y);
            }
        }
    }
}

/// The scan preserves the index's size.
pub proof fn lemma_scan_len(
    keys: Seq<PostId>,
    vals0: Seq<QInfo>,
    rows: Seq<crate::xml::RowModel>,
    k: int,
)
    requires
        vals0.len() == keys.len(),
    ensures
        scan_history_upto(keys, vals0, rows, k).len() == vals0.len(),
    decreases k,
{
    if k > 0 {
        lemma_scan_len(keys, vals0, rows, k - 1);
        let prev = scan_history_upto(keys, vals0, rows, k - 1);
        if !(history_fault(rows[k - 1].attrs) is Some) {
            let a = classify_history(rows[k - 1].attrs, keys, prev);
            match a {
                Layer2ScanFilterAction::Ignore => {}
                Layer2ScanFilterAction::Delete(y) => {
                    if keys.contains(y) {
                        crate::index::lemma_seq_key_index(keys, y);
                    }
                }
                Layer2ScanFilterAction::AddBefore(y) => {
                    if keys.contains(y) {
                        crate::index::lemma_seq_key_index(keys, y);
                    }
                }
                Layer2ScanFilterAction::AddAfter(y) => {
                    if keys.contains(y) {
                        crate::index::lemma_seq_key_index(keys, y);
                    }
                }
            }
        }
    }
}

/// Monotonic rejection: once a key is rejected after some prefix of the
/// scan, no later record re-qualifies it — it stays rejected, and so stays
/// outside the survivor set, after every longer prefix.
pub proof fn lemma_rejection_monotonic(
    keys: Seq<PostId>,
    vals0: Seq<QInfo>,
    rows: Seq<crate::xml::RowModel>,
    k1: int,
    k2: int,
    key: PostId,
)
    requires
        0 <= k1 <= k2,
        keys.contains(key),
        vals0.len() == keys.len(),
        scan_history_upto(keys, vals0, rows, k1)[seq_key_index(keys, key)].delete,
    ensures
        scan_history_upto(keys, vals0, rows, k2)[seq_key_index(keys, key)].delete,
    decreases k2 - k1,
{
    crate::index::lemma_seq_key_index(keys, key);
    if k2 > k1 {
        lemma_rejection_monotonic(keys, vals0, rows, k1, k2 - 1, key);
        let prev = scan_history_upto(keys, vals0, rows, k2 - 1);
        lemma_scan_len(keys, vals0, rows, k2 - 1);
        if !(history_fault(rows[k2 - 1].attrs) is Some) {
            lemma_apply_preserves_delete(
                keys,
                prev,
                classify_history(rows[k2 - 1].attrs, keys, prev),
                rows[k2 - 1].offset,
                seq_key_index(keys, key),
            );
        }
    }
}

/// First streaming pass: classifies every scanned record and refines the key
/// index in place, keeping the running survivor tally.  A record fault is
/// fatal and stops the scan where it stands.
pub fn layer2_scan(rows: &Vec<ScannedRow>, l1: &mut KeyMap<QInfo>) -> (r: Result<
    u64,
    PipelineError,
>)
    requires
        old(l1).wf(),
        forall|i: int|
            0 <= i < old(l1).spec_vals().len() ==> !(#[trigger] old(l1).spec_vals()[i]).delete,
    ensures
        final(l1).wf(),
        final(l1).spec_keys() == old(l1).spec_keys(),
        r matches Ok(count) ==> {
            &&& forall|t: int|
                0 <= t < rows@.len() ==> history_fault(
                    #[trigger] crate::xml::row_views(rows@)[t].attrs,
                ) is None
            &&& final(l1).spec_vals() == scan_history_upto(
                old(l1).spec_keys(),
                old(l1).spec_vals(),
                crate::xml::row_views(rows@),
                rows@.len() as int,
            )
            &&& count == survivor_count(final(l1).spec_vals())
        },
        r matches Err(e) ==> exists|f: int|
            {
                &&& 0 <= f < rows@.len()
                &&& history_fault(#[trigger] crate::xml::row_views(rows@)[f].attrs) is Some
                &&& e == fault_error(
                    history_fault(crate::xml::row_views(rows@)[f].attrs).unwrap(),
                    crate::xml::row_views(rows@)[f].offset,
                )
                &&& final(l1).spec_vals() == scan_history_upto(
                    old(l1).spec_keys(),
                    old(l1).spec_vals(),
                    crate::xml::row_views(rows@),
                    f,
                )
            },
{
    let ghost keys0 = old(l1).spec_keys();
    let ghost vals0 = old(l1).spec_vals();
    let ghost rviews = crate::xml::row_views(rows@);
    let mut total: u64 = l1.len() as u64;
    proof {
        lemma_survivor_all_live(vals0);
    }
    let mut k: usize = 0;
    while k < rows.len()
        invariant
            k <= rows@.len(),
            l1.wf(),
            keys0 == old(l1).spec_keys(),
            vals0 == old(l1).spec_vals(),
            l1.spec_keys() == keys0,
            vals0.len() == keys0.len(),
            rviews == crate::xml::row_views(rows@),
            forall|t: int| 0 <= t < k ==> history_fault(#[trigger] rviews[t].attrs) is None,
            l1.spec_vals() == scan_history_upto(keys0, vals0, rviews, k as int),
            total == survivor_count(l1.spec_vals()),
        decreases rows@.len() - k,
    {
        let ghost prev = l1.spec_vals();
        proof {
            assert(rviews[k as int] == rows@[k as int]@);
            assert(scan_history_upto(keys0, vals0, rviews, k as int + 1) == (
            if history_fault(rviews[k as int].attrs) is Some {
                prev
            } else {
                apply_action(
                    keys0,
                    prev,
                    classify_history(rviews[k as int].attrs, keys0, prev),
                    rviews[k as int].offset,
                )
            }));
        }
        let row = &rows[k];
        match layer2_scan_filter(&row.rec, l1) {
            Err(f) => {
                proof {
                    assert(history_fault(rviews[k as int].attrs) == Some(f));
                }
                return Err(match f {
                    RecordFault::BadNumber => PipelineError::MalformedRecord {
                        position: row.offset,
                    },
                    RecordFault::BadLicense => PipelineError::DisallowedLicense {
                        position: row.offset,
                    },
                });
            }
            Ok(a) => {
                proof {
                    assert(history_fault(rviews[k as int].attrs) is None);
                    assert(a == classify_history(rviews[k as int].attrs, keys0, prev));
                }
                match a {
                    Layer2ScanFilterAction::Ignore => {}
                    Layer2ScanFilterAction::Delete(y) => {
                        let i = match l1.index_of(y) {
                            Some(i) => i,
                            None => {
                                proof {
                                    assert(false);
                                }
                                return Err(PipelineError::MalformedRecord { position: 0 });
                            }
                        };
                        let entry = *l1.val_at(i);
                        proof {
                            assert(!entry.delete);
                            lemma_survivor_update(prev, i as int, QInfo { delete: true, ..entry });
                            lemma_survivor_pos(prev, i as int);
                        }
                        l1.set_at(i, QInfo { delete: true, ..entry });
                        total = total - 1;
                    }
                    Layer2ScanFilterAction::AddBefore(y) => {
                        let i = match l1.index_of(y) {
                            Some(i) => i,
                            None => {
                                proof {
                                    assert(false);
                                }
                                return Err(PipelineError::MalformedRecord { position: 0 });
                            }
                        };
                        let entry = *l1.val_at(i);
                        proof {
                            lemma_survivor_update(
                                prev,
                                i as int,
                                QInfo { before_position: row.offset, ..entry },
                            );
                        }
                        l1.set_at(i, QInfo { before_position: row.offset, ..entry });
                    }
                    Layer2ScanFilterAction::AddAfter(y) => {
                        let i = match l1.index_of(y) {
                            Some(i) => i,
                            None => {
                                proof {
                                    assert(false);
                                }
                                return Err(PipelineError::MalformedRecord { position: 0 });
                            }
                        };
                        let entry = *l1.val_at(i);
                        proof {
                            lemma_survivor_update(
                                prev,
                                i as int,
                                QInfo { after_position: row.offset, ..entry },
                            );
                        }
                        l1.set_at(i, QInfo { after_position: row.offset, ..entry });
                    }
                }
            }
        }
        k = k + 1;
    }
    Ok(total)
}


/// A well-formed ownership line: a key and an author, tab-separated.
pub open spec fn ownership_line_ok(line: Seq<u8>) -> bool {
    &&& split_seq(line, 9).len() == 2
    &&& parseable_i64(split_seq(line, 9)[0])
    &&& parseable_i32(split_seq(line, 9)[1])
}

/// The author recorded by the last ownership line for `k` among the first
/// `upto` lines; a key listed twice keeps the later author.
pub open spec fn own_author(lines: Seq<Seq<u8>>, upto: int, k: PostId) -> Option<i32>
    decreases upto,
{
    if upto <= 0 {
        None
    } else {
        let fs = split_seq(lines[upto - 1], 9);
        if ownership_line_ok(lines[upto - 1]) && int_literal_value(fs[0]) == k {
            Some(int_literal_value(fs[1]) as i32)
        } else {
            own_author(lines, upto - 1, k)
        }
    }
}

/// The fresh per-key state the ownership stage seeds.
pub open spec fn seeded(author: i32) -> QInfo {
    QInfo {
        delete: false,
        author_id: author,
        before_position: UNSET_POSITION,
        after_position: UNSET_POSITION,
    }
}

/// Loads the ownership index: one key and author per line, a repeated key
/// keeping the later line's author.  A line without the two fields is fatal.
pub fn load_layer_1(lines: &Vec<Vec<u8>>) -> (r: Result<KeyMap<QInfo>, PipelineError>)
    ensures
        r is Ok <==> forall|t: int|
            0 <= t < lines@.len() ==> ownership_line_ok(#[trigger] byte_views(lines@)[t]),
        r matches Ok(m) ==> {
            &&& m.wf()
            &&& forall|i: int| 0 <= i < m.spec_vals().len() ==> !(#[trigger] m.spec_vals()[i]).delete
            &&& forall|k: PostId|
                m.has_key(k) <==> #[trigger] own_author(
                    byte_views(lines@),
                    lines@.len() as int,
                    k,
                ) is Some
            &&& forall|k: PostId|
                #[trigger] own_author(byte_views(lines@), lines@.len() as int, k) matches Some(a)
                    ==> m.has_key(k) && m.spec_value(k) == seeded(a)
        },
        r matches Err(e) ==> e matches PipelineError::MalformedLine { line } && 0 <= line
            < lines@.len() && !ownership_line_ok(byte_views(lines@)[line as int]) && (forall|t: int|
            0 <= t < line ==> ownership_line_ok(#[trigger] byte_views(lines@)[t])),
{
    let ghost lviews = byte_views(lines@);
    let mut m: KeyMap<QInfo> = KeyMap::new();
    let mut i: usize = 0;
    while i < lines.len()
        invariant
            i <= lines@.len(),
            lviews == byte_views(lines@),
            m.wf(),
            forall|t: int| 0 <= t < i ==> ownership_line_ok(#[trigger] lviews[t]),
            forall|j: int| 0 <= j < m.spec_vals().len() ==> !(#[trigger] m.spec_vals()[j]).delete,
            forall|k: PostId| m.has_key(k) <==> #[trigger] own_author(lviews, i as int, k) is Some,
            forall|k: PostId|
                #[trigger] own_author(lviews, i as int, k) matches Some(a) ==> m.has_key(k)
                    && m.spec_value(k) == seeded(a),
        decreases lines@.len() - i,
    {
        let fields = split_bytes(lines[i].as_slice(), 9);
        proof {
            assert(byte_views(fields@) == split_seq(lviews[i as int], 9));
            assert(byte_views(fields@).len() == fields@.len());
        }
        if fields.len() != 2 {
            return Err(PipelineError::MalformedLine { line: i });
        }
        proof {
            assert(byte_views(fields@)[0] == fields@[0]@);
            assert(byte_views(fields@)[1] == fields@[1]@);
        }
        let key = match parse_i64(fields[0].as_slice()) {
            Some(k) => k,
            None => {
                return Err(PipelineError::MalformedLine { line: i });
            }
        };
        let author = match parse_i32(fields[1].as_slice()) {
            Some(a) => a,
            None => {
                return Err(PipelineError::MalformedLine { line: i });
            }
        };
        proof {
            assert(ownership_line_ok(lviews[i as int]));
        }
        let ghost old_m = *&m;
        m.insert(
            key,
            QInfo {
                delete: false,
                author_id: author,
                before_position: UNSET_POSITION,
                after_position: UNSET_POSITION,
            },
        );
        proof {
            assert(QInfo {
                delete: false,
                author_id: author,
                before_position: UNSET_POSITION,
                after_position: UNSET_POSITION,
            } == seeded(author));
        }
        i = i + 1;
        proof {
            assert forall|k: PostId|
                m.has_key(k) <==> #[trigger] own_author(lviews, i as int, k) is Some by {
                if k == key {
                    assert(own_author(lviews, i as int, k) is Some);
                } else {
                    assert(own_author(lviews, i as int, k) == own_author(
                        lviews,
                        i as int - 1,
                        k,
                    ));
                }
            }
            assert forall|k: PostId|
                #[trigger] own_author(lviews, i as int, k) is Some implies m.has_key(k)
                    && m.spec_value(k) == seeded(own_author(lviews, i as int, k).unwrap()) by {
                if k == key {
                    assert(own_author(lviews, i as int, k) == Some(author));
                    assert(m.spec_value(k) == seeded(author));
                } else {
                    assert(own_author(lviews, i as int, k) == own_author(
                        lviews,
                        i as int - 1,
                        k,
                    ));
                }
            }
            assert forall|j: int|
                0 <= j < m.spec_vals().len() implies !(#[trigger] m.spec_vals()[j]).delete by {
                let k2 = m.spec_keys()[j];
                assert(m.spec_keys().contains(k2));
                crate::index::lemma_key_index_at(m.spec_keys(), k2, j);
                assert(m.spec_value(k2) == m.spec_vals()[j]);
                if k2 == key {
                    assert(m.spec_value(k2) == seeded(author));
                } else {
                    assert(old_m.has_key(k2));
                    assert(m.spec_value(k2) == old_m.spec_value(k2));
                    crate::index::lemma_seq_key_index(old_m.spec_keys(), k2);
                }
            }
        }
    }
    Ok(m)
}

/// The resolved form of one revision record.
pub struct Revision {
    pub date: Timestamp,
    pub text: Vec<u8>,
}

/// The mathematical form of one resolved revision.
pub ghost struct RevisionModel {
    pub date: Timestamp,
    pub text: Seq<u8>,
}

impl View for Revision {
    type V = RevisionModel;

    open spec fn view(&self) -> RevisionModel {
        RevisionModel { date: self.date, text: self.text@ }
    }
}

/// The revision fields a record spells: the free text (an absent body is
/// legitimately empty, never an error) and the creation instant; a record
/// without a readable instant yields nothing, and its pair is dropped.
pub open spec fn revision_of(rec: Seq<AttrModel>) -> Option<RevisionModel> {
    let text = match attr_value(rec, n_text()) {
        Some(v) => v,
        None => Seq::<u8>::empty(),
    };
    match attr_value(rec, n_creation_date()) {
        Some(d) => if is_timestamp_text(d) && timestamp_of(d).valid() {
            Some(RevisionModel { date: timestamp_of(d), text })
        } else {
            None
        },
        None => None,
    }
}

/// Extracts the revision fields from a resolved record.
pub fn extract_revision(rec: &RawRecord) -> (r: Option<Revision>)
    ensures
        r is Some <==> revision_of(rec@) is Some,
        r matches Some(v) ==> revision_of(rec@) == Some(v@) && v@.date.valid(),
{
    let name_txt = name_text();
    let name_date = name_creation_date();
    let text: Vec<u8> = match find_attr(rec, name_txt.as_slice()) {
        Some(v) => clone_bytes(v),
        None => Vec::new(),
    };
    match find_attr(rec, name_date.as_slice()) {
        Some(d) => {
            match parse_timestamp(d.as_slice()) {
                Some(ts) => Some(Revision { date: ts, text }),
                None => None,
            }
        }
        None => None,
    }
}

/// What resolving one retained offset yields for the join: the revision
/// fields of the record its line decodes to; a record without a readable
/// instant yields nothing, so its pair is dropped, not an error.
pub open spec fn load_revision_spec(doc: Seq<u8>, position: u64) -> Result<
    Option<RevisionModel>,
    PipelineError,
> {
    match crate::xml::resolved_record_spec(doc, position) {
        Err(e) => Err(e),
        Ok(rec) => Ok(revision_of(rec)),
    }
}

/// Resolves the record at a retained offset and extracts its revision fields.
pub fn layer2_load_revision(doc: &[u8], position: u64) -> (r: Result<
    Option<Revision>,
    PipelineError,
>)
    ensures
        r matches Ok(o) ==> load_revision_spec(doc@, position) == Ok::<_, PipelineError>(
            match o {
                Some(v) => Some(v@),
                None => None::<RevisionModel>,
            },
        ),
        r matches Ok(o) ==> o matches Some(v) ==> v@.date.valid(),
        r matches Err(e) ==> load_revision_spec(doc@, position) == Err::<
            Option<RevisionModel>,
            _,
        >(e),
{
    match resolve_record(doc, position) {
        Err(e) => Err(e),
        Ok(rec) => {
            let out = extract_revision(&rec);
            proof {
                assert(out matches Some(v) ==> revision_of(rec@) == Some(v@) && v@.date.valid());
            }
            Ok(out)
        }
    }
}

/// A survivor's joined output line: key, detabulated before-text, before
/// instant, detabulated after-text, after instant, tab-separated.  Tabs
/// inside the texts become spaces so the columns stay intact.
pub open spec fn pair_line(key: PostId, b: RevisionModel, a: RevisionModel) -> Seq<u8> {
    int_repr(key as int) + seq![9u8] + replace_seq(b.text, seq![9u8], seq![32u8]) + seq![9u8]
        + timestamp_repr(b.date) + seq![9u8] + replace_seq(a.text, seq![9u8], seq![32u8]) + seq![
        9u8,
    ] + timestamp_repr(a.date)
}

fn tab_bytes() -> (r: Vec<u8>)
    ensures
        r@ == seq![9u8],
{
    let mut r: Vec<u8> = Vec::new();
    r.push(9);
    proof {
        assert(r@ =~= seq![9u8]);
    }
    r
}

fn space_bytes() -> (r: Vec<u8>)
    ensures
        r@ == seq![32u8],
{
    let mut r: Vec<u8> = Vec::new();
    r.push(32);
    proof {
        assert(r@ =~= seq![32u8]);
    }
    r
}

/// Builds one joined output line.
fn build_pair_line(key: PostId, b: &Revision, a: &Revision) -> (r: Vec<u8>)
    requires
        b.date.valid(),
        a.date.valid(),
    ensures
        r@ == pair_line(key, b@, a@),
{
    let tab = tab_bytes();
    let space = space_bytes();
    let mut line = int_bytes(key);
    line.push(9);
    let mut tb = replace_bytes(b.text.as_slice(), tab.as_slice(), space.as_slice());
    line.append(&mut tb);
    line.push(9);
    let mut db = format_timestamp(&b.date);
    line.append(&mut db);
    line.push(9);
    let mut ta = replace_bytes(a.text.as_slice(), tab.as_slice(), space.as_slice());
    line.append(&mut ta);
    line.push(9);
    let mut da = format_timestamp(&a.date);
    line.append(&mut da);
    proof {
        assert(line@ =~= pair_line(key, b@, a@));
    }
    line
}

/// The line is a joined pair of some survivor of the index: a key neither
/// rejected nor missing either offset.
pub open spec fn line_from_survivor(line: Seq<u8>, keys: Seq<PostId>, vals: Seq<QInfo>) -> bool {
    exists|j: int, b: RevisionModel, a: RevisionModel|
        {
            &&& 0 <= j < keys.len()
            &&& j < vals.len()
            &&& !vals[j].delete
            &&& vals[j].before_position != UNSET_POSITION
            &&& vals[j].after_position != UNSET_POSITION
            &&& b.date.valid()
            &&& a.date.valid()
            &&& line == pair_line(keys[j], b, a)
        }
}

/// The joined output lines of the first `i` index entries: one line per
/// surviving key whose two retained offsets both resolve with readable
/// instants, in ascending key order, each key at most once.  A key that is
/// rejected, misses an offset, or resolves without an instant contributes
/// nothing; the before offset is resolved first and the after offset only
/// when the before one yielded a revision — never speculatively.
pub open spec fn generate_upto(
    doc: Seq<u8>,
    keys: Seq<PostId>,
    vals: Seq<QInfo>,
    i: int,
) -> Result<Seq<Seq<u8>>, PipelineError>
    decreases i,
{
    if i <= 0 {
        Ok(Seq::empty())
    } else {
        match generate_upto(doc, keys, vals, i - 1) {
            Err(e) => Err(e),
            Ok(lines) => {
                let q = vals[i - 1];
                if q.delete || q.before_position == UNSET_POSITION || q.after_position
                    == UNSET_POSITION {
                    Ok(lines)
                } else {
                    match load_revision_spec(doc, q.before_position) {
                        Err(e) => Err(e),
                        Ok(None) => Ok(lines),
                        Ok(Some(b)) => match load_revision_spec(doc, q.after_position) {
                            Err(e) => Err(e),
                            Ok(None) => Ok(lines),
                            Ok(Some(a)) => Ok(lines.push(pair_line(keys[i - 1], b, a))),
                        },
                    }
                }
            }
        }
    }
}

/// A failed prefix decides the whole second pass.
pub proof fn lemma_generate_upto_err_stable(
    doc: Seq<u8>,
    keys: Seq<PostId>,
    vals: Seq<QInfo>,
    k1: int,
    k2: int,
)
    requires
        0 <= k1 <= k2,
        generate_upto(doc, keys, vals, k1) is Err,
    ensures
        generate_upto(doc, keys, vals, k2) == generate_upto(doc, keys, vals, k1),
    decreases k2 - k1,
{
    if k2 > k1 {
        lemma_generate_upto_err_stable(doc, keys, vals, k1, k2 - 1);
    }
}

/// Second pass: walks the index in ascending key order and materialises only
/// the surviving keys, seeking each retained offset once, never speculatively.
/// A key that is rejected, misses either offset, or resolves without a
/// readable instant is dropped, not an error.
pub fn layer2_generate(doc: &[u8], l1: &KeyMap<QInfo>) -> (r: Result<Vec<Vec<u8>>, PipelineError>)
    requires
        l1.wf(),
    ensures
        r matches Ok(lines) ==> generate_upto(
            doc@,
            l1.spec_keys(),
            l1.spec_vals(),
            l1.spec_len() as int,
        ) == Ok::<_, PipelineError>(byte_views(lines@)),
        r matches Err(e) ==> generate_upto(
            doc@,
            l1.spec_keys(),
            l1.spec_vals(),
            l1.spec_len() as int,
        ) == Err::<Seq<Seq<u8>>, _>(e),
        r matches Ok(lines) ==> forall|t: int|
            0 <= t < lines@.len() ==> line_from_survivor(
                #[trigger] byte_views(lines@)[t],
                l1.spec_keys(),
                l1.spec_vals(),
            ),
{
    let ghost keys = l1.spec_keys();
    let ghost vals = l1.spec_vals();
    let mut out: Vec<Vec<u8>> = Vec::new();
    let mut i: usize = 0;
    let n = l1.len();
    proof {
        assert(byte_views(out@) =~= Seq::<Seq<u8>>::empty());
    }
    while i < n
        invariant
            i <= n,
            n == l1.spec_len(),
            l1.wf(),
            keys == l1.spec_keys(),
            vals == l1.spec_vals(),
            generate_upto(doc@, keys, vals, i as int) == Ok::<_, PipelineError>(byte_views(out@)),
            forall|t: int|
                0 <= t < out@.len() ==> line_from_survivor(
                    #[trigger] byte_views(out@)[t],
                    keys,
                    vals,
                ),
        decreases n - i,
    {
        let key = l1.key_at(i);
        let q = *l1.val_at(i);
        if !(q.delete || q.before_position == UNSET_POSITION || q.after_position
            == UNSET_POSITION) {
            let before = match layer2_load_revision(doc, q.before_position) {
                Err(e) => {
                    proof {
                        assert(generate_upto(doc@, keys, vals, i + 1) == Err::<Seq<Seq<u8>>, _>(
                            e,
                        ));
                        lemma_generate_upto_err_stable(doc@, keys, vals, i + 1, n as int);
                    }
                    return Err(e);
                }
                Ok(o) => o,
            };
            match before {
                None => {
                    proof {
                        assert(generate_upto(doc@, keys, vals, i + 1) == Ok::<_, PipelineError>(
                            byte_views(out@),
                        ));
                    }
                }
                Some(b) => {
                    let after = match layer2_load_revision(doc, q.after_position) {
                        Err(e) => {
                            proof {
                                assert(generate_upto(doc@, keys, vals, i + 1) == Err::<
                                    Seq<Seq<u8>>,
                                    _,
                                >(e));
                                lemma_generate_upto_err_stable(doc@, keys, vals, i + 1, n as int);
                            }
                            return Err(e);
                        }
                        Ok(o) => o,
                    };
                    match after {
                        None => {
                            proof {
                                assert(generate_upto(doc@, keys, vals, i + 1) == Ok::<
                                    _,
                                    PipelineError,
                                >(byte_views(out@)));
                            }
                        }
                        Some(a) => {
                            let line = build_pair_line(key, &b, &a);
                            let ghost old_out = out@;
                            proof {
                                assert(line_from_survivor(line@, keys, vals)) by {
                                    assert({
                                        &&& 0 <= (i as int) < keys.len()
                                        &&& (i as int) < vals.len()
                                        &&& !vals[i as int].delete
                                        &&& vals[i as int].before_position != UNSET_POSITION
                                        &&& vals[i as int].after_position != UNSET_POSITION
                                        &&& b@.date.valid()
                                        &&& a@.date.valid()
                                        &&& line@ == pair_line(keys[i as int], b@, a@)
                                    });
                                }
                            }
                            out.push(line);
                            proof {
                                assert(byte_views(out@) =~= byte_views(old_out).push(line@));
                                assert(generate_upto(doc@, keys, vals, i + 1) == Ok::<
                                    _,
                                    PipelineError,
                                >(byte_views(out@)));
                                assert forall|t: int|
                                    0 <= t < out@.len() implies line_from_survivor(
                                    #[trigger] byte_views(out@)[t],
                                    keys,
                                    vals,
                                ) by {
                                    if t < old_out.len() {
                                        assert(byte_views(out@)[t] == byte_views(old_out)[t]);
                                    } else {
                                        assert(byte_views(out@)[t] == line@);
                                    }
                                }
                            }
                        }
                    }
                }
            }
        } else {
            proof {
                assert(generate_upto(doc@, keys, vals, i + 1) == Ok::<_, PipelineError>(
                    byte_views(out@),
                ));
            }
        }
        i = i + 1;
    }
    Ok(out)
}

/// The line is a joined pair of some key and two resolved revisions.
pub open spec fn is_pair_line(line: Seq<u8>) -> bool {
    exists|key: PostId, b: RevisionModel, a: RevisionModel| line == pair_line(key, b, a)
}

/// `m` is the index the ownership lines load: one entry per listed key,
/// seeded with the last listed author, nothing rejected, no offset set.
pub open spec fn loaded_ownership(m: KeyMap<QInfo>, lines: Seq<Seq<u8>>) -> bool {
    &&& m.wf()
    &&& forall|k: PostId|
        m.has_key(k) <==> #[trigger] own_author(lines, lines.len() as int, k) is Some
    &&& forall|k: PostId|
        #[trigger] own_author(lines, lines.len() as int, k) is Some ==> m.spec_value(k) == seeded(
            own_author(lines, lines.len() as int, k).unwrap(),
        )
}

/// The whole revision-join stage on one in-memory history dump: seeds the
/// key index from the ownership lines, refines it in a single streaming
/// pass, then materialises the survivors in a second pass.  Every emitted
/// line is a tab-separated joined pair.
pub fn layer2_filter(doc: &[u8], ownership: &Vec<Vec<u8>>) -> (r: Result<
    Vec<Vec<u8>>,
    PipelineError,
>)
    ensures
        r matches Ok(lines) ==> exists|m: KeyMap<QInfo>, rows: Seq<crate::xml::RowModel>|
            {
                &&& loaded_ownership(m, byte_views(ownership@))
                &&& crate::xml::scan_rows_spec(doc@) == Ok::<_, PipelineError>(rows)
                &&& (forall|t: int|
                    0 <= t < rows.len() ==> history_fault(#[trigger] rows[t].attrs) is None)
                &&& generate_upto(
                    doc@,
                    m.spec_keys(),
                    scan_history_upto(m.spec_keys(), m.spec_vals(), rows, rows.len() as int),
                    m.spec_len() as int,
                ) == Ok::<_, PipelineError>(byte_views(lines@))
            },
        r matches Ok(lines) ==> forall|t: int|
            0 <= t < lines@.len() ==> is_pair_line(#[trigger] byte_views(lines@)[t]),
{
    let mut l1 = match load_layer_1(ownership) {
        Err(e) => {
            return Err(e);
        }
        Ok(m) => m,
    };
    let ghost m0 = *&l1;
    let rows = match crate::xml::scan_rows(doc) {
        Err(e) => {
            return Err(e);
        }
        Ok(v) => v,
    };
    match layer2_scan(&rows, &mut l1) {
        Err(e) => {
            return Err(e);
        }
        Ok(_) => {}
    }
    let out = match layer2_generate(doc, &l1) {
        Err(e) => {
            return Err(e);
        }
        Ok(v) => v,
    };
    proof {
        assert(loaded_ownership(m0, byte_views(ownership@)));
        assert(l1.spec_keys() == m0.spec_keys());
        assert(l1.spec_vals() == scan_history_upto(
            m0.spec_keys(),
            m0.spec_vals(),
            crate::xml::row_views(rows@),
            rows@.len() as int,
        ));
        assert(generate_upto(
            doc@,
            m0.spec_keys(),
            scan_history_upto(
                m0.spec_keys(),
                m0.spec_vals(),
                crate::xml::row_views(rows@),
                rows@.len() as int,
            ),
            m0.spec_len() as int,
        ) == Ok::<_, PipelineError>(byte_views(out@)));
        let rv = crate::xml::row_views(rows@);
        assert({
            &&& loaded_ownership(m0, byte_views(ownership@))
            &&& crate::xml::scan_rows_spec(doc@) == Ok::<_, PipelineError>(rv)
            &&& (forall|t: int|
                0 <= t < rv.len() ==> history_fault(#[trigger] rv[t].attrs) is None)
            &&& generate_upto(
                doc@,
                m0.spec_keys(),
                scan_history_upto(m0.spec_keys(), m0.spec_vals(), rv, rv.len() as int),
                m0.spec_len() as int,
            ) == Ok::<_, PipelineError>(byte_views(out@))
        });
        assert(exists|m: KeyMap<QInfo>, rows2: Seq<crate::xml::RowModel>|
            {
                &&& loaded_ownership(m, byte_views(ownership@))
                &&& crate::xml::scan_rows_spec(doc@) == Ok::<_, PipelineError>(rows2)
                &&& (forall|t: int|
                    0 <= t < rows2.len() ==> history_fault(#[trigger] rows2[t].attrs) is None)
                &&& generate_upto(
                    doc@,
                    m.spec_keys(),
                    scan_history_upto(m.spec_keys(), m.spec_vals(), rows2, rows2.len() as int),
                    m.spec_len() as int,
                ) == Ok::<_, PipelineError>(byte_views(out@))
            });
    }
    proof {
        assert forall|t: int|
            0 <= t < out@.len() implies is_pair_line(#[trigger] byte_views(out@)[t]) by {
            let (j, b, a) = choose|j: int, b: RevisionModel, a: RevisionModel|
                {
                    &&& 0 <= j < l1.spec_keys().len()
                    &&& j < l1.spec_vals().len()
                    &&& !l1.spec_vals()[j].delete
                    &&& l1.spec_vals()[j].before_position != UNSET_POSITION
                    &&& l1.spec_vals()[j].after_position != UNSET_POSITION
                    &&& byte_views(out@)[t] == pair_line(l1.spec_keys()[j], b, a)
                };
            assert(byte_views(out@)[t] == pair_line(l1.spec_keys()[j], b, a));
        }
    }
    Ok(out)
}

} // verus!
