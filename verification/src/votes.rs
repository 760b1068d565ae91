//! The vote tabulation stage: a second independent scan keyed by the same
//! identifier space, counting up- and down-votes strictly before and strictly
//! after each key's stored edit day.  A vote on the edit's own calendar day
//! falls in neither bucket.

use vstd::prelude::*;

use crate::errors::PipelineError;
use crate::index::seq_key_index;
use crate::index::KeyMap;
use crate::join::fault_error;
use crate::join::parseable_i64;
use crate::join::RecordFault;
use crate::numtext::dec_bytes;
use crate::numtext::dec_repr;
use crate::numtext::int_bytes;
use crate::numtext::int_literal_value;
use crate::numtext::int_repr;
use crate::numtext::parse_i64;
use crate::record::attr_value;
use crate::record::find_attr;
use crate::record::has_attr;
use crate::record::n_creation_date;
use crate::record::n_post_id;
use crate::record::n_vote_type_id;
use crate::record::name_creation_date;
use crate::record::name_post_id;
use crate::record::name_vote_type_id;
use crate::record::AttrModel;
use crate::record::RawRecord;
use crate::textops::byte_views;
use crate::textops::split_bytes;
use crate::textops::split_seq;
use crate::timestamp::compare_day;
use crate::timestamp::day_lt;
use crate::timestamp::is_timestamp_text;
use crate::timestamp::parse_timestamp;
use crate::timestamp::timestamp_of;
use crate::timestamp::DayOrder;
use crate::timestamp::Timestamp;
use crate::xml::row_views;
use crate::xml::RowModel;
use crate::xml::ScannedRow;
use crate::PostId;

verus! {

/// Per-key vote tallies around the stored edit instant.
#[derive(Clone, Copy, PartialEq, Eq, Structural, Debug)]
pub struct VCounter {
    pub edit_time: Timestamp,
    pub up_before: u64,
    pub down_before: u64,
    pub up_after: u64,
    pub down_after: u64,
}

/// The vote-type marker of an up-vote.
pub open spec fn marker_up() -> Seq<u8> {
    seq![50u8]
}

/// The vote-type marker of a down-vote.
pub open spec fn marker_down() -> Seq<u8> {
    seq![51u8]
}

/// A well-formed joined-pairs line for this stage: the key in the first
/// field and the edit instant in the last.
pub open spec fn vote_index_line_ok(line: Seq<u8>) -> bool {
    &&& split_seq(line, 9).len() >= 2
    &&& parseable_i64(split_seq(line, 9)[0])
    &&& is_timestamp_text(split_seq(line, 9).last())
    &&& timestamp_of(split_seq(line, 9).last()).valid()
}

/// The edit instant recorded by the last well-formed line for `k` among the
/// first `upto` lines.
pub open spec fn edit_time_of(lines: Seq<Seq<u8>>, upto: int, k: PostId) -> Option<Timestamp>
    decreases upto,
{
    if upto <= 0 {
        None
    } else {
        let fs = split_seq(lines[upto - 1], 9);
        if vote_index_line_ok(lines[upto - 1]) && int_literal_value(fs[0]) == k {
            Some(timestamp_of(fs.last()))
        } else {
            edit_time_of(lines, upto - 1, k)
        }
    }
}

/// The zeroed tallies around an edit instant.
pub open spec fn fresh_counter(t: Timestamp) -> VCounter {
    VCounter { edit_time: t, up_before: 0, down_before: 0, up_after: 0, down_after: 0 }
}

/// Loads the joined-pairs index for tabulation: key from the first field,
/// edit instant from the last.  A line without both is a fatal condition.
pub fn layer3_load_l2_indices(lines: &Vec<Vec<u8>>) -> (r: Result<KeyMap<VCounter>, PipelineError>)
    ensures
        r is Ok <==> forall|t: int|
            0 <= t < lines@.len() ==> vote_index_line_ok(#[trigger] byte_views(lines@)[t]),
        r matches Ok(m) ==> {
            &&& m.wf()
            &&& forall|k: PostId|
                m.has_key(k) <==> #[trigger] edit_time_of(
                    byte_views(lines@),
                    lines@.len() as int,
                    k,
                ) is Some
            &&& forall|k: PostId|
                #[trigger] edit_time_of(byte_views(lines@), lines@.len() as int, k) is Some
                    ==> m.has_key(k) && m.spec_value(k) == fresh_counter(
                    edit_time_of(byte_views(lines@), lines@.len() as int, k).unwrap(),
                )
        },
        r matches Err(e) ==> e matches PipelineError::MalformedLine { line } && 0 <= line
            < lines@.len() && !vote_index_line_ok(byte_views(lines@)[line as int]) && (forall|
            t: int,
        |
            0 <= t < line ==> vote_index_line_ok(#[trigger] byte_views(lines@)[t])),
{
    let ghost lviews = byte_views(lines@);
    let mut m: KeyMap<VCounter> = KeyMap::new();
    let mut i: usize = 0;
    while i < lines.len()
        invariant
            i <= lines@.len(),
            lviews == byte_views(lines@),
            m.wf(),
            forall|t: int| 0 <= t < i ==> vote_index_line_ok(#[trigger] lviews[t]),
            forall|k: PostId| m.has_key(k) <==> #[trigger] edit_time_of(lviews, i as int, k) is Some,
            forall|k: PostId|
                #[trigger] edit_time_of(lviews, i as int, k) is Some ==> m.has_key(k)
                    && m.spec_value(k) == fresh_counter(edit_time_of(lviews, i as int, k).unwrap()),
        decreases lines@.len() - i,
    {
        let fields = split_bytes(lines[i].as_slice(), 9);
        proof {
            assert(byte_views(fields@) == split_seq(lviews[i as int], 9));
            assert(byte_views(fields@).len() == fields@.len());
        }
        if fields.len() < 2 {
            return Err(PipelineError::MalformedLine { line: i });
        }
        proof {
            assert(byte_views(fields@)[0] == fields@[0]@);
            assert(byte_views(fields@)[fields@.len() - 1] == fields@[fields@.len() - 1]@);
            assert(byte_views(fields@).last() == fields@[fields@.len() - 1]@);
        }
        let key = match parse_i64(fields[0].as_slice()) {
            Some(k) => k,
            None => {
                return Err(PipelineError::MalformedLine { line: i });
            }
        };
        let last = fields.len() - 1;
        let et = match parse_timestamp(fields[last].as_slice()) {
            Some(t) => t,
            None => {
                return Err(PipelineError::MalformedLine { line: i });
            }
        };
        proof {
            assert(vote_index_line_ok(lviews[i as int]));
        }
        m.insert(
            key,
            VCounter { edit_time: et, up_before: 0, down_before: 0, up_after: 0, down_after: 0 },
        );
        i = i + 1;
        proof {
            assert(VCounter {
                edit_time: et,
                up_before: 0,
                down_before: 0,
                up_after: 0,
                down_after: 0,
            } == fresh_counter(et));
            assert forall|k: PostId|
                m.has_key(k) <==> #[trigger] edit_time_of(lviews, i as int, k) is Some by {
                if k != key {
                    assert(edit_time_of(lviews, i as int, k) == edit_time_of(
                        lviews,
                        i as int - 1,
                        k,
                    ));
                }
            }
            assert forall|k: PostId|
                #[trigger] edit_time_of(lviews, i as int, k) is Some implies m.has_key(k)
                    && m.spec_value(k) == fresh_counter(
                    edit_time_of(lviews, i as int, k).unwrap(),
                ) by {
                if k != key {
                    assert(edit_time_of(lviews, i as int, k) == edit_time_of(
                        lviews,
                        i as int - 1,
                        k,
                    ));
                }
            }
        }
    }
    Ok(m)
}

/// The dataset-integrity fault a vote record carries, if any: an unreadable
/// key, or — on a record that names a tracked key with a counted vote type —
/// a missing or unreadable instant.
pub open spec fn vote_fault(rec: Seq<AttrModel>, keys: Seq<PostId>) -> Option<RecordFault> {
    if attr_value(rec, n_post_id()) matches Some(v) && !parseable_i64(v) {
        Some(RecordFault::BadNumber)
    } else if {
        &&& has_attr(rec, n_post_id())
        &&& keys.contains(int_literal_value(attr_value(rec, n_post_id()).unwrap()) as PostId)
        &&& has_attr(rec, n_vote_type_id())
        &&& (attr_value(rec, n_vote_type_id()).unwrap() == marker_up() || attr_value(
            rec,
            n_vote_type_id(),
        ).unwrap() == marker_down())
        &&& !(attr_value(rec, n_creation_date()) matches Some(d) && is_timestamp_text(d)
            && timestamp_of(d).valid())
    } {
        Some(RecordFault::BadNumber)
    } else {
        None
    }
}

/// What a vote record contributes: the tracked key it names, whether the
/// vote is an up-vote, and the day it was cast.
pub open spec fn classify_vote(rec: Seq<AttrModel>, keys: Seq<PostId>) -> Option<
    (PostId, bool, Timestamp),
>
    recommends
        vote_fault(rec, keys) is None,
{
    if {
        &&& has_attr(rec, n_post_id())
        &&& keys.contains(int_literal_value(attr_value(rec, n_post_id()).unwrap()) as PostId)
        &&& has_attr(rec, n_vote_type_id())
        &&& (attr_value(rec, n_vote_type_id()).unwrap() == marker_up() || attr_value(
            rec,
            n_vote_type_id(),
        ).unwrap() == marker_down())
    } {
        Some(
            (
                int_literal_value(attr_value(rec, n_post_id()).unwrap()) as PostId,
                attr_value(rec, n_vote_type_id()).unwrap() == marker_up(),
                timestamp_of(attr_value(rec, n_creation_date()).unwrap()),
            ),
        )
    } else {
        None
    }
}

/// One more, stopping at the type's ceiling rather than wrapping.
pub open spec fn bump(c: u64) -> u64 {
    if c < u64::MAX {
        (c + 1) as u64
    } else {
        c
    }
}

fn bump_exec(c: u64) -> (r: u64)
    ensures
        r == bump(c),
{
    if c < u64::MAX {
        c + 1
    } else {
        c
    }
}

/// The tallies after one counted vote: cast strictly before the edit day it
/// counts toward the before-bucket, strictly after toward the after-bucket,
/// and on the edit's own calendar day toward neither.
pub open spec fn count_vote(c: VCounter, up: bool, date: Timestamp) -> VCounter {
    if day_lt(date, c.edit_time) {
        if up {
            VCounter { up_before: bump(c.up_before), ..c }
        } else {
            VCounter { down_before: bump(c.down_before), ..c }
        }
    } else if day_lt(c.edit_time, date) {
        if up {
            VCounter { up_after: bump(c.up_after), ..c }
        } else {
            VCounter { down_after: bump(c.down_after), ..c }
        }
    } else {
        c
    }
}

/// The tallies after one record is tabulated.
pub open spec fn apply_vote(
    keys: Seq<PostId>,
    vals: Seq<VCounter>,
    rec: Seq<AttrModel>,
) -> Seq<VCounter> {
    match classify_vote(rec, keys) {
        Some(v) => {
            let i = seq_key_index(keys, v.0);
            vals.update(i, count_vote(vals[i], v.1, v.2))
        }
        None => vals,
    }
}

/// The tallies after the first `k` records are tabulated.
pub open spec fn tabulate_upto(
    keys: Seq<PostId>,
    vals0: Seq<VCounter>,
    rows: Seq<RowModel>,
    k: int,
) -> Seq<VCounter>
    decreases k,
{
    if k <= 0 {
        vals0
    } else {
        let prev = tabulate_upto(keys, vals0, rows, k - 1);
        if vote_fault(rows[k - 1].attrs, keys) is Some {
            prev
        } else {
            apply_vote(keys, prev, rows[k - 1].attrs)
        }
    }
}

/// Classifies one scanned vote record against the tracked keys.
pub fn vote_classify(rec: &RawRecord, m: &KeyMap<VCounter>) -> (r: Result<
    Option<(PostId, bool, Timestamp)>,
    RecordFault,
>)
    requires
        m.wf(),
    ensures
        r matches Err(f) ==> vote_fault(rec@, m.spec_keys()) == Some(f),
        r matches Ok(o) ==> vote_fault(rec@, m.spec_keys()) is None && o == classify_vote(
            rec@,
            m.spec_keys(),
        ),
{
    let npid = name_post_id();
    let nvt = name_vote_type_id();
    let ndate = name_creation_date();
    let pid = match find_attr(rec, npid.as_slice()) {
        Some(v) => {
            match parse_i64(v.as_slice()) {
                Some(p) => p,
                None => {
                    return Err(RecordFault::BadNumber);
                }
            }
        }
        None => {
            return Ok(None);
        }
    };
    let tracked_key = match m.index_of(pid) {
        Some(_) => true,
        None => false,
    };
    if !tracked_key {
        return Ok(None);
    }
    let vt = match find_attr(rec, nvt.as_slice()) {
        Some(v) => v,
        None => {
            return Ok(None);
        }
    };
    let is_up = vt.len() == 1 && vt[0] == 50;
    let is_down = vt.len() == 1 && vt[0] == 51;
    proof {
        assert(vt@ == marker_up() <==> (vt@.len() == 1 && vt@[0] == 50u8)) by {
            if vt@.len() == 1 && vt@[0] == 50u8 {
                assert(vt@ =~= marker_up());
            }
        }
        assert(vt@ == marker_down() <==> (vt@.len() == 1 && vt@[0] == 51u8)) by {
            if vt@.len() == 1 && vt@[0] == 51u8 {
                assert(vt@ =~= marker_down());
            }
        }
    }
    if !is_up && !is_down {
        return Ok(None);
    }
    let date = match find_attr(rec, ndate.as_slice()) {
        Some(d) => {
            match parse_timestamp(d.as_slice()) {
                Some(t) => t,
                None => {
                    return Err(RecordFault::BadNumber);
                }
            }
        }
        None => {
            return Err(RecordFault::BadNumber);
        }
    };
    Ok(Some((pid, is_up, date)))
}

/// Tabulates every scanned vote record into the key index, in place.  A
/// malformed record is a fatal condition and stops the run where it stands.
pub fn layer3_tabulate_vote_counts(rows: &Vec<ScannedRow>, m: &mut KeyMap<VCounter>) -> (r: Result<
    (),
    PipelineError,
>)
    requires
        old(m).wf(),
    ensures
        final(m).wf(),
        final(m).spec_keys() == old(m).spec_keys(),
        r is Ok ==> {
            &&& forall|t: int|
                0 <= t < rows@.len() ==> vote_fault(
                    #[trigger] row_views(rows@)[t].attrs,
                    old(m).spec_keys(),
                ) is None
            &&& final(m).spec_vals() == tabulate_upto(
                old(m).spec_keys(),
                old(m).spec_vals(),
                row_views(rows@),
                rows@.len() as int,
            )
        },
        r matches Err(e) ==> exists|f: int|
            {
                &&& 0 <= f < rows@.len()
                &&& vote_fault(#[trigger] row_views(rows@)[f].attrs, old(m).spec_keys()) is Some
                &&& (forall|t: int|
                    0 <= t < f ==> vote_fault(
                        #[trigger] row_views(rows@)[t].attrs,
                        old(m).spec_keys(),
                    ) is None)
                &&& e == fault_error(
                    vote_fault(row_views(rows@)[f].attrs, old(m).spec_keys()).unwrap(),
                    row_views(rows@)[f].offset,
                )
                &&& final(m).spec_vals() == tabulate_upto(
                    old(m).spec_keys(),
                    old(m).spec_vals(),
                    row_views(rows@),
                    f,
                )
            },
{
    let ghost keys0 = old(m).spec_keys();
    let ghost vals0 = old(m).spec_vals();
    let ghost rviews = row_views(rows@);
    let mut k: usize = 0;
    while k < rows.len()
        invariant
            k <= rows@.len(),
            m.wf(),
            keys0 == old(m).spec_keys(),
            vals0 == old(m).spec_vals(),
            m.spec_keys() == keys0,
            rviews == row_views(rows@),
            forall|t: int|
                0 <= t < k ==> vote_fault(#[trigger] rviews[t].attrs, keys0) is None,
            m.spec_vals() == tabulate_upto(keys0, vals0, rviews, k as int),
        decreases rows@.len() - k,
    {
        let ghost prev = m.spec_vals();
        let row = &rows[k];
        proof {
            assert(rviews[k as int] == rows@[k as int]@);
        }
        match vote_classify(&row.rec, m) {
            Err(f) => {
                proof {
                    assert(vote_fault(rviews[k as int].attrs, keys0) == Some(f));
                }
                return Err(match f {
                    RecordFault::BadNumber => PipelineError::MalformedRecord {
                        position: row.offset,
                    },
                    RecordFault::BadLicense => PipelineError::DisallowedLicense {
                        position: row.offset,
                    },
                });
            }
            Ok(None) => {}
            Ok(Some(v)) => {
                let (pid, up, date) = v;
                let i = match m.index_of(pid) {
                    Some(i) => i,
                    None => {
                        proof {
                            assert(false);
                        }
                        return Err(PipelineError::MalformedRecord { position: 0 });
                    }
                };
                let c = *m.val_at(i);
                let updated = match compare_day(&date, &c.edit_time) {
                    DayOrder::Before => {
                        if up {
                            VCounter { up_before: bump_exec(c.up_before), ..c }
                        } else {
                            VCounter { down_before: bump_exec(c.down_before), ..c }
                        }
                    }
                    DayOrder::After => {
                        if up {
                            VCounter { up_after: bump_exec(c.up_after), ..c }
                        } else {
                            VCounter { down_after: bump_exec(c.down_after), ..c }
                        }
                    }
                    DayOrder::Same => c,
                };
                proof {
                    assert(updated == count_vote(c, up, date));
                }
                m.set_at(i, updated);
                proof {
                    assert(m.spec_vals() == apply_vote(keys0, prev, rviews[k as int].attrs));
                }
            }
        }
        k = k + 1;
        proof {
            assert(m.spec_vals() == tabulate_upto(keys0, vals0, rviews, k as int));
        }
    }
    Ok(())
}

/// The line is a tabulated count line of some key.
pub open spec fn is_vote_line(line: Seq<u8>) -> bool {
    exists|key: PostId, c: VCounter| line == vote_line(key, c)
}

/// One tabulated output line: key and the four tallies, tab-separated.
pub open spec fn vote_line(key: PostId, c: VCounter) -> Seq<u8> {
    int_repr(key as int) + seq![9u8] + dec_repr(c.up_before as nat) + seq![9u8] + dec_repr(
        c.down_before as nat,
    ) + seq![9u8] + dec_repr(c.up_after as nat) + seq![9u8] + dec_repr(c.down_after as nat)
}

/// Builds one tabulated output line.
fn build_vote_line(key: PostId, c: &VCounter) -> (r: Vec<u8>)
    ensures
        r@ == vote_line(key, *c),
{
    let mut line = int_bytes(key);
    line.push(9);
    let mut ub = dec_bytes(c.up_before);
    line.append(&mut ub);
    line.push(9);
    let mut db = dec_bytes(c.down_before);
    line.append(&mut db);
    line.push(9);
    let mut ua = dec_bytes(c.up_after);
    line.append(&mut ua);
    line.push(9);
    let mut da = dec_bytes(c.down_after);
    line.append(&mut da);
    proof {
        assert(line@ =~= vote_line(key, *c));
    }
    line
}

/// Writes the tabulated counts, one line per key, in ascending key order.
pub fn layer3_write(m: &KeyMap<VCounter>) -> (r: Vec<Vec<u8>>)
    requires
        m.wf(),
    ensures
        byte_views(r@) == Seq::new(
            m.spec_len(),
            |i: int| vote_line(m.spec_keys()[i], m.spec_vals()[i]),
        ),
{
    let ghost target = Seq::new(
        m.spec_len(),
        |i: int| vote_line(m.spec_keys()[i], m.spec_vals()[i]),
    );
    let mut out: Vec<Vec<u8>> = Vec::new();
    let mut i: usize = 0;
    let n = m.len();
    while i < n
        invariant
            i <= n,
            n == m.spec_len(),
            m.wf(),
            target == Seq::new(
                m.spec_len(),
                |t: int| vote_line(m.spec_keys()[t], m.spec_vals()[t]),
            ),
            byte_views(out@) =~= target.take(i as int),
        decreases n - i,
    {
        let key = m.key_at(i);
        let c = *m.val_at(i);
        let line = build_vote_line(key, &c);
        let ghost old_out = out@;
        out.push(line);
        i = i + 1;
        proof {
            assert(byte_views(out@) =~= byte_views(old_out).push(line@));
            assert(byte_views(out@) =~= target.take(i as int));
        }
    }
    proof {
        assert(target.take(n as int) =~= target);
    }
    out
}

/// The written counts are the tabulation of the scanned votes over the
/// index the joined-pairs lines load: one line per key, in ascending key
/// order, tallies per the day buckets.
pub open spec fn votes_chain(
    rows: Seq<RowModel>,
    l2_lines: Seq<Seq<u8>>,
    lines: Seq<Seq<u8>>,
    m: KeyMap<VCounter>,
) -> bool {
    &&& m.wf()
    &&& (forall|k: PostId|
        m.has_key(k) <==> #[trigger] edit_time_of(l2_lines, l2_lines.len() as int, k) is Some)
    &&& (forall|k: PostId|
        #[trigger] edit_time_of(l2_lines, l2_lines.len() as int, k) is Some ==> m.spec_value(k)
            == fresh_counter(edit_time_of(l2_lines, l2_lines.len() as int, k).unwrap()))
    &&& (forall|t: int|
        0 <= t < rows.len() ==> vote_fault(#[trigger] rows[t].attrs, m.spec_keys()) is None)
    &&& lines == Seq::new(
        m.spec_len(),
        |i: int|
            vote_line(
                m.spec_keys()[i],
                tabulate_upto(m.spec_keys(), m.spec_vals(), rows, rows.len() as int)[i],
            ),
    )
}

/// The whole vote tabulation stage: loads the joined-pairs index, tabulates
/// one scan of vote records against it, and writes the counts per key.
pub fn layer3_filter(rows: &Vec<ScannedRow>, l2_lines: &Vec<Vec<u8>>) -> (r: Result<
    Vec<Vec<u8>>,
    PipelineError,
>)
    ensures
        r is Ok ==> exists|m: KeyMap<VCounter>|
            votes_chain(
                row_views(rows@),
                byte_views(l2_lines@),
                byte_views((r->Ok_0)@),
                m,
            ),
        r matches Ok(lines) ==> forall|t: int|
            0 <= t < lines@.len() ==> is_vote_line(#[trigger] byte_views(lines@)[t]),
{
    let mut m = match layer3_load_l2_indices(l2_lines) {
        Err(e) => {
            return Err(e);
        }
        Ok(m) => m,
    };
    let ghost m0 = *&m;
    match layer3_tabulate_vote_counts(rows, &mut m) {
        Err(e) => {
            return Err(e);
        }
        Ok(()) => {}
    }
    let out = layer3_write(&m);
    proof {
        let rv = row_views(rows@);
        assert(m.spec_keys() == m0.spec_keys());
        assert(m.spec_vals() == tabulate_upto(m0.spec_keys(), m0.spec_vals(), rv, rv.len() as int));
        assert(byte_views(out@) =~= Seq::new(
            m0.spec_len(),
            |i: int|
                vote_line(
                    m0.spec_keys()[i],
                    tabulate_upto(m0.spec_keys(), m0.spec_vals(), rv, rv.len() as int)[i],
                ),
        ));
    }
    proof {
        assert(byte_views(out@).len() == out@.len());
        assert forall|t: int|
            0 <= t < out@.len() implies is_vote_line(#[trigger] byte_views(out@)[t]) by {
            assert(byte_views(out@) == Seq::new(
                m.spec_len(),
                |i: int| vote_line(m.spec_keys()[i], m.spec_vals()[i]),
            ));
            assert(byte_views(out@).len() == m.spec_len());
            assert(byte_views(out@)[t] == vote_line(m.spec_keys()[t], m.spec_vals()[t]));
            assert(is_vote_line(byte_views(out@)[t]));
        }
    }
    let result: Result<Vec<Vec<u8>>, PipelineError> = Ok(out);
    proof {
        let rv = row_views(rows@);
        assert(votes_chain(rv, byte_views(l2_lines@), byte_views((result->Ok_0)@), m0));
        assert(exists|m2: KeyMap<VCounter>|
            votes_chain(rv, byte_views(l2_lines@), byte_views((result->Ok_0)@), m2));
    }
    result
}

} // verus!
