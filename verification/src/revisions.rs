//! The revision-set stage: groups every qualifying content-history record by
//! key in a single streaming pass, recording only classes and byte offsets,
//! then materialises each key's earliest and latest revision and emits the
//! pair when the key saw more than one revision.

use vstd::prelude::*;

use crate::errors::PipelineError;
use crate::index::KeyMap;
use crate::join::extract_revision;
use crate::join::license_allowed;
use crate::join::license_ok;
use crate::join::parseable_i64;
use crate::join::revision_of;
use crate::join::RecordFault;
use crate::numtext::int_bytes;
use crate::numtext::int_literal_value;
use crate::numtext::int_repr;
use crate::numtext::parse_i64;
use crate::question_index::load_question_index;
use crate::record::attr_value;
use crate::record::find_attr;
use crate::record::has_attr;
use crate::record::n_content_license;
use crate::record::n_post_history_type_id;
use crate::record::n_post_id;
use crate::record::n_text;
use crate::record::name_content_license;
use crate::record::name_post_history_type_id;
use crate::record::name_post_id;
use crate::record::name_text;
use crate::record::AttrModel;
use crate::record::RawRecord;
use crate::textops::byte_views;
use crate::textops::push_range;
use crate::timestamp::format_timestamp;
use crate::timestamp::timestamp_repr;
use crate::timestamp::ts_before_or_equal;
use crate::timestamp::ts_le;
use crate::timestamp::Timestamp;
use crate::xml::resolve_record;
use crate::xml::row_views;
use crate::xml::scan_rows;
use crate::xml::RowModel;
use crate::xml::ScannedRow;
use crate::PostId;

verus! {

/// The role a content-history record plays for its key.
#[derive(Clone, Copy, PartialEq, Eq, Structural, Debug)]
pub enum RevisionClass {
    /// The canonical initial version.
    Original,
    /// A body edit.
    Edit,
    /// A rollback to an earlier body.
    Rollback,
    /// No qualifying role.
    Undefined,
}

/// The numeric code a class is written as.
pub open spec fn class_code(c: RevisionClass) -> int {
    match c {
        RevisionClass::Original => 2,
        RevisionClass::Edit => 5,
        RevisionClass::Rollback => 8,
        RevisionClass::Undefined => 255,
    }
}

impl RevisionClass {
    /// The numeric code this class is written as.
    pub fn code(&self) -> (r: i64)
        ensures
            r == class_code(*self),
    {
        match self {
            RevisionClass::Original => 2,
            RevisionClass::Edit => 5,
            RevisionClass::Rollback => 8,
            RevisionClass::Undefined => 255,
        }
    }
}

/// One qualifying record of a key: its class and the byte offset at which
/// the record begins, for the later direct-seek re-read.
#[derive(Clone, Copy, PartialEq, Eq, Structural, Debug)]
pub struct Revision {
    pub class: RevisionClass,
    pub position: u64,
}

/// The resolved form of one revision: its class, full text and instant.
pub struct Detail {
    pub class: RevisionClass,
    pub text: Vec<u8>,
    pub date: Timestamp,
}

/// The mathematical form of one resolved revision.
pub ghost struct DetailModel {
    pub class: RevisionClass,
    pub text: Seq<u8>,
    pub date: Timestamp,
}

impl View for Detail {
    type V = DetailModel;

    open spec fn view(&self) -> DetailModel {
        DetailModel { class: self.class, text: self.text@, date: self.date }
    }
}

/// The marker of a rollback record.
pub open spec fn marker_rollback() -> Seq<u8> {
    seq![56u8]
}

/// The dataset-integrity fault a history record carries for this stage.
pub open spec fn revision_fault(rec: Seq<AttrModel>) -> Option<RecordFault> {
    if attr_value(rec, n_post_id()) matches Some(v) && !parseable_i64(v) {
        Some(RecordFault::BadNumber)
    } else if attr_value(rec, n_content_license()) matches Some(v) && !license_allowed(v) {
        Some(RecordFault::BadLicense)
    } else {
        None
    }
}

/// The class a history-type marker spells, if a qualifying one.
pub open spec fn class_of_marker(ht: Seq<u8>) -> Option<RevisionClass> {
    if ht == crate::join::marker_original() {
        Some(RevisionClass::Original)
    } else if ht == crate::join::marker_edit() {
        Some(RevisionClass::Edit)
    } else if ht == marker_rollback() {
        Some(RevisionClass::Rollback)
    } else {
        None
    }
}

/// What a history record contributes to the revision set: the record must
/// carry a tracked key, a qualifying history type, an allow-listed license
/// and a text body.
pub open spec fn classify_revision(rec: Seq<AttrModel>, qkeys: Seq<PostId>) -> Option<
    (PostId, RevisionClass),
>
    recommends
        revision_fault(rec) is None,
{
    if {
        &&& has_attr(rec, n_post_id())
        &&& qkeys.contains(int_literal_value(attr_value(rec, n_post_id()).unwrap()) as PostId)
        &&& has_attr(rec, n_post_history_type_id())
        &&& class_of_marker(attr_value(rec, n_post_history_type_id()).unwrap()) is Some
        &&& has_attr(rec, n_content_license())
        &&& has_attr(rec, n_text())
    } {
        Some(
            (
                int_literal_value(attr_value(rec, n_post_id()).unwrap()) as PostId,
                class_of_marker(attr_value(rec, n_post_history_type_id()).unwrap()).unwrap(),
            ),
        )
    } else {
        None
    }
}

/// Classifies one scanned history record against the question index.
pub fn process_element(rec: &RawRecord, qidx: &KeyMap<()>) -> (r: Result<
    Option<(PostId, RevisionClass)>,
    RecordFault,
>)
    requires
        qidx.wf(),
    ensures
        r matches Err(f) ==> revision_fault(rec@) == Some(f),
        r matches Ok(o) ==> revision_fault(rec@) is None && o == classify_revision(
            rec@,
            qidx.spec_keys(),
        ),
{
    let npid = name_post_id();
    let nht = name_post_history_type_id();
    let nlic = name_content_license();
    let ntxt = name_text();
    let pid: Option<i64> = match find_attr(rec, npid.as_slice()) {
        Some(v) => {
            match parse_i64(v.as_slice()) {
                Some(p) => Some(p),
                None => {
                    return Err(RecordFault::BadNumber);
                }
            }
        }
        None => None,
    };
    match find_attr(rec, nlic.as_slice()) {
        Some(v) => {
            if !license_ok(v) {
                return Err(RecordFault::BadLicense);
            }
        }
        None => {}
    }
    proof {
        assert(revision_fault(rec@) is None);
    }
    let has_lic = match find_attr(rec, nlic.as_slice()) {
        Some(_) => true,
        None => false,
    };
    let has_text = match find_attr(rec, ntxt.as_slice()) {
        Some(_) => true,
        None => false,
    };
    let pid = match pid {
        Some(p) => p,
        None => {
            return Ok(None);
        }
    };
    let tracked_key = match qidx.index_of(pid) {
        Some(_) => true,
        None => false,
    };
    if !tracked_key {
        return Ok(None);
    }
    let ht = match find_attr(rec, nht.as_slice()) {
        Some(v) => v,
        None => {
            return Ok(None);
        }
    };
    let class = if ht.len() == 1 && ht[0] == 50 {
        Some(RevisionClass::Original)
    } else if ht.len() == 1 && ht[0] == 53 {
        Some(RevisionClass::Edit)
    } else if ht.len() == 1 && ht[0] == 56 {
        Some(RevisionClass::Rollback)
    } else {
        None
    };
    proof {
        assert(ht@ == crate::join::marker_original() <==> (ht@.len() == 1 && ht@[0] == 50u8)) by {
            if ht@.len() == 1 && ht@[0] == 50u8 {
                assert(ht@ =~= crate::join::marker_original());
            }
        }
        assert(ht@ == crate::join::marker_edit() <==> (ht@.len() == 1 && ht@[0] == 53u8)) by {
            if ht@.len() == 1 && ht@[0] == 53u8 {
                assert(ht@ =~= crate::join::marker_edit());
            }
        }
        assert(ht@ == marker_rollback() <==> (ht@.len() == 1 && ht@[0] == 56u8)) by {
            if ht@.len() == 1 && ht@[0] == 56u8 {
                assert(ht@ =~= marker_rollback());
            }
        }
    }
    match class {
        None => Ok(None),
        Some(c) => {
            if has_lic && has_text {
                Ok(Some((pid, c)))
            } else {
                Ok(None)
            }
        }
    }
}

/// The revisions recorded for key `k` among the first `upto` scanned records,
/// in scan order.
pub open spec fn revisions_for(
    rows: Seq<RowModel>,
    upto: int,
    k: PostId,
    qkeys: Seq<PostId>,
) -> Seq<Revision>
    decreases upto,
{
    if upto <= 0 {
        Seq::empty()
    } else {
        let prev = revisions_for(rows, upto - 1, k, qkeys);
        if revision_fault(rows[upto - 1].attrs) is Some {
            prev
        } else {
            match classify_revision(rows[upto - 1].attrs, qkeys) {
                Some(p) => if p.0 == k {
                    prev.push(Revision { class: p.1, position: rows[upto - 1].offset })
                } else {
                    prev
                },
                None => prev,
            }
        }
    }
}

/// Copies a revision list.
fn clone_revisions(v: &Vec<Revision>) -> (r: Vec<Revision>)
    ensures
        r@ == v@,
{
    let mut r: Vec<Revision> = Vec::new();
    let mut i: usize = 0;
    while i < v.len()
        invariant
            i <= v@.len(),
            r@ =~= v@.take(i as int),
        decreases v@.len() - i,
    {
        r.push(v[i]);
        i = i + 1;
        proof {
            assert(r@ =~= v@.take(i as int));
        }
    }
    proof {
        assert(v@.take(v@.len() as int) =~= v@);
    }
    r
}

/// First pass: groups every qualifying record by key, holding only classes
/// and byte offsets in memory, and counts the recorded revisions.  A record
/// fault is fatal and stops the scan where it stands.
pub fn load_revisions_as_indices(rows: &Vec<ScannedRow>, qidx: &KeyMap<()>) -> (r: Result<
    KeyMap<Vec<Revision>>,
    PipelineError,
>)
    requires
        qidx.wf(),
    ensures
        r matches Ok(m) ==> {
            &&& m.wf()
            &&& forall|t: int|
                0 <= t < rows@.len() ==> revision_fault(
                    #[trigger] row_views(rows@)[t].attrs,
                ) is None
            &&& forall|k: PostId|
                #[trigger] m.has_key(k) == (revisions_for(
                    row_views(rows@),
                    rows@.len() as int,
                    k,
                    qidx.spec_keys(),
                ).len() > 0)
            &&& forall|k: PostId|
                #[trigger] m.has_key(k) ==> m.spec_value(k)@ == revisions_for(
                    row_views(rows@),
                    rows@.len() as int,
                    k,
                    qidx.spec_keys(),
                )
        },
        r matches Err(e) ==> (e is MalformedRecord || e is DisallowedLicense),
{
    let ghost rviews = row_views(rows@);
    let ghost qkeys = qidx.spec_keys();
    let mut m: KeyMap<Vec<Revision>> = KeyMap::new();
    let mut t: usize = 0;
    while t < rows.len()
        invariant
            t <= rows@.len(),
            rviews == row_views(rows@),
            qkeys == qidx.spec_keys(),
            qidx.wf(),
            m.wf(),
            forall|u: int| 0 <= u < t ==> revision_fault(#[trigger] rviews[u].attrs) is None,
            forall|k: PostId|
                #[trigger] m.has_key(k) == (revisions_for(rviews, t as int, k, qkeys).len() > 0),
            forall|k: PostId|
                #[trigger] m.has_key(k) ==> m.spec_value(k)@ == revisions_for(
                    rviews,
                    t as int,
                    k,
                    qkeys,
                ),
        decreases rows@.len() - t,
    {
        let row = &rows[t];
        proof {
            assert(rviews[t as int] == rows@[t as int]@);
        }
        match process_element(&row.rec, qidx) {
            Err(f) => {
                proof {
                    assert(revision_fault(rviews[t as int].attrs) is Some);
                }
                return Err(match f {
                    RecordFault::BadNumber => PipelineError::MalformedRecord {
                        position: row.offset,
                    },
                    RecordFault::BadLicense => PipelineError::DisallowedLicense {
                        position: row.offset,
                    },
                });
            }
            Ok(None) => {
                t = t + 1;
                proof {
                    assert forall|k: PostId|
                        #[trigger] m.has_key(k) == (revisions_for(
                            rviews,
                            t as int,
                            k,
                            qkeys,
                        ).len() > 0) && (m.has_key(k) ==> m.spec_value(k)@ == revisions_for(
                        rviews,
                        t as int,
                        k,
                        qkeys,
                    )) by {
                        assert(revisions_for(rviews, t as int, k, qkeys) == revisions_for(
                            rviews,
                            t as int - 1,
                            k,
                            qkeys,
                        ));
                    }
                }
            }
            Ok(Some(p)) => {
                let (pid, class) = p;
                let rev = Revision { class, position: row.offset };
                let ghost old_m = *&m;
                match m.index_of(pid) {
                    Some(i) => {
                        let mut list = clone_revisions(m.val_at(i));
                        list.push(rev);
                        let ghost newlist = list@;
                        m.set_at(i, list);
                        proof {
                            assert(m.spec_value(pid)@ == newlist);
                        }
                    }
                    None => {
                        let mut list: Vec<Revision> = Vec::new();
                        list.push(rev);
                        let ghost newlist = list@;
                        m.insert(pid, list);
                        proof {
                            assert(m.spec_value(pid)@ == newlist);
                        }
                    }
                }
                t = t + 1;
                proof {
                    assert(revisions_for(rviews, t as int, pid, qkeys) =~= revisions_for(
                        rviews,
                        t as int - 1,
                        pid,
                        qkeys,
                    ).push(rev));
                    assert forall|k: PostId|
                        #[trigger] m.has_key(k) == (revisions_for(
                            rviews,
                            t as int,
                            k,
                            qkeys,
                        ).len() > 0) && (m.has_key(k) ==> m.spec_value(k)@ == revisions_for(
                        rviews,
                        t as int,
                        k,
                        qkeys,
                    )) by {
                        if k != pid {
                            assert(revisions_for(rviews, t as int, k, qkeys) == revisions_for(
                                rviews,
                                t as int - 1,
                                k,
                                qkeys,
                            ));
                            assert(m.has_key(k) == old_m.has_key(k));
                            if old_m.has_key(k) {
                                assert(m.spec_value(k) == old_m.spec_value(k));
                            }
                        }
                    }
                }
            }
        }
    }
    Ok(m)
}

/// What materialising one revision yields: the record its line decodes to,
/// carried as a detail under the revision's class; a record without a
/// readable instant yields nothing, so its key is dropped, not an error.
pub open spec fn detail_spec(doc: Seq<u8>, rev: Revision) -> Result<
    Option<DetailModel>,
    PipelineError,
> {
    match crate::xml::resolved_record_spec(doc, rev.position) {
        Err(e) => Err(e),
        Ok(rec) => match revision_of(rec) {
            None => Ok(None),
            Some(rv) => Ok(Some(DetailModel { class: rev.class, text: rv.text, date: rv.date })),
        },
    }
}

/// Materialises one revision: seeks its offset and decodes the record.
pub fn detail_from_rev(doc: &[u8], rev: &Revision) -> (r: Result<Option<Detail>, PipelineError>)
    ensures
        r matches Ok(o) ==> detail_spec(doc@, *rev) == Ok::<_, PipelineError>(
            match o {
                Some(d) => Some(d@),
                None => None::<DetailModel>,
            },
        ),
        r matches Ok(o) ==> o matches Some(d) ==> d@.date.valid() && d@.class == rev.class,
        r matches Err(e) ==> detail_spec(doc@, *rev) == Err::<Option<DetailModel>, _>(e),
{
    let rec = match resolve_record(doc, rev.position) {
        Err(e) => {
            return Err(e);
        }
        Ok(rec) => rec,
    };
    match extract_revision(&rec) {
        Some(v) => {
            proof {
                assert(revision_of(rec@) == Some(v@));
            }
            Ok(Some(Detail { class: rev.class, text: v.text, date: v.date }))
        }
        None => Ok(None),
    }
}

/// The models of a list of details.
pub open spec fn detail_views(ds: Seq<Detail>) -> Seq<DetailModel> {
    ds.map_values(|d: Detail| d@)
}

/// The models of the index's revision lists.
pub open spec fn rev_views(vs: Seq<Vec<Revision>>) -> Seq<Seq<Revision>> {
    vs.map_values(|v: Vec<Revision>| v@)
}

/// The details the first `k` revisions of one key materialise to: a fatal
/// resolution fault stops the run; one revision without a readable instant
/// drops the whole key, and no later revision of it is resolved.
pub open spec fn details_of(doc: Seq<u8>, revs: Seq<Revision>, k: int) -> Result<
    Option<Seq<DetailModel>>,
    PipelineError,
>
    decreases k,
{
    if k <= 0 {
        Ok(Some(Seq::empty()))
    } else {
        match details_of(doc, revs, k - 1) {
            Err(e) => Err(e),
            Ok(None) => Ok(None),
            Ok(Some(ds)) => match detail_spec(doc, revs[k - 1]) {
                Err(e) => Err(e),
                Ok(None) => Ok(None),
                Ok(Some(d)) => Ok(Some(ds.push(d))),
            },
        }
    }
}

/// A fault or a dropped key decides the remaining resolutions.
pub proof fn lemma_details_of_stable(doc: Seq<u8>, revs: Seq<Revision>, k1: int, k2: int)
    requires
        0 <= k1 <= k2,
        details_of(doc, revs, k1) is Err || details_of(doc, revs, k1) == Ok::<
            Option<Seq<DetailModel>>,
            PipelineError,
        >(None),
    ensures
        details_of(doc, revs, k2) == details_of(doc, revs, k1),
    decreases k2 - k1,
{
    if k2 > k1 {
        lemma_details_of_stable(doc, revs, k1, k2 - 1);
    }
}

/// The dates of a list of details.
pub open spec fn detail_dates(ds: Seq<DetailModel>) -> Seq<Timestamp> {
    ds.map_values(|d: DetailModel| d.date)
}

/// The first index attaining the minimum among the first `k` instants: the
/// index a stable ascending sort would put first.
pub open spec fn first_min_index(dates: Seq<Timestamp>, k: int) -> int
    decreases k,
{
    if k <= 1 {
        0
    } else {
        let p = first_min_index(dates, k - 1);
        if !ts_le(dates[p], dates[k - 1]) {
            k - 1
        } else {
            p
        }
    }
}

/// The last index attaining the maximum among the first `k` instants: the
/// index a stable ascending sort would put last.
pub open spec fn last_max_index(dates: Seq<Timestamp>, k: int) -> int
    decreases k,
{
    if k <= 1 {
        0
    } else {
        let p = last_max_index(dates, k - 1);
        if ts_le(dates[p], dates[k - 1]) {
            k - 1
        } else {
            p
        }
    }
}

/// Picks the earliest and the latest detail: the first index attaining the
/// minimum instant and the last index attaining the maximum, the tie rule a
/// stable ordering would give.  Fewer than two details select nothing.
pub fn select_extremes(details: &Vec<Detail>) -> (r: Option<(usize, usize)>)
    ensures
        r is Some <==> details@.len() >= 2,
        r matches Some(p) ==> p.0 as int == first_min_index(
            detail_dates(detail_views(details@)),
            details@.len() as int,
        ) && p.1 as int == last_max_index(
            detail_dates(detail_views(details@)),
            details@.len() as int,
        ),
        r matches Some(p) ==> {
            &&& p.0 < details@.len()
            &&& p.1 < details@.len()
            &&& forall|t: int|
                0 <= t < details@.len() ==> ts_le(details@[p.0 as int].date, (#[trigger] details@[t]).date)
            &&& forall|t: int|
                0 <= t < p.0 as int ==> !ts_le((#[trigger] details@[t]).date, details@[p.0 as int].date)
            &&& forall|t: int|
                0 <= t < details@.len() ==> ts_le((#[trigger] details@[t]).date, details@[p.1 as int].date)
            &&& forall|t: int|
                (p.1 as int) < t < details@.len() ==> !ts_le(
                    details@[p.1 as int].date,
                    (#[trigger] details@[t]).date,
                )
        },
{
    let n = details.len();
    if n < 2 {
        return None;
    }
    let ghost dates = detail_dates(detail_views(details@));
    proof {
        assert(dates.len() == details@.len());
        assert(forall|u: int| 0 <= u < dates.len() ==> dates[u] == (#[trigger] details@[u]).date);
    }
    let mut lo: usize = 0;
    let mut t: usize = 1;
    while t < n
        invariant
            1 <= t <= n,
            n == details@.len(),
            lo < t,
            dates == detail_dates(detail_views(details@)),
            dates.len() == n,
            forall|u: int| 0 <= u < dates.len() ==> dates[u] == (#[trigger] details@[u]).date,
            lo as int == first_min_index(dates, t as int),
            forall|u: int| 0 <= u < t ==> ts_le(details@[lo as int].date, (#[trigger] details@[u]).date),
            forall|u: int| 0 <= u < lo as int ==> !ts_le((#[trigger] details@[u]).date, details@[lo as int].date),
        decreases n - t,
    {
        proof {
            assert(first_min_index(dates, t as int + 1) == (if !ts_le(
                dates[first_min_index(dates, t as int)],
                dates[t as int],
            ) {
                t as int
            } else {
                first_min_index(dates, t as int)
            }));
        }
        if !ts_before_or_equal(&details[lo].date, &details[t].date) {
            let ghost old_lo = lo as int;
            lo = t;
            proof {
                assert(ts_le(details@[lo as int].date, details@[old_lo].date));
                assert forall|u: int|
                    0 <= u < t + 1 implies ts_le(
                    details@[lo as int].date,
                    (#[trigger] details@[u]).date,
                ) by {
                    if u < t {
                        assert(ts_le(details@[old_lo].date, details@[u].date));
                    }
                }
                assert forall|u: int|
                    0 <= u < lo as int implies !ts_le(
                    (#[trigger] details@[u]).date,
                    details@[lo as int].date,
                ) by {
                    assert(ts_le(details@[old_lo].date, details@[u].date));
                }
            }
        }
        t = t + 1;
    }
    let mut hi: usize = 0;
    let mut t2: usize = 1;
    while t2 < n
        invariant
            1 <= t2 <= n,
            n == details@.len(),
            hi < t2,
            dates == detail_dates(detail_views(details@)),
            dates.len() == n,
            forall|u: int| 0 <= u < dates.len() ==> dates[u] == (#[trigger] details@[u]).date,
            hi as int == last_max_index(dates, t2 as int),
            forall|u: int| 0 <= u < t2 ==> ts_le((#[trigger] details@[u]).date, details@[hi as int].date),
            forall|u: int|
                (hi as int) < u < t2 ==> !ts_le(details@[hi as int].date, (#[trigger] details@[u]).date),
        decreases n - t2,
    {
        proof {
            assert(last_max_index(dates, t2 as int + 1) == (if ts_le(
                dates[last_max_index(dates, t2 as int)],
                dates[t2 as int],
            ) {
                t2 as int
            } else {
                last_max_index(dates, t2 as int)
            }));
        }
        if ts_before_or_equal(&details[hi].date, &details[t2].date) {
            let ghost old_hi = hi as int;
            hi = t2;
            proof {
                assert forall|u: int|
                    0 <= u < t2 + 1 implies ts_le(
                    (#[trigger] details@[u]).date,
                    details@[hi as int].date,
                ) by {
                    if u < t2 {
                        assert(ts_le(details@[u].date, details@[old_hi].date));
                    }
                }
            }
        } else {
            proof {
                assert(!ts_le(details@[hi as int].date, details@[t2 as int].date));
                assert(ts_le(details@[t2 as int].date, details@[hi as int].date));
            }
        }
        t2 = t2 + 1;
    }
    Some((lo, hi))
}

/// One emitted pair: key, then the class code, instant and text of the
/// earliest revision, then those of the latest, tab-separated.
pub open spec fn revision_pair_line(key: PostId, first: DetailModel, last: DetailModel) -> Seq<
    u8,
> {
    int_repr(key as int) + seq![9u8] + int_repr(class_code(first.class)) + seq![9u8]
        + timestamp_repr(first.date) + seq![9u8] + first.text + seq![9u8] + int_repr(
        class_code(last.class),
    ) + seq![9u8] + timestamp_repr(last.date) + seq![9u8] + last.text
}

/// Builds one emitted pair line.
fn build_revision_pair_line(key: PostId, first: &Detail, last: &Detail) -> (r: Vec<u8>)
    requires
        first.date.valid(),
        last.date.valid(),
    ensures
        r@ == revision_pair_line(key, first@, last@),
{
    let mut line = int_bytes(key);
    line.push(9);
    let mut c0 = int_bytes(first.class.code());
    line.append(&mut c0);
    line.push(9);
    let mut d0 = format_timestamp(&first.date);
    line.append(&mut d0);
    line.push(9);
    push_range(&mut line, first.text.as_slice(), 0, first.text.len());
    line.push(9);
    let mut c1 = int_bytes(last.class.code());
    line.append(&mut c1);
    line.push(9);
    let mut d1 = format_timestamp(&last.date);
    line.append(&mut d1);
    line.push(9);
    push_range(&mut line, last.text.as_slice(), 0, last.text.len());
    proof {
        assert(first.text@.subrange(0, first.text@.len() as int) =~= first.text@);
        assert(last.text@.subrange(0, last.text@.len() as int) =~= last.text@);
        assert(line@ =~= revision_pair_line(key, first@, last@));
    }
    line
}

/// The emitted lines of the first `i` index entries: one line per key with
/// at least two recorded revisions whose revisions all materialise, pairing
/// the earliest with the latest, in ascending key order, each key at most
/// once; a key with a revision lacking a readable instant is dropped.
pub open spec fn revision_lines_upto(
    doc: Seq<u8>,
    keys: Seq<PostId>,
    lists: Seq<Seq<Revision>>,
    i: int,
) -> Result<Seq<Seq<u8>>, PipelineError>
    decreases i,
{
    if i <= 0 {
        Ok(Seq::empty())
    } else {
        match revision_lines_upto(doc, keys, lists, i - 1) {
            Err(e) => Err(e),
            Ok(lines) => {
                let revs = lists[i - 1];
                if revs.len() < 2 {
                    Ok(lines)
                } else {
                    match details_of(doc, revs, revs.len() as int) {
                        Err(e) => Err(e),
                        Ok(None) => Ok(lines),
                        Ok(Some(ds)) => Ok(
                            lines.push(
                                revision_pair_line(
                                    keys[i - 1],
                                    ds[first_min_index(detail_dates(ds), ds.len() as int)],
                                    ds[last_max_index(detail_dates(ds), ds.len() as int)],
                                ),
                            ),
                        ),
                    }
                }
            }
        }
    }
}

/// The line pairs some key's earliest and latest resolved revisions.
pub open spec fn is_revision_pair_line(line: Seq<u8>) -> bool {
    exists|key: PostId, first: DetailModel, last: DetailModel|
        line == revision_pair_line(key, first, last)
}

/// The emitted lines are the fold of the stage over its inputs: `qidx` is
/// the loaded question index, `rows` the named scan of the dump, `m` the
/// per-key grouping of the qualifying records, and the lines its second,
/// materialising pass.
pub open spec fn revision_set_chain(
    doc: Seq<u8>,
    qidx_lines: Seq<Seq<u8>>,
    lines: Seq<Seq<u8>>,
    qidx: KeyMap<()>,
    m: KeyMap<Vec<Revision>>,
    rows: Seq<crate::xml::RowModel>,
) -> bool {
    &&& qidx.wf()
    &&& (forall|k: PostId|
        #[trigger] qidx.has_key(k) == crate::question_index::index_has_key(
            qidx_lines,
            qidx_lines.len() as int,
            k,
        ))
    &&& crate::xml::scan_rows_spec(doc) == Ok::<_, PipelineError>(rows)
    &&& m.wf()
    &&& (forall|t: int| 0 <= t < rows.len() ==> revision_fault(#[trigger] rows[t].attrs) is None)
    &&& (forall|k: PostId|
        #[trigger] m.has_key(k) == (revisions_for(rows, rows.len() as int, k, qidx.spec_keys()).len()
            > 0))
    &&& (forall|k: PostId|
        #[trigger] m.has_key(k) ==> m.spec_value(k)@ == revisions_for(
            rows,
            rows.len() as int,
            k,
            qidx.spec_keys(),
        ))
    &&& revision_lines_upto(doc, m.spec_keys(), rev_views(m.spec_vals()), m.spec_len() as int)
        == Ok::<_, PipelineError>(lines)
}

/// The whole revision-set stage on one in-memory history dump: loads the
/// question index, groups the qualifying records by key in one streaming
/// pass, and emits, for every key with at least two revisions, its earliest
/// and latest revision, resolved by direct seek.
#[verifier::rlimit(100)]
#[verifier::spinoff_prover]
pub fn generate_revision_set(doc: &[u8], qidx_lines: &Vec<Vec<u8>>) -> (r: Result<
    Vec<Vec<u8>>,
    PipelineError,
>)
    ensures
        r is Ok ==> exists|qidx: KeyMap<()>, m: KeyMap<Vec<Revision>>, rows: Seq<crate::xml::RowModel>|
            revision_set_chain(doc@, byte_views(qidx_lines@), byte_views((r->Ok_0)@), qidx, m, rows),
        r matches Ok(lines) ==> forall|t: int|
            0 <= t < lines@.len() ==> is_revision_pair_line(#[trigger] byte_views(lines@)[t]),
{
    let qidx = match load_question_index(qidx_lines) {
        Err(e) => {
            return Err(e);
        }
        Ok(m) => m,
    };
    let rows = match scan_rows(doc) {
        Err(e) => {
            return Err(e);
        }
        Ok(v) => v,
    };
    let m = match load_revisions_as_indices(&rows, &qidx) {
        Err(e) => {
            return Err(e);
        }
        Ok(m) => m,
    };
    let ghost lists = rev_views(m.spec_vals());
    let mut out: Vec<Vec<u8>> = Vec::new();
    let mut i: usize = 0;
    let n = m.len();
    proof {
        assert(byte_views(out@) =~= Seq::<Seq<u8>>::empty());
    }
    while i < n
        invariant
            i <= n,
            n == m.spec_len(),
            m.wf(),
            lists == rev_views(m.spec_vals()),
            revision_lines_upto(doc@, m.spec_keys(), lists, i as int) == Ok::<_, PipelineError>(
                byte_views(out@),
            ),
            forall|t: int|
                0 <= t < out@.len() ==> is_revision_pair_line(#[trigger] byte_views(out@)[t]),
        decreases n - i,
    {
        let key = m.key_at(i);
        let revs = m.val_at(i);
        proof {
            assert(lists[i as int] == m.spec_vals()[i as int]@);
            assert(revs@ == lists[i as int]);
        }
        if revs.len() >= 2 {
            let mut details: Vec<Detail> = Vec::new();
            let mut dropped = false;
            let mut j: usize = 0;
            let rn = revs.len();
            proof {
                assert(detail_views(details@) =~= Seq::<DetailModel>::empty());
            }
            while j < rn
                invariant
                    j <= rn,
                    rn == revs@.len(),
                    !dropped ==> details@.len() == j,
                    !dropped ==> details_of(doc@, revs@, j as int) == Ok::<_, PipelineError>(
                        Some(detail_views(details@)),
                    ),
                    dropped ==> details_of(doc@, revs@, rn as int) == Ok::<
                        Option<Seq<DetailModel>>,
                        PipelineError,
                    >(None),
                    forall|u: int| 0 <= u < details@.len() ==> (#[trigger] details@[u]).date.valid(),
                decreases rn - j,
            {
                if !dropped {
                    match detail_from_rev(doc, &revs[j]) {
                        Err(e) => {
                            return Err(e);
                        }
                        Ok(None) => {
                            proof {
                                assert(details_of(doc@, revs@, j as int + 1) == Ok::<
                                    Option<Seq<DetailModel>>,
                                    PipelineError,
                                >(None));
                                lemma_details_of_stable(doc@, revs@, j as int + 1, rn as int);
                            }
                            dropped = true;
                        }
                        Ok(Some(d)) => {
                            let ghost old_details = details@;
                            let ghost dv = d@;
                            details.push(d);
                            proof {
                                assert(detail_views(details@) =~= detail_views(old_details).push(
                                    dv,
                                ));
                                assert(details_of(doc@, revs@, j as int + 1) == Ok::<
                                    _,
                                    PipelineError,
                                >(Some(detail_views(details@))));
                            }
                        }
                    }
                }
                j = j + 1;
            }
            if dropped {
                proof {
                    assert(revision_lines_upto(doc@, m.spec_keys(), lists, i as int + 1) == Ok::<
                        _,
                        PipelineError,
                    >(byte_views(out@)));
                }
            } else {
                match select_extremes(&details) {
                    Some(p) => {
                        let (lo, hi) = p;
                        let line = build_revision_pair_line(key, &details[lo], &details[hi]);
                        let ghost old_out = out@;
                        let ghost ds = detail_views(details@);
                        proof {
                            assert(details@[lo as int]@ == ds[lo as int]);
                            assert(details@[hi as int]@ == ds[hi as int]);
                            assert(line@ == revision_pair_line(
                                m.spec_keys()[i as int],
                                ds[first_min_index(detail_dates(ds), ds.len() as int)],
                                ds[last_max_index(detail_dates(ds), ds.len() as int)],
                            ));
                            assert(is_revision_pair_line(line@));
                        }
                        out.push(line);
                        proof {
                            assert(byte_views(out@) =~= byte_views(old_out).push(line@));
                            assert(revision_lines_upto(doc@, m.spec_keys(), lists, i as int + 1)
                                == Ok::<_, PipelineError>(byte_views(out@)));
                            assert forall|t: int|
                                0 <= t < out@.len() implies is_revision_pair_line(
                                #[trigger] byte_views(out@)[t],
                            ) by {
                                if t < old_out.len() {
                                    assert(byte_views(out@)[t] == byte_views(old_out)[t]);
                                } else {
                                    assert(byte_views(out@)[t] == line@);
                                }
                            }
                        }
                    }
                    None => {
                        proof {
                            assert(false);
                        }
                    }
                }
            }
        } else {
            proof {
                assert(revision_lines_upto(doc@, m.spec_keys(), lists, i as int + 1) == Ok::<
                    _,
                    PipelineError,
                >(byte_views(out@)));
            }
        }
        i = i + 1;
    }
    let result: Result<Vec<Vec<u8>>, PipelineError> = Ok(out);
    proof {
        let rv = crate::xml::row_views(rows@);
        assert(revision_set_chain(
            doc@,
            byte_views(qidx_lines@),
            byte_views((result->Ok_0)@),
            qidx,
            m,
            rv,
        ));
        assert(exists|q2: KeyMap<()>, m2: KeyMap<Vec<Revision>>, r2: Seq<crate::xml::RowModel>|
            revision_set_chain(
                doc@,
                byte_views(qidx_lines@),
                byte_views((result->Ok_0)@),
                q2,
                m2,
                r2,
            ));
    }
    result
}

} // verus!
