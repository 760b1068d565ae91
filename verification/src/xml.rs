//! The scanner's border with the XML pull parser.  The parser itself is
//! outside code; each call it takes stands behind one trusted item, its
//! outcome named as a function of the document bytes alone, and everything
//! downstream works on plain decoded attributes.

use vstd::prelude::*;

use crate::errors::PipelineError;
use crate::record::attr_views;
use crate::record::AttrModel;
use crate::record::RawAttr;
use crate::record::RawRecord;
use crate::textops::find_byte;

verus! {

#[verifier::external_type_specification]
#[verifier::external_body]
#[verifier::reject_recursive_types(R)]
pub struct ExReader<R>(quick_xml::Reader<R>);

#[verifier::external_type_specification]
#[verifier::external_body]
pub struct ExBytesStart<'a>(quick_xml::events::BytesStart<'a>);

/// What one parser event is, as the scanner distinguishes events: the count
/// of input bytes consumed before it, whether the parser fails there, the
/// element name where it is a self-closing element, and that element's
/// decoded attributes where they all decode.
pub ghost struct EventModel {
    pub position: u64,
    pub fault: bool,
    pub empty_name: Option<Seq<u8>>,
    pub attrs: Option<Seq<AttrModel>>,
}

/// The events the pull parser yields over `doc`, in order, the end-of-input
/// event excluded.  The parse of in-memory bytes is a function of the bytes
/// alone; this name stands for its outcome.
pub uninterp spec fn doc_events(doc: Seq<u8>) -> Seq<EventModel>;

/// The input a reader was built over.
pub uninterp spec fn reader_doc(r: quick_xml::Reader<&[u8]>) -> Seq<u8>;

/// How many events the reader has yielded so far.
pub uninterp spec fn reader_step(r: quick_xml::Reader<&[u8]>) -> int;

/// The undecoded name of a self-closing element's event payload.
pub uninterp spec fn start_name(el: quick_xml::events::BytesStart) -> Seq<u8>;

/// Its decoded name="value" pairs, in document order, where they all decode.
pub uninterp spec fn start_attrs_model(el: quick_xml::events::BytesStart) -> Option<
    Seq<AttrModel>,
>;

/// One event of a document, reduced to what the scanner distinguishes.
pub enum DocEvent<'a> {
    /// A self-closing element, attributes still undecoded.
    Empty(quick_xml::events::BytesStart<'a>),
    /// End of input.
    End,
    /// Any other event; the scanner skips these silently.
    Other,
    /// A parse error: the dump violates its contract.
    Fault,
}

/// Relies on quick_xml::Reader::from_reader: a pull parser over in-memory
/// bytes, positioned before the first event.  Every yielded event consumes
/// at least one input byte, so a document yields no more events than it has
/// bytes.
#[verifier::external_body]
fn reader_from_bytes<'a>(doc: &'a [u8]) -> (r: quick_xml::Reader<&'a [u8]>)
    ensures
        reader_doc(r) == doc@,
        reader_step(r) == 0,
        doc_events(reader_doc(r)).len() <= reader_doc(r).len(),
{
    quick_xml::Reader::from_reader(doc)
}

/// Relies on quick_xml::Reader::read_event: decodes the reader's next event,
/// the one `doc_events` lists at the reader's step; past the last listed
/// event the parser reports end of input.
#[verifier::external_body]
fn read_doc_event<'a>(r: &mut quick_xml::Reader<&'a [u8]>) -> (e: DocEvent<'a>)
    ensures
        reader_doc(*final(r)) == reader_doc(*old(r)),
        reader_step(*final(r)) == reader_step(*old(r)) + 1,
        reader_step(*old(r)) >= doc_events(reader_doc(*old(r))).len() ==> e is End,
        0 <= reader_step(*old(r)) < doc_events(reader_doc(*old(r))).len() ==> {
            let evs = doc_events(reader_doc(*old(r)));
            let k = reader_step(*old(r));
            &&& (e is Fault <==> evs[k].fault)
            &&& (e is Empty <==> !evs[k].fault && evs[k].empty_name is Some)
            &&& (e is Other <==> !evs[k].fault && evs[k].empty_name is None)
            &&& (e matches DocEvent::Empty(el) ==> start_name(el) == evs[k].empty_name.unwrap()
                && start_attrs_model(el) == evs[k].attrs)
        },
{
    match r.read_event() {
        Err(_) => DocEvent::Fault,
        Ok(quick_xml::events::Event::Eof) => DocEvent::End,
        Ok(quick_xml::events::Event::Empty(el)) => DocEvent::Empty(el),
        Ok(_) => DocEvent::Other,
    }
}

/// Relies on quick_xml::Reader::buffer_position: the count of consumed
/// bytes, which before an event is that event's listed position.
#[verifier::external_body]
fn buffer_position(r: &quick_xml::Reader<&[u8]>) -> (p: u64)
    ensures
        0 <= reader_step(*r) < doc_events(reader_doc(*r)).len() ==> p == doc_events(
            reader_doc(*r),
        )[reader_step(*r)].position,
{
    r.buffer_position()
}

/// Relies on quick_xml::events::BytesStart::name: the element's undecoded name.
#[verifier::external_body]
fn element_name(el: &quick_xml::events::BytesStart<'_>) -> (r: Vec<u8>)
    ensures
        r@ == start_name(*el),
{
    el.name().into_inner().as_bytes().to_vec()
}

/// Relies on quick_xml::events::BytesStart::attributes: the element's
/// name="value" pairs in document order, values entity-undecoded; an
/// ill-formed attribute yields nothing.
#[verifier::external_body]
fn element_attrs(el: &quick_xml::events::BytesStart<'_>) -> (r: Option<Vec<RawAttr>>)
    ensures
        r is Some <==> start_attrs_model(*el) is Some,
        r matches Some(v) ==> start_attrs_model(*el) == Some(attr_views(v@)),
{
    el.attributes().map(|a|
        a.map(|a| RawAttr {
            name: a.key.into_inner().as_bytes().to_vec(),
            value: a.value.as_bytes().to_vec(),
        })
    ).collect::<Result<Vec<RawAttr>, quick_xml::events::attributes::AttrError>>().ok()
}

/// The element name every stage selects on.
pub open spec fn row_name() -> Seq<u8> {
    seq![114u8, 111u8, 119u8]
}

fn is_row_name(name: &Vec<u8>) -> (r: bool)
    ensures
        r == (name@ == row_name()),
{
    if name.len() == 3 && name[0] == 114 && name[1] == 111 && name[2] == 119 {
        proof {
            assert(name@ =~= row_name());
        }
        true
    } else {
        proof {
            if name@ == row_name() {
                assert(name@.len() == 3);
                assert(name@[0] == 114u8 && name@[1] == 111u8 && name@[2] == 119u8);
            }
        }
        false
    }
}

/// One record located in a dump: the byte offset before the record's line,
/// at which it can later be re-read directly, and its decoded attributes.
pub struct ScannedRow {
    pub offset: u64,
    pub rec: RawRecord,
}

/// The mathematical form of one located record.
pub ghost struct RowModel {
    pub offset: u64,
    pub attrs: Seq<AttrModel>,
}

impl View for ScannedRow {
    type V = RowModel;

    open spec fn view(&self) -> RowModel {
        RowModel { offset: self.offset, attrs: self.rec@ }
    }
}

/// The models of a list of located records.
pub open spec fn row_views(rows: Seq<ScannedRow>) -> Seq<RowModel> {
    rows.map_values(|r: ScannedRow| r@)
}

/// The index of the last line break strictly before `p`, or -1 when the
/// prefix holds none.
pub open spec fn last_newline_before(doc: Seq<u8>, p: int) -> int
    decreases p,
{
    if p <= 0 {
        -1
    } else if doc[p - 1] == 10u8 {
        p - 1
    } else {
        last_newline_before(doc, p - 1)
    }
}

/// The offset a record at parser position `p` is retained under: the line
/// delimiter before its line, so that a later seek to `offset + 1` lands on
/// the line itself.
pub open spec fn retained_offset(doc: Seq<u8>, p: u64) -> u64 {
    let c = if p <= doc.len() {
        p as int
    } else {
        doc.len() as int
    };
    if last_newline_before(doc, c) >= 0 {
        last_newline_before(doc, c) as u64
    } else {
        0
    }
}

fn delimiter_before(doc: &[u8], p: u64) -> (r: u64)
    ensures
        r == retained_offset(doc@, p),
{
    let n = doc.len();
    let mut j: usize = if p <= n as u64 {
        p as usize
    } else {
        n
    };
    while j > 0
        invariant
            j <= n,
            n == doc@.len(),
            last_newline_before(doc@, (if p <= doc@.len() {
                p as int
            } else {
                doc@.len() as int
            })) == last_newline_before(doc@, j as int),
        decreases j,
    {
        if doc[j - 1] == 10 {
            return (j - 1) as u64;
        }
        j = j - 1;
    }
    0
}

/// The records the first `k` events of `doc` yield: for each self-closing
/// `row` element, its decoded attributes with its retained offset, in order;
/// a parser failure, or a `row` element whose attributes do not decode, is a
/// fatal condition at that event's position.
pub open spec fn scan_upto(doc: Seq<u8>, k: int) -> Result<Seq<RowModel>, PipelineError>
    decreases k,
{
    if k <= 0 {
        Ok(Seq::empty())
    } else {
        match scan_upto(doc, k - 1) {
            Err(e) => Err(e),
            Ok(rows) => {
                let ev = doc_events(doc)[k - 1];
                if ev.fault {
                    Err(PipelineError::MalformedRecord { position: ev.position })
                } else {
                    match ev.empty_name {
                        Some(nm) => if nm == row_name() {
                            match ev.attrs {
                                Some(ats) => Ok(
                                    rows.push(
                                        RowModel {
                                            offset: retained_offset(doc, ev.position),
                                            attrs: ats,
                                        },
                                    ),
                                ),
                                None => Err(
                                    PipelineError::MalformedRecord { position: ev.position },
                                ),
                            }
                        } else {
                            Ok(rows)
                        },
                        None => Ok(rows),
                    }
                }
            }
        }
    }
}

/// The whole scan of a dump.
pub open spec fn scan_rows_spec(doc: Seq<u8>) -> Result<Seq<RowModel>, PipelineError> {
    scan_upto(doc, doc_events(doc).len() as int)
}

/// A failed prefix decides the whole scan.
pub proof fn lemma_scan_upto_err_stable(doc: Seq<u8>, k1: int, k2: int)
    requires
        0 <= k1 <= k2,
        scan_upto(doc, k1) is Err,
    ensures
        scan_upto(doc, k2) == scan_upto(doc, k1),
    decreases k2 - k1,
{
    if k2 > k1 {
        lemma_scan_upto_err_stable(doc, k1, k2 - 1);
    }
}

/// Scans a whole dump held in memory: yields every self-closing `row`
/// element's attributes with the retained offset of its line, skipping other
/// lines silently.  A malformed record is a fatal condition, never worked
/// around: dataset generation must not emit from a half-parsed dump.
pub fn scan_rows(doc: &[u8]) -> (r: Result<Vec<ScannedRow>, PipelineError>)
    ensures
        r matches Ok(rows) ==> scan_rows_spec(doc@) == Ok::<_, PipelineError>(row_views(rows@)),
        r matches Err(e) ==> scan_rows_spec(doc@) == Err::<Seq<RowModel>, _>(e),
{
    let mut rd = reader_from_bytes(doc);
    let mut out: Vec<ScannedRow> = Vec::new();
    proof {
        assert(row_views(out@) =~= Seq::<RowModel>::empty());
    }
    loop
        invariant
            reader_doc(rd) == doc@,
            0 <= reader_step(rd) <= doc_events(doc@).len(),
            scan_upto(doc@, reader_step(rd)) == Ok::<_, PipelineError>(row_views(out@)),
        decreases doc_events(doc@).len() - reader_step(rd),
    {
        let ghost k = reader_step(rd);
        let ghost evs = doc_events(doc@);
        let pre = buffer_position(&rd);
        match read_doc_event(&mut rd) {
            DocEvent::End => {
                proof {
                    assert(k == evs.len());
                }
                return Ok(out);
            }
            DocEvent::Fault => {
                proof {
                    assert(k < evs.len());
                    assert(pre == evs[k].position);
                    assert(scan_upto(doc@, k + 1) == Err::<Seq<RowModel>, _>(
                        PipelineError::MalformedRecord { position: pre },
                    ));
                    lemma_scan_upto_err_stable(doc@, k + 1, evs.len() as int);
                }
                return Err(PipelineError::MalformedRecord { position: pre });
            }
            DocEvent::Empty(el) => {
                proof {
                    assert(k < evs.len());
                    assert(pre == evs[k].position);
                }
                let name = element_name(&el);
                if is_row_name(&name) {
                    match element_attrs(&el) {
                        None => {
                            proof {
                                assert(scan_upto(doc@, k + 1) == Err::<Seq<RowModel>, _>(
                                    PipelineError::MalformedRecord { position: pre },
                                ));
                                lemma_scan_upto_err_stable(doc@, k + 1, evs.len() as int);
                            }
                            return Err(PipelineError::MalformedRecord { position: pre });
                        }
                        Some(attrs) => {
                            let offset = delimiter_before(doc, pre);
                            let ghost old_out = out@;
                            out.push(ScannedRow { offset, rec: RawRecord { attrs } });
                            proof {
                                assert(row_views(out@) =~= row_views(old_out).push(
                                    RowModel {
                                        offset: retained_offset(doc@, pre),
                                        attrs: evs[k].attrs.unwrap(),
                                    },
                                ));
                                assert(scan_upto(doc@, k + 1) == Ok::<_, PipelineError>(
                                    row_views(out@),
                                ));
                            }
                        }
                    }
                } else {
                    proof {
                        assert(scan_upto(doc@, k + 1) == Ok::<_, PipelineError>(row_views(out@)));
                    }
                }
            }
            DocEvent::Other => {
                proof {
                    assert(k < evs.len());
                    assert(scan_upto(doc@, k + 1) == Ok::<_, PipelineError>(row_views(out@)));
                }
            }
        }
    }
}

/// The bytes of the line starting at `start`: up to the next line break, or
/// the end of the document.
pub open spec fn line_at(doc: Seq<u8>, start: int) -> Seq<u8> {
    doc.subrange(start, start + find_byte(doc.skip(start), 10u8))
}

/// The one record a line decodes to, reported at `position`: the first event
/// must be (after any skipped ones) a self-closing `row` element whose
/// attributes decode; end of input before one is fatal, as is a parse
/// failure, a foreign element, or an undecodable attribute.
pub open spec fn record_from(line: Seq<u8>, k: int, position: u64) -> Result<
    Seq<AttrModel>,
    PipelineError,
>
    decreases doc_events(line).len() - k,
{
    let evs = doc_events(line);
    if k < 0 || k >= evs.len() {
        Err(PipelineError::TruncatedRecord { position })
    } else if evs[k].fault {
        Err(PipelineError::MalformedRecord { position })
    } else {
        match evs[k].empty_name {
            Some(nm) => if nm == row_name() {
                match evs[k].attrs {
                    Some(ats) => Ok(ats),
                    None => Err(PipelineError::MalformedRecord { position }),
                }
            } else {
                Err(PipelineError::MalformedRecord { position })
            },
            None => record_from(line, k + 1, position),
        }
    }
}

/// What resolving `offset` yields: the record decoded from the line after
/// the retained line delimiter.
pub open spec fn resolved_record_spec(doc: Seq<u8>, offset: u64) -> Result<
    Seq<AttrModel>,
    PipelineError,
> {
    if offset >= doc.len() {
        Err(PipelineError::TruncatedRecord { position: offset })
    } else {
        record_from(line_at(doc, offset + 1), 0, offset)
    }
}

/// Seeks to the byte after `offset` (skipping the line-delimiter convention
/// left by the scanning pass), reads one line, and decodes exactly one
/// record from it.  End of input before a decodable record is fatal.
pub fn resolve_record(doc: &[u8], offset: u64) -> (r: Result<RawRecord, PipelineError>)
    ensures
        r matches Ok(rec) ==> resolved_record_spec(doc@, offset) == Ok::<_, PipelineError>(rec@),
        r matches Err(e) ==> resolved_record_spec(doc@, offset) == Err::<Seq<AttrModel>, _>(e),
{
    let n = doc.len();
    if offset >= n as u64 {
        return Err(PipelineError::TruncatedRecord { position: offset });
    }
    let start: usize = (offset as usize) + 1;
    let mut e = start;
    proof {
        crate::textops::lemma_find_byte(doc@.skip(start as int), 10u8);
    }
    while e < n && doc[e] != 10
        invariant
            start <= e <= n,
            n == doc@.len(),
            forall|t: int| start <= t < e ==> doc@[t] != 10u8,
        decreases n - e,
    {
        e = e + 1;
    }
    proof {
        let rest = doc@.skip(start as int);
        crate::textops::lemma_find_byte(rest, 10u8);
        let f = find_byte(rest, 10u8);
        assert forall|t: int| 0 <= t < e - start implies rest[t] != 10u8 by {
            assert(rest[t] == doc@[start + t]);
        }
        if e < n {
            assert(rest[e - start] == doc@[e as int]);
            assert(f <= e - start);
            if f < e - start {
                assert(rest[f as int] != 10u8);
                assert(rest[f as int] == 10u8);
            }
        } else {
            assert(f <= rest.len());
            if f < e - start {
                assert(rest[f as int] == 10u8);
                assert(rest[f as int] != 10u8);
            }
            assert(f == e - start);
        }
        assert(f == e - start);
    }
    let line: &[u8] = &doc[start..e];
    proof {
        assert(line@ =~= line_at(doc@, offset + 1));
    }
    let mut rd = reader_from_bytes(line);
    loop
        invariant
            reader_doc(rd) == line@,
            line@ == line_at(doc@, offset + 1),
            offset < doc@.len(),
            0 <= reader_step(rd) <= doc_events(line@).len(),
            record_from(line@, reader_step(rd), offset) == record_from(line@, 0, offset),
        decreases doc_events(line@).len() - reader_step(rd),
    {
        let ghost k = reader_step(rd);
        let ghost evs = doc_events(line@);
        match read_doc_event(&mut rd) {
            DocEvent::End => {
                proof {
                    assert(k == evs.len());
                }
                return Err(PipelineError::TruncatedRecord { position: offset });
            }
            DocEvent::Fault => {
                proof {
                    assert(k < evs.len());
                }
                return Err(PipelineError::MalformedRecord { position: offset });
            }
            DocEvent::Empty(el) => {
                proof {
                    assert(k < evs.len());
                }
                let name = element_name(&el);
                if !is_row_name(&name) {
                    return Err(PipelineError::MalformedRecord { position: offset });
                }
                match element_attrs(&el) {
                    None => {
                        return Err(PipelineError::MalformedRecord { position: offset });
                    }
                    Some(attrs) => {
                        let rec = RawRecord { attrs };
                        proof {
                            assert(record_from(line@, k, offset) == Ok::<_, PipelineError>(rec@));
                        }
                        return Ok(rec);
                    }
                }
            }
            DocEvent::Other => {
                proof {
                    assert(k < evs.len());
                    assert(record_from(line@, k, offset) == record_from(line@, k + 1, offset));
                }
            }
        }
    }
}

} // verus!
