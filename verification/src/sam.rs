//! The SAM-side writer and the filter pipeline. The writer owns its
//! output sink and an owning view of a header derived from a caller
//! template; the header block is written to the sink exactly once, at
//! open time, before any record. The pipeline drives an input stream of
//! decoded records through a caller-supplied predicate with three
//! outcomes — keep, discard, stop — writing kept records in input order
//! and releasing the sink on every terminal path.

use vstd::prelude::*;
use vstd::string::StrSliceExecFns;

use crate::digits::{push_bytes, push_dec_u32};
use crate::header::{comments_view, equiv, header_bytes, lemma_header_bytes_equiv, lemma_header_round_trip, parse_header, refs_view, Header, HeaderShape};
use crate::record::{lemma_rec_lines_snoc, rec_line, rec_lines, rec_ok, DecodeError, Record};

verus! {

/// Fatal pipeline error: failure to open a stream, to decode a record,
/// or to set up the header.
#[derive(Debug, Clone, Copy, PartialEq, Eq, Structural)]
pub enum SAMError {
    IOError,
}

/// Failure to write one record against an already-open writer.
#[derive(Debug, Clone, Copy, PartialEq, Eq, Structural)]
pub enum WriteError {
    Failed,
}

impl WriteError {
    /// Human-readable description of the error.
    pub fn description(&self) -> (s: String)
        ensures
            s@ == "error writing record"@,
    {
        "error writing record".to_owned()
    }
}

/// One outcome of the per-record predicate.
#[derive(Debug, Clone, Copy, PartialEq, Eq, Structural)]
pub enum FilterDecision {
    /// Write this record to the sink.
    Keep,
    /// Skip this record and continue.
    Discard,
    /// Terminate the stream deliberately; not an error.
    Stop,
}

/// A handle over a header instance, tracking whether it owns the
/// underlying structure (a writer's view always does) or merely borrows
/// one owned elsewhere.
pub struct SAMHeaderView {
    pub inner: Header,
    pub owned: bool,
}

impl SAMHeaderView {
    /// Wraps a freshly constructed header; the view owns it.
    pub fn new(inner: Header) -> (v: SAMHeaderView)
        ensures
            v.inner == inner,
            v.owned,
    {
        SAMHeaderView { inner, owned: true }
    }

    /// The underlying header.
    pub fn inner(&self) -> (h: &Header)
        ensures
            h == &self.inner,
    {
        &self.inner
    }
}

/// Where a sink's bytes are destined once the pipeline completes.
#[derive(Debug, PartialEq)]
pub enum SinkDest {
    /// A filesystem path.
    Path(String),
    /// Standard output (the `"-"` descriptor).
    Stdout,
}

/// An output sink: a destination, the bytes written so far, and whether
/// it has been released. A closed sink is final; the writer is the only
/// component that appends to an open one.
#[derive(Debug)]
pub struct Sink {
    pub dest: SinkDest,
    pub buf: Vec<u8>,
    pub closed: bool,
}

/// SAM writer.
pub struct SAMWriter {
    pub f: Sink,
    pub header: SAMHeaderView,
}

/// What holds of a writer immediately after a successful open, bound to
/// the template header `h`: the sink holds exactly the serialized
/// header block, the bound structural header is what that block parses
/// to, and it is equivalent to `h` whenever `h` is well formed.
pub open spec fn writer_open_post(w: SAMWriter, h: Header) -> bool {
    &&& w.wf()
    &&& w.f.buf@ == header_bytes(h)
    &&& parse_header(header_bytes(h)) == Some(
        HeaderShape {
            refs: refs_view(w.header.inner.refs@),
            comments: comments_view(w.header.inner.comments@),
        },
    )
    &&& (h.wf() ==> equiv(w.header.inner, h))
}

impl SAMWriter {
    /// An open writer: its sink is not yet released, and it owns a
    /// well-formed header view.
    pub open spec fn wf(&self) -> bool {
        &&& !self.f.closed
        &&& self.header.owned
        &&& self.header.inner.wf()
    }

    /// Opens a writer on `dest`: parses the supplied header into
    /// structural form and writes its textual block to the sink, before
    /// any record. Fails (atomically, leaving nothing half-open) only
    /// when the serialized block does not parse back, which a
    /// well-formed header never exhibits.
    fn new(dest: SinkDest, header: &Header) -> (r: Result<SAMWriter, SAMError>)
        ensures
            match r {
                Ok(w) => writer_open_post(w, *header) && w.f.dest == dest,
                Err(e) => e == SAMError::IOError && parse_header(header_bytes(*header)) is None,
            },
            header.wf() ==> r is Ok,
    {
        proof {
            if header.wf() {
                lemma_header_round_trip(*header);
            }
        }
        let text = header.serialize();
        match Header::parse(&text) {
            Some(parsed) => {
                proof {
                    if header.wf() {
                        assert(refs_view(parsed.refs@) == refs_view(header.refs@));
                        assert(comments_view(parsed.comments@) == comments_view(header.comments@));
                    }
                }
                let view = SAMHeaderView::new(parsed);
                Ok(SAMWriter { f: Sink { dest, buf: text, closed: false }, header: view })
            },
            None => Err(SAMError::IOError),
        }
    }

    /// Create new SAM file writer.
    ///
    /// # Arguments
    ///
    /// * `path` - the path; must be non-empty to be openable.
    /// * `header` - header definition to use
    pub fn from_path(path: &str, header: &Header) -> (r: Result<SAMWriter, SAMError>)
        ensures
            match r {
                Ok(w) => {
                    &&& path@.len() > 0
                    &&& writer_open_post(w, *header)
                    &&& w.f.dest is Path
                    &&& w.f.dest->Path_0@ == path@
                },
                Err(e) => e == SAMError::IOError && (path@.len() == 0 || parse_header(
                    header_bytes(*header),
                ) is None),
            },
            path@.len() > 0 && header.wf() ==> r is Ok,
    {
        if path.unicode_len() == 0 {
            return Err(SAMError::IOError);
        }
        Self::new(SinkDest::Path(path.to_owned()), header)
    }

    /// Create a new SAM file at STDOUT.
    ///
    /// # Arguments
    ///
    /// * `header` - header definition to use
    pub fn from_stdout(header: &Header) -> (r: Result<SAMWriter, SAMError>)
        ensures
            match r {
                Ok(w) => writer_open_post(w, *header) && w.f.dest is Stdout,
                Err(e) => e == SAMError::IOError && parse_header(header_bytes(*header)) is None,
            },
            header.wf() ==> r is Ok,
    {
        Self::new(SinkDest::Stdout, header)
    }

    /// Write record to SAM.
    ///
    /// Serializes one record against the writer's bound header and
    /// appends it to the sink. Returns the distinguished `WriteError`
    /// — leaving the sink unchanged — exactly when the record's
    /// reference index does not resolve against that header.
    ///
    /// # Arguments
    ///
    /// * `record` - the record to write
    pub fn write(&mut self, record: &Record) -> (r: Result<(), WriteError>)
        requires
            old(self).wf(),
        ensures
            final(self).wf(),
            final(self).header == old(self).header,
            final(self).f.dest == old(self).f.dest,
            match r {
                Ok(()) => rec_ok(refs_view(old(self).header.inner.refs@), *record)
                    && final(self).f.buf@ == old(self).f.buf@ + rec_line(
                    refs_view(old(self).header.inner.refs@),
                    *record,
                ),
                Err(e) => e == WriteError::Failed && !rec_ok(
                    refs_view(old(self).header.inner.refs@),
                    *record,
                ) && final(self).f.buf@ == old(self).f.buf@,
            },
    {
        let ghost rv = refs_view(old(self).header.inner.refs@);
        if record.ref_id < -1 {
            return Err(WriteError::Failed);
        }
        if record.ref_id >= 0 {
            let id = record.ref_id as u64;
            if id >= self.header.inner.refs.len() as u64 {
                return Err(WriteError::Failed);
            }
        }
        proof {
            assert(rv.len() == old(self).header.inner.refs@.len());
            assert(rec_ok(rv, *record));
        }
        let ghost base = self.f.buf@;
        push_bytes(&mut self.f.buf, &record.qname);
        self.f.buf.push(9);
        push_dec_u32(&mut self.f.buf, record.flag as u32);
        self.f.buf.push(9);
        if record.ref_id < 0 {
            self.f.buf.push(42);
        } else {
            let id = record.ref_id as usize;
            push_bytes(&mut self.f.buf, &self.header.inner.refs[id].name);
            proof {
                assert(self.header.inner.refs@[record.ref_id as int].name@ == rv[record.ref_id as int].0);
            }
        }
        self.f.buf.push(9);
        push_dec_u32(&mut self.f.buf, record.pos);
        self.f.buf.push(9);
        push_dec_u32(&mut self.f.buf, record.mapq as u32);
        self.f.buf.push(10);
        proof {
            assert(self.f.buf@ =~= base + rec_line(rv, *record));
        }
        Ok(())
    }

    /// Releases the writer: flushes and closes its sink, exactly once,
    /// and yields the finished sink. Consuming the writer makes a second
    /// release unrepresentable.
    pub fn close(self) -> (s: Sink)
        ensures
            s.dest == self.f.dest,
            s.buf@ == self.f.buf@,
            s.closed,
    {
        let Sink { dest, buf, closed: _ } = self.f;
        Sink { dest, buf, closed: true }
    }
}

/// An opened input stream: its header, borrowed read-only by the
/// pipeline's derivation step, and the finite, non-restartable sequence
/// of decode results it yields in order.
pub struct BamReader {
    pub header: Header,
    pub records: Vec<Result<Record, DecodeError>>,
}

impl BamReader {
    /// Assembles an input stream from an already-decoded header and
    /// record sequence.
    pub fn from_parts(header: Header, records: Vec<Result<Record, DecodeError>>) -> (b: BamReader)
        ensures
            b.header == header,
            b.records == records,
    {
        BamReader { header, records }
    }

    /// The stream's header, borrowed.
    pub fn header(&self) -> (h: &Header)
        ensures
            h == &self.header,
    {
        &self.header
    }
}

/// The outcome of one pipeline run over decode results `rs` under
/// decisions `ds` (consulted index by index): the records written in
/// order, or the error that aborted the run. A decode failure or a
/// failed write aborts; a stop decision completes early.
pub open spec fn run_model(
    rv: Seq<(Seq<u8>, u32)>,
    rs: Seq<Result<Record, DecodeError>>,
    ds: Seq<FilterDecision>,
) -> Result<Seq<Record>, SAMError>
    decreases rs.len(),
{
    if rs.len() == 0 {
        Ok(Seq::empty())
    } else if rs[0] is Err {
        Err(SAMError::IOError)
    } else {
        let rec = rs[0]->Ok_0;
        match ds[0] {
            FilterDecision::Stop => Ok(Seq::empty()),
            FilterDecision::Discard => run_model(rv, rs.drop_first(), ds.drop_first()),
            FilterDecision::Keep => if !rec_ok(rv, rec) {
                Err(SAMError::IOError)
            } else {
                match run_model(rv, rs.drop_first(), ds.drop_first()) {
                    Ok(tail) => Ok(seq![rec] + tail),
                    Err(e) => Err(e),
                }
            },
        }
    }
}

/// The records kept among the first `i` inputs.
pub open spec fn kept_records(
    rs: Seq<Result<Record, DecodeError>>,
    ds: Seq<FilterDecision>,
    i: int,
) -> Seq<Record>
    decreases i,
{
    if i <= 0 {
        Seq::empty()
    } else {
        kept_records(rs, ds, i - 1) + (if rs[i - 1] is Ok && ds[i - 1] is Keep {
            seq![rs[i - 1]->Ok_0]
        } else {
            Seq::empty()
        })
    }
}

/// The run is still in progress after the first `i` inputs: each
/// decoded, none stopped, and every kept record was writable.
pub open spec fn live_through(
    rv: Seq<(Seq<u8>, u32)>,
    rs: Seq<Result<Record, DecodeError>>,
    ds: Seq<FilterDecision>,
    i: int,
) -> bool {
    forall|j: int|
        0 <= j < i ==> (#[trigger] rs[j]) is Ok && !(ds[j] is Stop) && (ds[j] is Keep ==> rec_ok(
            rv,
            rs[j]->Ok_0,
        ))
}

/// The kept records among the first `i` inputs depend only on the first
/// `i` decisions.
proof fn lemma_kept_frame(
    rs: Seq<Result<Record, DecodeError>>,
    ds1: Seq<FilterDecision>,
    ds2: Seq<FilterDecision>,
    i: int,
)
    requires
        forall|q: int| 0 <= q < i ==> ds1[q] == #[trigger] ds2[q],
    ensures
        kept_records(rs, ds1, i) == kept_records(rs, ds2, i),
    decreases i,
{
    if i > 0 {
        lemma_kept_frame(rs, ds1, ds2, i - 1);
        assert(ds1[i - 1] == ds2[i - 1]);
    }
}

/// While the run is live through `i`, the whole run equals the kept
/// prefix followed by the run over the remaining inputs.
pub proof fn lemma_run_prefix(
    rv: Seq<(Seq<u8>, u32)>,
    rs: Seq<Result<Record, DecodeError>>,
    ds: Seq<FilterDecision>,
    i: int,
)
    requires
        0 <= i <= rs.len(),
        ds.len() == rs.len(),
        live_through(rv, rs, ds, i),
    ensures
        run_model(rv, rs, ds) == (match run_model(rv, rs.skip(i), ds.skip(i)) {
            Ok(tail) => Ok::<Seq<Record>, SAMError>(kept_records(rs, ds, i) + tail),
            Err(e) => Err::<Seq<Record>, SAMError>(e),
        }),
    decreases i,
{
    if i == 0 {
        assert(rs.skip(0) =~= rs);
        assert(ds.skip(0) =~= ds);
        match run_model(rv, rs, ds) {
            Result::Ok(tail) => {
                assert(kept_records(rs, ds, 0) + tail =~= tail);
            },
            Result::Err(_) => {},
        }
    } else {
        assert(live_through(rv, rs, ds, i - 1));
        lemma_run_prefix(rv, rs, ds, i - 1);
        let a = rs.skip(i - 1);
        let bb = ds.skip(i - 1);
        assert(a[0] == rs[i - 1]);
        assert(bb[0] == ds[i - 1]);
        assert(a.drop_first() =~= rs.skip(i));
        assert(bb.drop_first() =~= ds.skip(i));
        assert(rs[i - 1] is Ok && !(ds[i - 1] is Stop) && (ds[i - 1] is Keep ==> rec_ok(
            rv,
            rs[i - 1]->Ok_0,
        )));
        let rec = rs[i - 1]->Ok_0;
        assert(kept_records(rs, ds, i) == kept_records(rs, ds, i - 1) + (if rs[i - 1] is Ok && ds[i
            - 1] is Keep {
            seq![rec]
        } else {
            Seq::empty()
        }));
        match ds[i - 1] {
            FilterDecision::Discard => {
                assert(run_model(rv, a, bb) == run_model(rv, rs.skip(i), ds.skip(i)));
                assert(kept_records(rs, ds, i) =~= kept_records(rs, ds, i - 1));
                match run_model(rv, rs.skip(i), ds.skip(i)) {
                    Result::Ok(t) => {
                        assert(kept_records(rs, ds, i - 1) + t =~= kept_records(rs, ds, i) + t);
                    },
                    Result::Err(_) => {},
                }
            },
            FilterDecision::Keep => {
                assert(rec_ok(rv, rec));
                match run_model(rv, rs.skip(i), ds.skip(i)) {
                    Result::Ok(t) => {
                        assert(run_model(rv, a, bb) == Ok::<Seq<Record>, SAMError>(seq![rec] + t));
                        assert(kept_records(rs, ds, i - 1) + (seq![rec] + t) =~= kept_records(
                            rs,
                            ds,
                            i,
                        ) + t);
                    },
                    Result::Err(_) => {},
                }
            },
            FilterDecision::Stop => {
                assert(false);
            },
        }
    }
}

/// The `"-"` sentinel selects standard output.
fn is_stdout_descr(s: &str) -> (r: bool)
    ensures
        r == (s@ == seq!['-']),
{
    if s.unicode_len() == 1 {
        let c = s.get_char(0);
        proof {
            if c == '-' {
                assert(s@ =~= seq!['-']);
            } else {
                assert(seq!['-'][0] == '-');
                assert(s@ != seq!['-']);
            }
        }
        c == '-'
    } else {
        proof {
            assert(seq!['-'].len() == 1);
        }
        false
    }
}

/// Read an input stream; for each record apply `f` to it, and write the
/// record to the SAM sink if `f` returned `Keep`, skip it on `Discard`,
/// and terminate iteration on `Stop` (a deliberate completion, not an
/// error).
///
/// `bam` is the outcome of opening the input descriptor: the opened
/// stream, or nothing when it could not be opened, in which case the
/// pipeline aborts with `IOError` before any sink exists. `samfile` is
/// the output descriptor, a path or the `"-"` sentinel for standard
/// output. On every completed run the returned sink is closed and holds
/// the derived header block followed by the kept records in input
/// order; every aborted run surfaces `IOError`.
pub fn from_bam_with_filter<F: Fn(&Record) -> FilterDecision>(
    bam: Option<BamReader>,
    samfile: &str,
    f: F,
) -> (r: Result<Sink, SAMError>)
    requires
        forall|rec: &Record| #[trigger] call_requires(f, (rec,)),
    ensures
        match bam {
            Option::None => r == Err::<Sink, SAMError>(SAMError::IOError),
            Option::Some(b) => {
                if !b.header.wf() {
                    r == Err::<Sink, SAMError>(SAMError::IOError)
                } else if samfile@ != seq!['-'] && samfile@.len() == 0 {
                    r == Err::<Sink, SAMError>(SAMError::IOError)
                } else {
                    exists|ds: Seq<FilterDecision>|
                        #![trigger run_model(refs_view(b.header.refs@), b.records@, ds)]
                        {
                            &&& ds.len() == b.records@.len()
                            &&& (forall|i: int|
                                0 <= i < b.records@.len() && live_through(
                                    refs_view(b.header.refs@),
                                    b.records@,
                                    ds,
                                    i,
                                ) && b.records@[i] is Ok ==> call_ensures(
                                    f,
                                    (&b.records@[i]->Ok_0,),
                                    #[trigger] ds[i],
                                ))
                            &&& (match run_model(refs_view(b.header.refs@), b.records@, ds) {
                                Ok(written) => {
                                    &&& r is Ok
                                    &&& r->Ok_0.closed
                                    &&& r->Ok_0.buf@ == header_bytes(b.header) + rec_lines(
                                        refs_view(b.header.refs@),
                                        written,
                                    )
                                    &&& (if samfile@ == seq!['-'] {
                                        r->Ok_0.dest is Stdout
                                    } else {
                                        r->Ok_0.dest is Path && r->Ok_0.dest->Path_0@ == samfile@
                                    })
                                },
                                Err(e) => r == Err::<Sink, SAMError>(e),
                            })
                        }
                }
            },
        },
{
    let b = match bam {
        Option::Some(b) => b,
        Option::None => {
            return Err(SAMError::IOError);
        },
    };
    let derived = match Header::from_template(&b.header) {
        Option::Some(h) => h,
        Option::None => {
            return Err(SAMError::IOError);
        },
    };
    let dash = is_stdout_descr(samfile);
    let mut writer = if dash {
        match SAMWriter::from_stdout(&derived) {
            Result::Ok(w) => w,
            Result::Err(_) => {
                proof {
                    assert(false);
                }
                return Err(SAMError::IOError);
            },
        }
    } else {
        if samfile.unicode_len() == 0 {
            return Err(SAMError::IOError);
        }
        match SAMWriter::from_path(samfile, &derived) {
            Result::Ok(w) => w,
            Result::Err(_) => {
                proof {
                    assert(false);
                }
                return Err(SAMError::IOError);
            },
        }
    };
    let ghost rv = refs_view(b.header.refs@);
    let ghost rs = b.records@;
    let ghost dest0 = writer.f.dest;
    proof {
        lemma_header_bytes_equiv(derived, b.header);
        assert(refs_view(writer.header.inner.refs@) == rv);
        assert(kept_records(rs, Seq::empty(), 0) =~= Seq::<Record>::empty());
        assert(writer.f.buf@ =~= header_bytes(b.header) + rec_lines(
            rv,
            kept_records(rs, Seq::empty(), 0),
        ));
    }
    let ghost mut ds: Seq<FilterDecision> = Seq::empty();
    let mut i: usize = 0;
    #[verifier::loop_isolation(false)]
    while i < b.records.len()
        invariant
            i <= rs.len(),
            ds.len() == i,
            live_through(rv, rs, ds, i as int),
            forall|q: int|
                0 <= q < i ==> (rs[q] is Ok ==> call_ensures(f, (&rs[q]->Ok_0,), #[trigger] ds[q])),
            writer.wf(),
            refs_view(writer.header.inner.refs@) == rv,
            writer.f.dest == dest0,
            writer.f.buf@ == header_bytes(b.header) + rec_lines(
                rv,
                kept_records(rs, ds, i as int),
            ),
        decreases rs.len() - i,
    {
        let ghost ds_old = ds;
        let rec_res = &b.records[i];
        match rec_res {
            Result::Err(_) => {
                // decode failure: abandon the remaining input
                proof {
                    let ds_pad = ds + Seq::new((rs.len() - i) as nat, |t: int| FilterDecision::Stop);
                    assert(ds_pad.len() == rs.len());
                    assert forall|q: int|
                        0 <= q < rs.len() && live_through(rv, rs, ds_pad, q) && rs[q] is Ok implies call_ensures(
                        f,
                        (&rs[q]->Ok_0,),
                        #[trigger] ds_pad[q],
                    ) by {
                        if q < i {
                            assert(ds_pad[q] == ds[q]);
                        } else {
                            assert(rs[i as int] is Ok);
                            assert(false);
                        }
                    }
                    assert(live_through(rv, rs, ds_pad, i as int)) by {
                        assert(forall|j: int| 0 <= j < i ==> ds_pad[j] == #[trigger] ds[j]);
                    }
                    lemma_run_prefix(rv, rs, ds_pad, i as int);
                    assert(rs.skip(i as int)[0] == rs[i as int]);
                    assert(run_model(rv, rs.skip(i as int), ds_pad.skip(i as int)) == Err::<
                        Seq<Record>,
                        SAMError,
                    >(SAMError::IOError));
                    assert(run_model(rv, rs, ds_pad) == Err::<Seq<Record>, SAMError>(
                        SAMError::IOError,
                    ));
                }
                return Err(SAMError::IOError);
            },
            Result::Ok(rec) => {
                let d = f(rec);
                proof {
                    ds = ds.push(d);
                    assert(*rec == rs[i as int]->Ok_0);
                    assert(call_ensures(f, (&rs[i as int]->Ok_0,), d));
                    assert(forall|j: int| 0 <= j < i ==> ds[j] == #[trigger] ds_old[j]);
                    assert(ds[i as int] == d);
                    lemma_kept_frame(rs, ds, ds_old, i as int);
                }
                match d {
                    FilterDecision::Stop => {
                        // deliberate early completion: write nothing further
                        proof {
                            let ds_pad = ds + Seq::new(
                                (rs.len() - i - 1) as nat,
                                |t: int| FilterDecision::Stop,
                            );
                            assert(ds_pad.len() == rs.len());
                            assert(forall|j: int| 0 <= j <= i ==> ds_pad[j] == #[trigger] ds[j]);
                            assert forall|q: int|
                                0 <= q < rs.len() && live_through(rv, rs, ds_pad, q) && rs[q] is Ok implies call_ensures(
                                f,
                                (&rs[q]->Ok_0,),
                                #[trigger] ds_pad[q],
                            ) by {
                                if q < i {
                                    assert(ds_pad[q] == ds_old[q]);
                                } else if q == i {
                                    assert(ds_pad[q] == d);
                                } else {
                                    assert(ds_pad[i as int] is Stop);
                                    assert(false);
                                }
                            }
                            assert(live_through(rv, rs, ds_pad, i as int)) by {
                                assert(forall|j: int| 0 <= j < i ==> ds_pad[j] == #[trigger] ds_old[j]);
                            }
                            lemma_run_prefix(rv, rs, ds_pad, i as int);
                            assert(rs.skip(i as int)[0] == rs[i as int]);
                            assert(ds_pad.skip(i as int)[0] == d);
                            assert(run_model(rv, rs.skip(i as int), ds_pad.skip(i as int)) == Ok::<
                                Seq<Record>,
                                SAMError,
                            >(Seq::empty()));
                            lemma_kept_frame(rs, ds_pad, ds_old, i as int);
                            assert(kept_records(rs, ds_pad, i as int) + Seq::<Record>::empty()
                                =~= kept_records(rs, ds_old, i as int));
                            assert(run_model(rv, rs, ds_pad) == Ok::<Seq<Record>, SAMError>(
                                kept_records(rs, ds_old, i as int),
                            ));
                        }
                        let sink = writer.close();
                        return Ok(sink);
                    },
                    FilterDecision::Discard => {
                        proof {
                            assert(kept_records(rs, ds, i + 1) =~= kept_records(rs, ds, i as int));
                        }
                        i += 1;
                    },
                    FilterDecision::Keep => {
                        match writer.write(rec) {
                            Result::Ok(_) => {
                                proof {
                                    assert(rec_ok(rv, rs[i as int]->Ok_0));
                                    lemma_rec_lines_snoc(
                                        rv,
                                        kept_records(rs, ds, i as int),
                                        rs[i as int]->Ok_0,
                                    );
                                    assert(kept_records(rs, ds, i + 1) =~= kept_records(
                                        rs,
                                        ds,
                                        i as int,
                                    ).push(rs[i as int]->Ok_0));
                                    assert(writer.f.buf@ =~= header_bytes(b.header) + rec_lines(
                                        rv,
                                        kept_records(rs, ds, i + 1),
                                    ));
                                }
                                i += 1;
                            },
                            Result::Err(_) => {
                                // failed per-record write: abort the pipeline
                                proof {
                                    assert(!rec_ok(rv, rs[i as int]->Ok_0));
                                    let ds_pad = ds + Seq::new(
                                        (rs.len() - i - 1) as nat,
                                        |t: int| FilterDecision::Stop,
                                    );
                                    assert(ds_pad.len() == rs.len());
                                    assert(forall|j: int|
                                        0 <= j <= i ==> ds_pad[j] == #[trigger] ds[j]);
                                    assert forall|q: int|
                                        0 <= q < rs.len() && live_through(rv, rs, ds_pad, q) && rs[q] is Ok implies call_ensures(
                                        f,
                                        (&rs[q]->Ok_0,),
                                        #[trigger] ds_pad[q],
                                    ) by {
                                        if q < i {
                                            assert(ds_pad[q] == ds_old[q]);
                                        } else if q == i {
                                            assert(ds_pad[q] == d);
                                        } else {
                                            assert(ds_pad[i as int] is Keep);
                                            assert(!rec_ok(rv, rs[i as int]->Ok_0));
                                            assert(false);
                                        }
                                    }
                                    assert(live_through(rv, rs, ds_pad, i as int)) by {
                                        assert(forall|j: int|
                                            0 <= j < i ==> ds_pad[j] == #[trigger] ds_old[j]);
                                    }
                                    lemma_run_prefix(rv, rs, ds_pad, i as int);
                                    assert(rs.skip(i as int)[0] == rs[i as int]);
                                    assert(ds_pad.skip(i as int)[0] == d);
                                    assert(run_model(rv, rs.skip(i as int), ds_pad.skip(i as int))
                                        == Err::<Seq<Record>, SAMError>(SAMError::IOError));
                                    assert(run_model(rv, rs, ds_pad) == Err::<
                                        Seq<Record>,
                                        SAMError,
                                    >(SAMError::IOError));
                                }
                                return Err(SAMError::IOError);
                            },
                        }
                    },
                }
            },
        }
    }
    // input exhausted without a stop signal: complete
    proof {
        assert(ds.len() == rs.len());
        lemma_run_prefix(rv, rs, ds, rs.len() as int);
        assert(rs.skip(rs.len() as int) =~= Seq::<Result<Record, DecodeError>>::empty());
        assert(run_model(rv, rs.skip(rs.len() as int), ds.skip(rs.len() as int)) == Ok::<
            Seq<Record>,
            SAMError,
        >(Seq::empty()));
        assert(kept_records(rs, ds, rs.len() as int) + Seq::<Record>::empty() =~= kept_records(
            rs,
            ds,
            rs.len() as int,
        ));
        assert(run_model(rv, rs, ds) == Ok::<Seq<Record>, SAMError>(
            kept_records(rs, ds, rs.len() as int),
        ));
    }
    let sink = writer.close();
    Ok(sink)
}

/// Order preservation: over fully decoded, writable records, an
/// always-keep decision sequence writes every record, in input order.
pub proof fn lemma_order_preservation(
    rv: Seq<(Seq<u8>, u32)>,
    rs: Seq<Result<Record, DecodeError>>,
    ds: Seq<FilterDecision>,
)
    requires
        ds.len() == rs.len(),
        forall|i: int| 0 <= i < rs.len() ==> (#[trigger] rs[i]) is Ok && rec_ok(rv, rs[i]->Ok_0),
        forall|i: int| 0 <= i < ds.len() ==> (#[trigger] ds[i]) is Keep,
    ensures
        run_model(rv, rs, ds) == Ok::<Seq<Record>, SAMError>(
            rs.map_values(|x: Result<Record, DecodeError>| x->Ok_0),
        ),
    decreases rs.len(),
{
    let m = rs.map_values(|x: Result<Record, DecodeError>| x->Ok_0);
    if rs.len() == 0 {
        assert(m =~= Seq::<Record>::empty());
    } else {
        let rt = rs.drop_first();
        let dt = ds.drop_first();
        assert(forall|i: int| 0 <= i < rt.len() ==> rt[i] == #[trigger] rs[i + 1]);
        assert(forall|i: int| 0 <= i < dt.len() ==> dt[i] == #[trigger] ds[i + 1]);
        lemma_order_preservation(rv, rt, dt);
        assert(rt.map_values(|x: Result<Record, DecodeError>| x->Ok_0) =~= m.drop_first());
        assert(seq![rs[0]->Ok_0] + m.drop_first() =~= m);
    }
}

/// Stop semantics: with the run live through `k` and a stop decision at
/// `k`, the run completes with exactly the records kept before `k`,
/// regardless of the remaining input.
pub proof fn lemma_stop_semantics(
    rv: Seq<(Seq<u8>, u32)>,
    rs: Seq<Result<Record, DecodeError>>,
    ds: Seq<FilterDecision>,
    k: int,
)
    requires
        ds.len() == rs.len(),
        0 <= k < rs.len(),
        live_through(rv, rs, ds, k),
        rs[k] is Ok,
        ds[k] is Stop,
    ensures
        run_model(rv, rs, ds) == Ok::<Seq<Record>, SAMError>(kept_records(rs, ds, k)),
{
    lemma_run_prefix(rv, rs, ds, k);
    assert(rs.skip(k)[0] == rs[k]);
    assert(ds.skip(k)[0] == ds[k]);
    assert(run_model(rv, rs.skip(k), ds.skip(k)) == Ok::<Seq<Record>, SAMError>(Seq::empty()));
    assert(kept_records(rs, ds, k) + Seq::<Record>::empty() =~= kept_records(rs, ds, k));
}

proof fn lemma_kept_none(rs: Seq<Result<Record, DecodeError>>, ds: Seq<FilterDecision>, i: int)
    requires
        forall|q: int| 0 <= q < i ==> !((#[trigger] ds[q]) is Keep),
    ensures
        kept_records(rs, ds, i) == Seq::<Record>::empty(),
    decreases i,
{
    if i > 0 {
        lemma_kept_none(rs, ds, i - 1);
        assert(kept_records(rs, ds, i) =~= Seq::<Record>::empty());
    }
}

/// A completed run's output begins with the header block, and that
/// prefix, read back by the header decoder, yields exactly the original
/// header's reference metadata and annotations, whatever records
/// follow.
pub proof fn lemma_completed_output_decodes(h: Header, written: Seq<Record>)
    requires
        h.wf(),
    ensures
        ({
            let out = header_bytes(h) + rec_lines(refs_view(h.refs@), written);
            &&& out.take(header_bytes(h).len() as int) == header_bytes(h)
            &&& parse_header(out.take(header_bytes(h).len() as int)) == Some(
                HeaderShape { refs: refs_view(h.refs@), comments: comments_view(h.comments@) },
            )
        }),
{
    let out = header_bytes(h) + rec_lines(refs_view(h.refs@), written);
    assert(out.take(header_bytes(h).len() as int) =~= header_bytes(h));
    lemma_header_round_trip(h);
}

/// Discard semantics: over fully decoded records, an all-discard
/// decision sequence completes with nothing written.
pub proof fn lemma_discard_semantics(
    rv: Seq<(Seq<u8>, u32)>,
    rs: Seq<Result<Record, DecodeError>>,
    ds: Seq<FilterDecision>,
)
    requires
        ds.len() == rs.len(),
        forall|i: int| 0 <= i < rs.len() ==> (#[trigger] rs[i]) is Ok,
        forall|i: int| 0 <= i < ds.len() ==> (#[trigger] ds[i]) is Discard,
    ensures
        run_model(rv, rs, ds) == Ok::<Seq<Record>, SAMError>(Seq::empty()),
{
    assert(live_through(rv, rs, ds, rs.len() as int));
    lemma_run_prefix(rv, rs, ds, rs.len() as int);
    assert(rs.skip(rs.len() as int) =~= Seq::<Result<Record, DecodeError>>::empty());
    assert(run_model(rv, rs.skip(rs.len() as int), ds.skip(rs.len() as int)) == Ok::<
        Seq<Record>,
        SAMError,
    >(Seq::empty()));
    lemma_kept_none(rs, ds, rs.len() as int);
    assert(kept_records(rs, ds, rs.len() as int) + Seq::<Record>::empty() =~= Seq::<
        Record,
    >::empty());
}

} // verus!
