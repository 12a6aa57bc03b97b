//! The alignment record as this core consumes it: an immutable,
//! already-decoded value. The writer serializes a record against the
//! reference table of its bound header; a record is writable exactly
//! when its reference index is `-1` (unmapped) or falls inside that
//! table.

use vstd::prelude::*;

use crate::digits::dec_bytes;

verus! {

/// One decoded alignment record.
#[derive(Debug, PartialEq)]
pub struct Record {
    /// Query template name.
    pub qname: Vec<u8>,
    /// Bitwise flag.
    pub flag: u16,
    /// Index into the header's reference table, or `-1` when unmapped.
    pub ref_id: i64,
    /// Leftmost mapping position.
    pub pos: u32,
    /// Mapping quality.
    pub mapq: u8,
}

/// Failure to decode one record from the input stream.
#[derive(Debug, Clone, Copy, PartialEq, Eq, Structural)]
pub struct DecodeError {
}

/// A record serializes against a reference table (given as name/length
/// pairs) exactly when its reference index is in range.
pub open spec fn rec_ok(rv: Seq<(Seq<u8>, u32)>, r: Record) -> bool {
    -1 <= r.ref_id < rv.len()
}

/// The textual line of one record against a reference table: query
/// name, flag, reference name (`*` when unmapped), position and mapping
/// quality, tab-separated and newline-terminated.
pub open spec fn rec_line(rv: Seq<(Seq<u8>, u32)>, r: Record) -> Seq<u8> {
    r.qname@ + seq![9u8] + dec_bytes(r.flag as nat) + seq![9u8] + (if r.ref_id == -1 {
        seq![42u8]
    } else {
        rv[r.ref_id as int].0
    }) + seq![9u8] + dec_bytes(r.pos as nat) + seq![9u8] + dec_bytes(r.mapq as nat) + seq![10u8]
}

/// The concatenated lines of a sequence of records, in order.
pub open spec fn rec_lines(rv: Seq<(Seq<u8>, u32)>, rs: Seq<Record>) -> Seq<u8>
    decreases rs.len(),
{
    if rs.len() == 0 {
        Seq::empty()
    } else {
        rec_line(rv, rs[0]) + rec_lines(rv, rs.drop_first())
    }
}

pub proof fn lemma_rec_lines_snoc(rv: Seq<(Seq<u8>, u32)>, rs: Seq<Record>, r: Record)
    ensures
        rec_lines(rv, rs.push(r)) == rec_lines(rv, rs) + rec_line(rv, r),
    decreases rs.len(),
{
    if rs.len() == 0 {
        assert(rs.push(r)[0] == r);
        assert(rs.push(r).drop_first() =~= rs);
        assert(rec_lines(rv, rs.push(r)) =~= rec_lines(rv, rs) + rec_line(rv, r));
    } else {
        lemma_rec_lines_snoc(rv, rs.drop_first(), r);
        assert(rs.push(r)[0] == rs[0]);
        assert(rs.push(r).drop_first() =~= rs.drop_first().push(r));
        assert(rec_lines(rv, rs.push(r)) =~= rec_lines(rv, rs) + rec_line(rv, r));
    }
}

} // verus!
