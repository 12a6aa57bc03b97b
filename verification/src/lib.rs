//! Verified core of a streaming BAM-to-SAM transcoder.
//!
//! The crate models the textual (SAM) side of the conversion: a header
//! model with a canonical byte serialization and its inverse, a record
//! writer that emits the header once at open time and records thereafter,
//! and a filter pipeline that routes each decoded record through a
//! caller-supplied keep/discard/stop predicate. File handles and the
//! binary (BAM) decoder live outside this crate; the pipeline consumes
//! already-decoded records and yields the finished sink.

pub mod digits;
pub mod header;
pub mod record;
pub mod sam;
