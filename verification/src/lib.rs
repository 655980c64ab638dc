//! Buffered transcoding between a row-oriented relational source and a
//! columnar, strongly typed storage format.
//!
//! The crate holds the verified core of the transcoder: the type-mapping
//! resolver that turns a column schema into buffer layouts, the decimal and
//! temporal encoders that produce the storage format's physical values bit
//! for bit, the reusable columnar batch buffer with its packed value and
//! validity arrays, and the arithmetic that splits a job into batches and
//! numbered output files. Reading rows, writing files and the database
//! connection stay outside; they hand plain values in and take plain
//! values back.

use vstd::prelude::*;

pub mod buffer;
pub mod decimal;
pub mod plan;
pub mod resolve;
pub mod statement;
pub mod temporal;

verus! {

/// A single value could not be encoded for the columnar output.
#[derive(Clone, Copy, Debug, PartialEq, Eq, Structural)]
pub enum EncodeError {
    /// The textual decimal held something besides an optional sign, digits
    /// and a decimal point.
    MalformedDecimal,
    /// The decimal value does not fit the fixed-length byte slot of the column.
    DecimalOutOfRange,
    /// The time text did not match `HH:MM:SS` with an optional fraction.
    MalformedTime,
}

} // verus!
