//! Filters tagged packet records out of a recorded-session archive's
//! binary stream.
//!
//! The stream is a back-to-back sequence of records, each a 4-byte
//! big-endian timestamp, a 4-byte big-endian length, and exactly
//! `length` payload bytes.  A record's tag is a variable-length
//! integer at the start of its payload; records whose tag is in a
//! caller-supplied filter list are dropped, all other records are
//! reproduced byte-identically.

use vstd::prelude::*;

pub mod codes;
pub mod laws;
pub mod process;
pub mod utils;

verus! {

/// The command-line arguments of the filtering tool: the input and
/// output archive paths and the textual filter-code list.
pub struct Args {
    /// Path of the archive to read.
    pub input: String,
    /// Path of the archive to write.
    pub output: String,
    /// Comma-separated filter codes, hexadecimal or decimal.
    pub codes: String,
}

/// Errors the library reports.
#[derive(Clone, Copy, Debug, PartialEq, Eq, Structural)]
pub enum McprError {
    /// A filter-list token is neither valid hexadecimal nor valid
    /// decimal, or does not fit in 32 bits.
    InvalidCode,
    /// A record's declared payload extends past the end of the buffer,
    /// or a variable-length integer ends before its final byte.
    UnexpectedEof,
    /// A variable-length integer does not terminate within 5 bytes.
    VarintTooLong,
}

} // verus!
