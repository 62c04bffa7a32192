//! A static single-file lossless compressor and decompressor built on
//! frequency-weighted binary prefix codes.
//!
//! The library is the codec core: frequency analysis, prefix-tree
//! construction, code-table derivation, bit-level stream handling, and the
//! self-describing binary file format that ties them together. It works on
//! in-memory byte vectors; opening, reading and writing files is left to the
//! program around it.

pub mod bits;
pub mod stream;
pub mod tree;
pub mod table;
pub mod codec;
pub mod decode;
pub mod laws;

use vstd::prelude::*;

verus! {

/// The error kinds a codec operation can surface to its caller.
#[derive(PartialEq, Eq, Structural, Clone, Copy, Debug)]
pub enum CodecError {
    /// A file could not be opened, read or written (used by callers that do I/O).
    IOFailure,
    /// The magic literal was absent at the start of an encoded stream.
    FormatMismatch,
    /// The bit stream ran out before a required field or code was fully read.
    TruncatedStream,
    /// The input cannot be represented: empty, too large for the 32-bit size
    /// field, or needing a code longer than the 6-bit length field allows.
    UnrepresentableInput,
    /// No code-table entry matches an accumulated bit sequence within the
    /// maximum code length.
    CorruptStream,
}

} // verus!
