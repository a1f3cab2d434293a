//! A lossless byte-stream compressor and decompressor.
//!
//! The format is an LZ77-style sliding-window scheme: the encoded stream is a
//! concatenation of self-delimiting chunks, each either a run of literal bytes
//! or a back-reference `(distance, length)` into the output produced so far.

use vstd::prelude::*;

pub mod codec;
pub mod compress;
pub mod decompress;
pub mod round_trip;

verus! {

/// The ways a call into the library can fail.
#[derive(Clone, Copy, Debug, PartialEq, Eq, Structural)]
pub enum LzError {
    /// Compression was asked to process an empty buffer.
    InvalidInput,
    /// The encoded stream is truncated, or a chunk's length or distance field
    /// would read or write out of bounds.
    MalformedStream,
}

} // verus!
