//! The error vocabulary of the bit stream layer.

use vstd::prelude::*;

verus! {

/// Why a bit-level read or write could not be carried out.
#[derive(Clone, Copy, Debug, PartialEq, Eq, Structural)]
pub enum BitError {
    /// The reader needed a fresh byte but the source had none left.
    UnexpectedEndOfInput,
    /// A `read_bits` or `write_bits` call asked for more than 128 bits.
    InvalidBitWidth,
    /// A sink accepted zero bytes when a completed byte was handed to it.
    ZeroBytesWritten,
    /// Any other failure of an underlying stream, passed through unchanged.
    UnderlyingIoError,
}

} // verus!
