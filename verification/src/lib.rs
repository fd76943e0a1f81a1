//! Bit-granular binary input/output: reading and writing individual bits and
//! arbitrary-width (1-128 bit) integers over byte buffers, MSB-first, with
//! explicit control over partial-byte padding.

pub mod bits;
pub mod error;
pub mod reader;
pub mod writer;
