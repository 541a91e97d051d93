//! A bit-level stream-reading library.
//!
//! A container of fixed-width words (bytes, wider integers, booleans, text
//! bytes) is exposed as one continuous sequence of bits, and a cursor-based
//! reader extracts single bits, nibbles, bytes and fixed-width integers in
//! either byte order, with verified contracts over the underlying bit
//! sequence.
use vstd::prelude::*;

pub mod bit;
pub mod error;

verus! {

/// Conversion of a value out of a byte-oriented source; implementors build
/// the value from whatever bytes they have at hand.
pub trait ByteCast: Sized {
    fn cast() -> Self;
}

} // verus!
