//! Word and half-word types of the block header.
//!
//! A header occupies one machine word; the two sizes it stores occupy half a
//! word each. The library is laid out for hosts with 64-bit words.

use vstd::prelude::*;

verus! {

/// Half of a machine word: the unit in which block sizes are stored.
pub type HalfWord = u32;

/// A full machine word as a fixed-width integer.
pub type Word = u64;

/// The largest size, in words, that a header can hold.
pub const HALF_WORD_MAX: u32 = 0xFFFF_FFFF;

/// The number of bytes in a machine word.
pub const WORD_SIZE: usize = 8;

} // verus!
