//! Combinatorial wordlist generation from a compact mask.
//!
//! A mask describes an ordered list of positions. Each position ranges over
//! the bytes of a character class or over the words of a wordlist, and the
//! generators emit every combination of the positions exactly once, one per
//! line, with the rightmost position changing fastest.
use vstd::prelude::*;

pub mod bytes;
pub mod charsets;
pub mod errors;
pub mod generators;
pub mod items;
pub mod mask;
pub mod odometer;
pub mod stackbuf;
pub mod wordlists;

verus! {

/// Capacity in bytes of the batch buffer that coalesces lines before a write.
pub const BUFFER_SIZE: usize = 8192;

/// Largest length in bytes of one emitted line, its line feed included.
pub const MAX_WORD_SIZE: usize = 128;

} // verus!
