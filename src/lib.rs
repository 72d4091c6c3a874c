//! Packed bit storage over arrays of 64-bit words: single bits, bit ranges and
//! fixed-width fragments that may straddle word boundaries, population counts
//! and iteration over set bits.

pub mod words;
pub mod lemmas;
pub mod bitvec;
pub mod ones;
pub mod coding;
pub mod laws;

pub use words::{ceiling_div, n_lowest_bits};
pub use bitvec::{BitAccess, BitVec};
pub use ones::BitOnesIterator;
pub use coding::{Coding, bits_to_store, encode_all};
