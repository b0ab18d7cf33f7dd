//! Cacheline Elias-Fano: a compressed, read-only container for a sorted list
//! of 40-bit integers that answers every random-access query from a single
//! 64-byte chunk.
//!
//! [`CachelineEf`] packs up to 44 sorted values whose span is at most
//! `256 * 84 = 21504` into one 64-byte record (`64 * 8 / 44` is about 11.6
//! bits per value): a 32-bit reduced offset, a 128-bit boundary bitmap for
//! the high parts, and one low byte per value. Decoding uses one population
//! count and one select-in-word step, so a query touches only the chunk that
//! holds its index.
//!
//! [`CachelineEfVec`] splits a sorted list into consecutive windows of 44
//! values, one chunk per window, and dispatches `index` queries to the right
//! chunk. Construction fails exactly when some window spans more than 21504;
//! every other contract obligation (sortedness, the 40-bit range, bounded
//! indices) is a precondition.
//!
//! The encoding is profitable when consecutive values differ by roughly 100,
//! where classic Elias-Fano would use about 9 bits per value but needs around
//! three memory reads per query instead of one.

pub mod bits;
pub mod chunk;
pub mod vector;

pub use crate::chunk::CachelineEf;
pub use crate::vector::CachelineEfVec;
