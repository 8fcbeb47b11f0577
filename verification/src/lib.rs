//! Leapfrog join: intersection of sorted key sequences.
//!
//! The crate provides two layers. [`cursor::LinearIterator`] is a
//! forward-only position tracker over one sorted sequence of keys,
//! supporting single-step advance and monotone seek. [`join::LeapFrogJoin`]
//! coordinates one such cursor per input sequence and yields, in ascending
//! order, exactly the keys present in every input.

pub mod cursor;
pub mod join;
pub mod seqs;
