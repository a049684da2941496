//! A set of small unsigned integers stored as bits of machine words.
//!
//! The first clusters of a set live in a fixed array of words; larger elements go to words
//! kept in a growable vector. `BitSet` gives every cluster up to the largest one used a word;
//! `IncompleteBitSet` keeps words only for the clusters that were used, found through a
//! directory word, which bounds its elements.
pub mod bench;
pub mod bits;
pub mod dense;
pub mod elem;
pub mod incomplete;
pub mod word;

pub use dense::{new_bit_set, BitSet};
pub use elem::SetElem;
pub use incomplete::IncompleteBitSet;
pub use word::{Biterator, WordBitSet};
