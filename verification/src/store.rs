//! Backing storage for bit vectors.
//!
//! A bit vector reads its 64-bit words through [`WordStore`].  An owned
//! `Vec<u64>` can also grow; a borrowed byte buffer is read in place, each word
//! being eight bytes, least significant byte first.

use vstd::prelude::*;
use crate::bytes::{le_words_of, read_le};

verus! {

/// A read-only sequence of 64-bit words.
pub trait WordStore {
    /// Whether the storage holds a whole number of words.
    spec fn valid(&self) -> bool;

    /// The words held, in order.
    spec fn words(&self) -> Seq<u64>;

    /// The number of words held.
    fn word_count(&self) -> (n: usize)
        requires
            self.valid(),
        ensures
            n == self.words().len(),
    ;

    /// The word at index `i`.
    fn word_at(&self, i: usize) -> (w: u64)
        requires
            self.valid(),
            i < self.words().len(),
        ensures
            w == self.words()[i as int],
    ;
}

impl WordStore for Vec<u64> {
    open spec fn valid(&self) -> bool {
        true
    }

    open spec fn words(&self) -> Seq<u64> {
        self@
    }

    fn word_count(&self) -> (n: usize) {
        self.len()
    }

    fn word_at(&self, i: usize) -> (w: u64) {
        self[i]
    }
}

impl<'a> WordStore for &'a [u8] {
    open spec fn valid(&self) -> bool {
        self@.len() % 8 == 0
    }

    open spec fn words(&self) -> Seq<u64> {
        le_words_of(self@)
    }

    fn word_count(&self) -> (n: usize) {
        self.len() / 8
    }

    fn word_at(&self, i: usize) -> (w: u64) {
        let n: usize = self.len();
        assert(8 * i + 8 <= n);
        read_le(*self, 8 * i)
    }
}

} // verus!
