//! Transient working storage for the constant-time arithmetic primitives.

use vstd::prelude::*;

verus! {

/// An exact-sized working buffer for constant-time primitives that need
/// auxiliary storage proportional to the operand's word count.
///
/// A `Scratch` is acquired immediately before one primitive call, sized by
/// that primitive's own itch computation, and discarded when the operation
/// completes; it is never reused across differently-shaped operations.
pub struct Scratch {
    buf: Vec<u64>,
}

impl View for Scratch {
    type V = Seq<u64>;

    closed spec fn view(&self) -> Seq<u64> {
        self.buf@
    }
}

impl Scratch {
    /// The auxiliary word count that a constant-time single-word addition
    /// over `words` operand words requires: one working word per operand word.
    pub fn add_word_itch(words: usize) -> (r: usize)
        ensures
            r == words,
    {
        words
    }

    /// A zeroed buffer of exactly `size` words.
    pub fn new(size: usize) -> (r: Self)
        ensures
            r@.len() == size,
            forall|i: int| 0 <= i < size ==> r@[i] == 0,
    {
        let buf: Vec<u64> = vec![0u64; size];
        Scratch { buf }
    }

    /// The buffer's word count.
    pub fn len(&self) -> (n: usize)
        ensures
            n == self@.len(),
    {
        self.buf.len()
    }

    /// Reads one working word.
    pub fn read(&self, i: usize) -> (w: u64)
        requires
            i < self@.len(),
        ensures
            w == self@[i as int],
    {
        self.buf[i]
    }

    /// Overwrites one working word.
    pub fn write(&mut self, i: usize, w: u64)
        requires
            i < old(self)@.len(),
        ensures
            final(self)@ == old(self)@.update(i as int, w),
    {
        self.buf[i] = w;
    }
}

} // verus!
