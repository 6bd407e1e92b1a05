//! Randomness capabilities consumed by the search engine.
//!
//! The engine never constructs randomness itself: callers hand it a
//! [`GeneralRng`] wrapping any [`SecureRng`] source — the operating system's
//! entropy for key generation, or a replayable stream for deterministic runs.

use vstd::prelude::*;
use vstd::arithmetic::power2::{pow2, lemma_pow2_pos, lemma_pow2_adds, lemma2_to64};
use vstd::bits::{lemma_u64_shl_is_mul, lemma_u64_pow2_no_overflow, lemma_u64_low_bits_mask_is_mod, low_bits_mask};
use crate::limbs::{val, lemma_val_bound, lemma_val_split};
use crate::uint::UnsignedInteger;

verus! {

/// A cryptographically secure source of random words.
pub trait SecureRng {
    /// The next word of the stream.
    fn next_u64(&mut self) -> u64;
}

/// The engine's handle on a randomness source.
pub struct GeneralRng<R: SecureRng> {
    rng: R,
}

impl<R: SecureRng> GeneralRng<R> {
    /// Wraps a randomness source for use by the search engine.
    pub fn new(rng: R) -> Self {
        GeneralRng { rng }
    }

    /// Draws the next word from the wrapped source.
    pub fn next_word(&mut self) -> u64 {
        self.rng.next_u64()
    }
}

/// Entropy drawn from the operating system.
pub struct OsEntropy;

impl SecureRng for OsEntropy {
    fn next_u64(&mut self) -> u64 {
        os_random_word()
    }
}

/// Relies on rand_core::OsRng (RngCore::next_u64): operating-system
/// randomness; nothing can be promised of the value.
#[verifier::external_body]
fn os_random_word() -> u64 {
    rand_core::RngCore::next_u64(&mut rand_core::OsRng)
}

/// A replayable stream of words, cycled when exhausted: two searches fed
/// the same stream behave identically.
pub struct StreamRng {
    /// The words replayed, in order.
    pub words: Vec<u64>,
    /// The position of the next word handed out.
    pub next: usize,
}

impl StreamRng {
    /// A stream that replays the given words from the beginning.
    pub fn new(words: Vec<u64>) -> Self {
        StreamRng { words, next: 0 }
    }
}

impl SecureRng for StreamRng {
    fn next_u64(&mut self) -> u64 {
        if self.words.len() == 0 {
            0
        } else {
            let i = if self.next < self.words.len() {
                self.next
            } else {
                0
            };
            let w = self.words[i];
            self.next = i + 1;
            w
        }
    }
}

impl UnsignedInteger {
    /// A uniformly random magnitude of the declared bit length: fresh words
    /// from the source, with the bits above the declared length cleared.
    pub fn random<R: SecureRng>(bit_length: u64, rng: &mut GeneralRng<R>) -> (r: UnsignedInteger)
        requires
            1 <= bit_length <= u32::MAX,
        ensures
            r.wf(),
            r.fits(),
            r@.bits == bit_length as nat,
    {
        let nwords: usize = ((bit_length + 63) / 64) as usize;
        proof {
            vstd::arithmetic::div_mod::lemma_fundamental_div_mod(bit_length as int, 64);
            let q = bit_length as int / 64;
            let u = bit_length as int % 64;
            if u == 0 {
                vstd::arithmetic::div_mod::lemma_div_multiples_vanish_fancy(q, 63, 64);
                assert(bit_length + 63 == 64 * q + 63);
                assert(nwords == q);
            } else {
                vstd::arithmetic::div_mod::lemma_div_multiples_vanish_fancy(q + 1, u - 1, 64);
                assert(bit_length + 63 == 64 * (q + 1) + (u - 1));
                assert(nwords == q + 1);
                assert(64 * (nwords - 1) + u == bit_length);
            }
            assert(64 * nwords >= bit_length);
        }
        let mut words: Vec<u64> = Vec::new();
        let mut i: usize = 0;
        while i < nwords
            invariant
                words@.len() == i,
                i <= nwords,
            decreases nwords - i,
        {
            let w = rng.next_word();
            words.push(w);
            i = i + 1;
        }
        let used: u64 = bit_length % 64;
        if used != 0 {
            let top = words[nwords - 1];
            let pw: u64 = 1u64 << used;
            proof {
                assert(pw >= 1) by (bit_vector)
                    requires
                        pw == 1u64 << used,
                        used < 64,
                ;
            }
            let mask: u64 = pw - 1;
            let masked = top & mask;
            let ghost pre = words@;
            words[nwords - 1] = masked;
            proof {
                lemma_u64_pow2_no_overflow(used as nat);
                lemma_u64_shl_is_mul(1u64, used);
                lemma_pow2_pos(used as nat);
                assert((1u64 << used) as nat == pow2(used as nat));
                assert(mask == (low_bits_mask(used as nat)) as u64);
                lemma_u64_low_bits_mask_is_mod(top, used as nat);
                assert((masked as nat) == (top as nat) % pow2(used as nat));
                assert((masked as nat) < pow2(used as nat));
                // The value splits at the top word, which is now below the
                // remaining bit budget.
                lemma_val_split(words@, nwords as int - 1);
                lemma_val_bound(words@.take(nwords as int - 1));
                assert(words@.skip(nwords as int - 1) =~= seq![masked]);
                assert(seq![masked].subrange(1, 1) =~= Seq::<u64>::empty());
                assert(val(seq![masked].subrange(1, 1)) == 0);
                assert(val(seq![masked]) == masked as nat + pow2(64) * val(
                    seq![masked].subrange(1, 1),
                ));
                lemma_pow2_adds((64 * (nwords - 1)) as nat, used as nat);
                assert(64 * (nwords - 1) + used == bit_length);
                let p = pow2((64 * (nwords - 1)) as nat);
                lemma_pow2_pos((64 * (nwords - 1)) as nat);
                assert(val(words@) < p * pow2(used as nat)) by (nonlinear_arith)
                    requires
                        val(words@) == val(words@.take(nwords as int - 1)) + p * (masked as nat),
                        val(words@.take(nwords as int - 1)) < p,
                        (masked as nat) < pow2(used as nat),
                        p > 0,
                        pow2(used as nat) > 0,
                ;
            }
        } else {
            proof {
                lemma_val_bound(words@);
                assert(64 * nwords == bit_length);
            }
        }
        UnsignedInteger::from_parts(words, bit_length as u32)
    }
}

} // verus!
