//! The arbitrary-precision magnitude type and its representation invariant.

use vstd::prelude::*;
use vstd::arithmetic::power2::{pow2, lemma_pow2_pos, lemma_pow2_adds, lemma2_to64};
use vstd::arithmetic::div_mod::{
    lemma_add_mod_noop_right, lemma_mul_mod_noop_right, lemma_mod_division_less_than_divisor,
};
use crate::limbs::{
    val, lemma_val_bound, lemma_val_skip_succ, lemma_val_eq_words, lemma_val_zero,
};

verus! {

/// The mathematical content of an [`UnsignedInteger`]: its little-endian
/// words and its declared logical bit length.
pub ghost struct UintModel {
    pub words: Seq<u64>,
    pub bits: nat,
}

/// The word buffer is large enough to hold `bits` bits.
pub open spec fn wf_model(m: UintModel) -> bool {
    64 * m.words.len() >= m.bits
}

/// The declared bit length does not under-state the value: the invariant
/// that group and exponent sizing in protocol code relies on.
pub open spec fn fits_model(m: UintModel) -> bool {
    val(m.words) < pow2(m.bits)
}

/// An arbitrary-precision unsigned magnitude with a declared logical bit
/// length.
///
/// The magnitude is a little-endian sequence of 64-bit words, possibly with
/// zero words above the significant ones.  `size_in_bits` may legitimately
/// exceed the tightest bit length of the value — for instance after padding
/// for alignment — but the operations here never let it under-state it.
#[derive(Debug)]
pub struct UnsignedInteger {
    words: Vec<u64>,
    /// The declared logical bit length.
    pub size_in_bits: u32,
}

impl View for UnsignedInteger {
    type V = UintModel;

    closed spec fn view(&self) -> UintModel {
        UintModel { words: self.words@, bits: self.size_in_bits as nat }
    }
}

impl UnsignedInteger {
    /// The word buffer covers the declared bit length.
    pub open spec fn wf(&self) -> bool {
        wf_model(self@)
    }

    /// The declared bit length bounds the value from above.
    pub open spec fn fits(&self) -> bool {
        fits_model(self@)
    }

    /// The natural number this magnitude stands for.
    pub open spec fn value(&self) -> nat {
        val(self@.words)
    }

    /// Assembles a magnitude from parts; the callers establish well-formedness.
    pub(crate) fn from_parts(words: Vec<u64>, size_in_bits: u32) -> (r: Self)
        ensures
            r@.words == words@,
            r@.bits == size_in_bits as nat,
    {
        UnsignedInteger { words, size_in_bits }
    }

    /// Read-only access to the little-endian words of the magnitude.
    pub fn limbs(&self) -> (r: &Vec<u64>)
        ensures
            r@ == self@.words,
    {
        &self.words
    }

    /// The declared bit length is stored in 32 bits.
    pub proof fn lemma_bits_bound(&self)
        ensures
            self@.bits <= u32::MAX,
    {
    }

    /// The declared bit length.
    pub fn bits(&self) -> (b: u32)
        ensures
            b as nat == self@.bits,
    {
        self.size_in_bits
    }

    /// The number of words in the buffer.
    pub(crate) fn word_count(&self) -> (n: usize)
        ensures
            n == self@.words.len(),
    {
        self.words.len()
    }

    /// One word of the buffer.
    pub(crate) fn word(&self, i: usize) -> (w: u64)
        requires
            i < self@.words.len(),
        ensures
            w == self@.words[i as int],
    {
        self.words[i]
    }

    /// Replaces one word of the buffer.
    pub(crate) fn set_word(&mut self, i: usize, w: u64)
        requires
            i < old(self)@.words.len(),
        ensures
            final(self)@.words == old(self)@.words.update(i as int, w),
            final(self)@.bits == old(self)@.bits,
    {
        self.words[i] = w;
    }

    /// Appends a word above the current most significant one.
    pub(crate) fn push_word(&mut self, w: u64)
        ensures
            final(self)@.words == old(self)@.words.push(w),
            final(self)@.bits == old(self)@.bits,
    {
        self.words.push(w);
    }

    /// Sets the declared bit length; the caller re-establishes the invariant.
    pub(crate) fn set_size(&mut self, bits: u32)
        ensures
            final(self)@.words == old(self)@.words,
            final(self)@.bits == bits as nat,
    {
        self.size_in_bits = bits;
    }

    /// Whether the magnitude is zero.
    pub fn is_zero(&self) -> (r: bool)
        ensures
            r == (self.value() == 0),
    {
        let n = self.words.len();
        let mut i: usize = 0;
        while i < n
            invariant
                n == self@.words.len(),
                i <= n,
                forall|k: int| 0 <= k < i ==> self@.words[k] == 0,
            decreases n - i,
        {
            if self.words[i] != 0 {
                proof {
                    crate::limbs::lemma_val_pos(self@.words, i as int);
                }
                return false;
            }
            i = i + 1;
        }
        proof {
            lemma_val_zero(self@.words);
        }
        true
    }

    /// The remainder of this magnitude modulo a small odd or even modulus,
    /// computed word by word from the most significant end.  Variable-time:
    /// used for sieve filtering, where the timing of rejected candidates is
    /// an accepted leak.
    pub fn mod_u(&self, modulus: u64) -> (r: u64)
        requires
            modulus >= 1,
        ensures
            r as nat == self.value() % (modulus as nat),
    {
        let mut acc: u64 = 0;
        let mut i: usize = self.words.len();
        proof {
            assert(self@.words.skip(i as int) =~= Seq::<u64>::empty());
            assert(val(Seq::<u64>::empty()) == 0);
            assert(0nat % (modulus as nat) == 0nat);
        }
        while i > 0
            invariant
                modulus >= 1,
                i <= self@.words.len(),
                acc as nat == val(self@.words.skip(i as int)) % (modulus as nat),
            decreases i,
        {
            i = i - 1;
            let w = self.words[i];
            let big: u128 = (acc as u128) * 0x1_0000_0000_0000_0000u128 + (w as u128);
            proof {
                lemma2_to64();
                lemma_val_skip_succ(self@.words, i as int);
                let m = modulus as int;
                let t = val(self@.words.skip(i as int + 1)) as int;
                lemma_mul_mod_noop_right(pow2(64) as int, t, m);
                lemma_add_mod_noop_right(w as int, pow2(64) as int * t, m);
                lemma_add_mod_noop_right(w as int, pow2(64) as int * (t % m), m);
                lemma_mod_division_less_than_divisor(big as int, m);
            }
            acc = (big % (modulus as u128)) as u64;
        }
        proof {
            assert(self@.words.skip(0) =~= self@.words);
        }
        acc
    }
}

/// Word-by-word value comparison of a magnitude against one with at least as
/// many buffer words.
fn eq_padded(short: &UnsignedInteger, long: &UnsignedInteger) -> (r: bool)
    requires
        short@.words.len() <= long@.words.len(),
    ensures
        r == (val(short@.words) == val(long@.words)),
{
    let n = short.word_count();
    let mut i: usize = 0;
    while i < n
        invariant
            n == short@.words.len() <= long@.words.len(),
            i <= n,
            forall|k: int| 0 <= k < i ==> short@.words[k] == long@.words[k],
        decreases n - i,
    {
        if short.word(i) != long.word(i) {
            proof {
                if val(short@.words) == val(long@.words) {
                    lemma_val_eq_words(short@.words, long@.words);
                    assert(short@.words[i as int] == long@.words[i as int]);
                }
            }
            return false;
        }
        i = i + 1;
    }
    let mut j: usize = n;
    while j < long.word_count()
        invariant
            n == short@.words.len() <= long@.words.len(),
            n <= j <= long@.words.len(),
            forall|k: int| 0 <= k < n ==> short@.words[k] == long@.words[k],
            forall|k: int| n <= k < j ==> long@.words[k] == 0,
        decreases long@.words.len() - j,
    {
        if long.word(j) != 0 {
            proof {
                if val(short@.words) == val(long@.words) {
                    lemma_val_eq_words(short@.words, long@.words);
                    assert(long@.words[j as int] == 0);
                }
            }
            return false;
        }
        j = j + 1;
    }
    proof {
        let pad = Seq::<u64>::new((long@.words.len() - n) as nat, |k: int| 0u64);
        crate::limbs::lemma_val_concat(short@.words, pad);
        lemma_val_zero(pad);
        assert(short@.words + pad =~= long@.words);
    }
    true
}

impl Clone for UnsignedInteger {
    /// An exact copy: same words, same declared bit length.
    fn clone(&self) -> (r: Self)
        ensures
            r@ == self@,
    {
        let r = UnsignedInteger { words: self.words.clone(), size_in_bits: self.size_in_bits };
        proof {
            assert(r@.words =~= self@.words);
        }
        r
    }
}

impl PartialEq for UnsignedInteger {
    /// Arbitrary-precision comparison of the values; padding words and the
    /// declared bit lengths do not take part.
    fn eq(&self, other: &Self) -> (r: bool)
        ensures
            r == (self.value() == other.value()),
    {
        if self.words.len() <= other.words.len() {
            eq_padded(self, other)
        } else {
            eq_padded(other, self)
        }
    }
}

/// Appends zero words until the buffer holds at least `need` words; the
/// value stays untouched.
pub(crate) fn pad_words(words: Vec<u64>, need: usize) -> (r: Vec<u64>)
    ensures
        val(r@) == val(words@),
        r@.len() >= need,
        r@.len() >= words@.len(),
{
    let mut out = words;
    while out.len() < need
        invariant
            val(out@) == val(words@),
            out@.len() >= words@.len(),
        decreases need - out@.len(),
    {
        let ghost pre = out@;
        out.push(0);
        proof {
            crate::limbs::lemma_val_push(pre, 0);
        }
    }
    out
}

impl vstd::std_specs::cmp::PartialEqSpecImpl for UnsignedInteger {
    open spec fn obeys_eq_spec() -> bool {
        true
    }

    open spec fn eq_spec(&self, other: &Self) -> bool {
        self.value() == other.value()
    }
}

} // verus!
