//! Bit-level operations on magnitudes: forcing single bits, right shifts,
//! and the decrement used by the modulus assembly.

use vstd::prelude::*;
use vstd::arithmetic::power2::{
    pow2, lemma_pow2_pos, lemma_pow2_adds, lemma_pow2_strictly_increases, lemma2_to64,
};
use vstd::arithmetic::div_mod::{
    lemma_fundamental_div_mod, lemma_fundamental_div_mod_converse, lemma_mod_multiples_vanish,
};
use vstd::bits::{
    lemma_u64_shl_is_mul, lemma_u64_pow2_no_overflow, lemma_u64_shr_is_div,
    lemma_u64_low_bits_mask_is_mod, low_bits_mask,
};
use crate::limbs::{
    val, lemma_val_word_split, lemma_val_split, lemma_val_bound, lemma_val_take_succ,
    lemma_val_push, lemma_val_zero, lemma_val_all_ones, lemma_val_skip_succ,
};
use crate::uint::UnsignedInteger;

verus! {

/// Setting one bit of a word: the bits below it stay, the bit itself
/// becomes one, the bits above it stay.
proof fn lemma_word_set_bit(w: u64, j: u64)
    requires
        j < 64,
    ensures
        ((w | (1u64 << j)) as nat) % pow2(j as nat) == (w as nat) % pow2(j as nat),
        (((w | (1u64 << j)) as nat) / pow2(j as nat)) % 2 == 1,
        ((w | (1u64 << j)) as nat) / pow2((j + 1) as nat) == (w as nat) / pow2((j + 1) as nat),
{
    let nw = w | (1u64 << j);
    lemma_u64_pow2_no_overflow(j as nat);
    lemma_u64_shl_is_mul(1u64, j);
    assert((1u64 << j) as nat == pow2(j as nat));
    lemma2_to64();
    lemma_pow2_pos(j as nat);
    // Low bits unchanged.
    let m: u64 = (low_bits_mask(j as nat)) as u64;
    assert(m == ((1u64 << j) - 1) as u64);
    assert(nw & (((1u64 << j) - 1) as u64) == w & (((1u64 << j) - 1) as u64)) by (bit_vector)
        requires
            nw == w | (1u64 << j),
            j < 64,
    ;
    lemma_u64_low_bits_mask_is_mod(nw, j as nat);
    lemma_u64_low_bits_mask_is_mod(w, j as nat);
    // The chosen bit reads one.
    assert((nw >> j) % 2 == 1) by (bit_vector)
        requires
            nw == w | (1u64 << j),
            j < 64,
    ;
    lemma_u64_shr_is_div(nw, j);
    // Bits above the chosen one unchanged.
    if j < 63 {
        assert(nw >> (j + 1) == w >> (j + 1)) by (bit_vector)
            requires
                nw == w | (1u64 << j),
                j < 63,
        ;
        lemma_u64_shr_is_div(nw, (j + 1) as u64);
        lemma_u64_shr_is_div(w, (j + 1) as u64);
    } else {
        assert(pow2(64) > nw && pow2(64) > w);
        assert((nw as nat) / pow2(64) == 0 && (w as nat) / pow2(64) == 0);
    }
}

impl UnsignedInteger {
    /// Forces bit `index` of the magnitude to one, in place.  The declared
    /// bit length does not change; the bit must lie inside it.
    pub fn set_bit(&mut self, index: u64)
        requires
            old(self).wf(),
            (index as nat) < old(self)@.bits,
        ensures
            final(self).wf(),
            final(self)@.bits == old(self)@.bits,
            final(self)@.words.len() == old(self)@.words.len(),
            final(self).value() % pow2(index as nat) == old(self).value() % pow2(index as nat),
            final(self).value() / pow2((index + 1) as nat) == old(self).value() / pow2(
                (index + 1) as nat,
            ),
            (final(self).value() / pow2(index as nat)) % 2 == 1,
            old(self).fits() ==> final(self).fits(),
    {
        let ghost a0 = self@;
        proof {
            self.lemma_bits_bound();
        }
        let wi: usize = (index / 64) as usize;
        let bi: u64 = index % 64;
        proof {
            lemma_fundamental_div_mod(index as int, 64);
            assert(index / 64 <= index) by (nonlinear_arith);
            assert(64 * wi + bi == index);
            assert((wi as int) * 64 < a0.bits);
            assert(wi < a0.words.len());
        }
        let w = self.word(wi);
        let nw = w | (1u64 << bi);
        self.set_word(wi, nw);
        proof {
            let i = index as nat;
            let p = pow2((64 * wi) as nat);
            lemma_word_set_bit(w, bi);
            lemma_pow2_adds((64 * wi) as nat, bi as nat);
            lemma_pow2_adds((64 * wi) as nat, (bi + 1) as nat);
            lemma_pow2_adds(i, 1);
            lemma2_to64();
            assert(self@.words == a0.words.update(wi as int, nw));
            assert(self@.words.take(wi as int) =~= a0.words.take(wi as int));
            assert(self@.words.skip(wi as int + 1) =~= a0.words.skip(wi as int + 1));
            assert(self@.words[wi as int] == nw);
            lemma_val_word_split(a0.words, wi as int, bi as nat);
            lemma_val_word_split(self@.words, wi as int, bi as nat);
            lemma_val_word_split(a0.words, wi as int, (bi + 1) as nat);
            lemma_val_word_split(self@.words, wi as int, (bi + 1) as nat);
            assert(pow2(i) == p * pow2(bi as nat));
            assert(pow2(i + 1) == p * pow2((bi + 1) as nat));
            // The quotient at the chosen bit is odd.
            let t = val(a0.words.skip(wi as int + 1));
            lemma_pow2_pos(bi as nat);
            lemma_pow2_pos((63 - bi) as nat);
            lemma_pow2_pos((64 - bi) as nat);
            assert(self.value() / pow2(i) == ((nw as nat) / pow2(bi as nat)) + pow2(
                (64 - bi) as nat,
            ) * t);
            assert(pow2((64 - bi) as nat) == 2 * pow2((63 - bi) as nat)) by {
                lemma_pow2_adds(1, (63 - bi) as nat);
            }
            let x = (nw as nat) / pow2(bi as nat);
            let y = pow2((63 - bi) as nat) * t;
            let xi = x as int;
            let yi = y as int;
            lemma_mod_multiples_vanish(yi, xi, 2);
            assert((2 * yi + xi) % 2 == xi % 2);
            assert((x + 2 * y) as int == 2 * yi + xi);
            assert((x + 2 * y) % 2 == x % 2);
            assert(pow2((64 - bi) as nat) * t == 2 * (pow2((63 - bi) as nat) * t))
                by (nonlinear_arith)
                requires
                    pow2((64 - bi) as nat) == 2 * pow2((63 - bi) as nat),
            ;
            // Within the declared length the value stays within it.
            if crate::uint::fits_model(a0) {
                lemma_set_bit_bound(a0.bits, i, val(a0.words), self.value());
            }
        }
    }

    /// Shifts the magnitude right by `shift` bits, yielding a new value with
    /// a declared length shortened by the same amount.
    pub fn shr(&self, shift: u32) -> (r: UnsignedInteger)
        requires
            self.wf(),
            shift as nat <= self@.bits,
        ensures
            r.wf(),
            r.value() == self.value() / pow2(shift as nat),
            r@.bits == self@.bits - shift as nat,
            self.fits() ==> r.fits(),
    {
        let ghost a0 = self@;
        proof {
            self.lemma_bits_bound();
        }
        let d: usize = (shift / 64) as usize;
        let ss: u64 = (shift % 64) as u64;
        let n = self.word_count();
        proof {
            lemma_fundamental_div_mod(shift as int, 64);
            assert(64 * d + ss == shift);
            assert(d <= n);
        }
        let ghost w_seq = a0.words.skip(d as int);
        let mut out: Vec<u64> = Vec::new();
        let mut i: usize = d;
        if ss == 0 {
            while i < n
                invariant
                    d <= i <= n,
                    n == a0.words.len(),
                    self@ == a0,
                    out@.len() == i - d,
                    forall|k: int| 0 <= k < out@.len() ==> out@[k] == a0.words[d + k],
                decreases n - i,
            {
                let w = self.word(i);
                out.push(w);
                i = i + 1;
            }
            proof {
                assert(out@ =~= w_seq);
                lemma2_to64();
                assert(pow2(ss as nat) * val(out@) == val(out@));
            }
        } else {
            proof {
                assert(64 * d < shift);
                assert(d < n);
                assert(w_seq.len() > 0);
                assert(w_seq[0] == a0.words[d as int]);
                assert(out@.take(0) =~= Seq::<u64>::empty());
                assert(w_seq.take(0) =~= Seq::<u64>::empty());
                assert(val(Seq::<u64>::empty()) == 0);
                assert(val(w_seq.take(0)) == 0);
                assert(out@ =~= Seq::<u64>::empty());
                assert(val(out@) == 0);
                lemma2_to64();
                assert(pow2(64 * (0) as nat) == 1);
                assert(val(w_seq.take(i - d)) == 0);
                assert(pow2(ss as nat) * val(out@) + (w_seq[0] as nat) % pow2(ss as nat) == ((
                a0.words[i as int] as nat) % pow2(ss as nat)) * pow2(64 * (i - d) as nat));
            }
            while i < n
                invariant
                    d <= i <= n,
                    n == a0.words.len(),
                    self@ == a0,
                    1 <= ss < 64,
                    w_seq == a0.words.skip(d as int),
                    w_seq.len() == n - d,
                    out@.len() == i - d,
                    pow2(ss as nat) * val(out@) + (w_seq[0] as nat) % pow2(ss as nat) == val(
                        w_seq.take(i - d),
                    ) + (if i < n {
                        (a0.words[i as int] as nat) % pow2(ss as nat)
                    } else {
                        0
                    }) * pow2(64 * (i - d) as nat),
                decreases n - i,
            {
                let a = self.word(i);
                let b: u64 = if i + 1 < n {
                    self.word(i + 1)
                } else {
                    0
                };
                let t: u64 = 64 - ss;
                let nw: u64 = (a >> ss) | (b << t);
                let ghost m = i as int - d;
                let ghost out0 = out@;
                out.push(nw);
                i = i + 1;
                proof {
                    lemma_word_shr(a, b, ss, t);
                    lemma_val_push(out0, nw);
                    lemma_val_take_succ(w_seq, m);
                    assert(w_seq[m] == a);
                    let p = pow2(64 * m as nat);
                    let p1 = pow2(64 * (m + 1) as nat);
                    lemma_pow2_adds(64 * m as nat, 64);
                    lemma_pow2_adds(ss as nat, t as nat);
                    lemma_pow2_pos(ss as nat);
                    lemma_fundamental_div_mod(a as int, pow2(ss as nat) as int);
                    let bmod = (b as nat) % pow2(ss as nat);
                    let amod = (a as nat) % pow2(ss as nat);
                    let adiv = (a as nat) / pow2(ss as nat);
                    let e = pow2(ss as nat);
                    assert(e * (nw as nat) == ((a as nat) - amod) + pow2(64) * bmod)
                        by (nonlinear_arith)
                        requires
                            nw as nat == adiv + bmod * pow2(t as nat),
                            a as nat == e * adiv + amod,
                            e * pow2(t as nat) == pow2(64),
                    ;
                    assert(e * val(out@) == e * val(out0) + p * (e * (nw as nat)))
                        by (nonlinear_arith)
                        requires
                            val(out@) == val(out0) + p * (nw as nat),
                    ;
                    assert(p * (((a as nat) - amod) + pow2(64) * bmod) == p * (a as nat) - p * amod
                        + p1 * bmod) by (nonlinear_arith)
                        requires
                            p1 == p * pow2(64),
                            amod <= a as nat,
                    ;
                    assert(amod * p == p * amod && bmod * p1 == p1 * bmod) by (nonlinear_arith);
                    assert(pow2(ss as nat) * val(out@) + (w_seq[0] as nat) % pow2(ss as nat)
                        == val(w_seq.take(m + 1)) + bmod * p1);
                    if i < n {
                        assert(b == a0.words[i as int]);
                    } else {
                        assert(b == 0);
                        vstd::arithmetic::div_mod::lemma_small_mod(0nat, pow2(ss as nat));
                        assert(bmod == 0);
                    }
                }
            }
            proof {
                assert(w_seq.take(n - d) =~= w_seq);
                lemma_pow2_pos(ss as nat);
                assert(val(w_seq) == pow2(ss as nat) * val(out@) + (w_seq[0] as nat) % pow2(
                    ss as nat,
                ));
            }
        }
        proof {
            // The dropped words and the bit shift together divide by the
            // whole shift amount.
            let base = pow2((64 * d) as nat);
            lemma_val_split(a0.words, d as int);
            lemma_val_bound(a0.words.take(d as int));
            lemma_pow2_pos((64 * d) as nat);
            lemma_pow2_pos(ss as nat);
            assert(val(a0.words.take(d as int)) < base);
            assert(val(a0.words) == (val(w_seq) * base + val(a0.words.take(d as int)))
                && val(w_seq) * base == base * val(w_seq)) by (nonlinear_arith)
                requires
                    val(a0.words) == val(a0.words.take(d as int)) + base * val(w_seq),
            ;
            vstd::arithmetic::div_mod::lemma_fundamental_div_mod_converse(
                val(a0.words) as int,
                base as int,
                val(w_seq) as int,
                val(a0.words.take(d as int)) as int,
            );
            assert(val(w_seq) == val(a0.words) / base);
            let h = (if w_seq.len() > 0 {
                (w_seq[0] as nat) % pow2(ss as nat)
            } else {
                0nat
            });
            assert(h < pow2(ss as nat));
            assert(val(w_seq) == pow2(ss as nat) * val(out@) + h);
            assert(pow2(ss as nat) * val(out@) == val(out@) * pow2(ss as nat)) by (nonlinear_arith);
            vstd::arithmetic::div_mod::lemma_fundamental_div_mod_converse(
                val(w_seq) as int,
                pow2(ss as nat) as int,
                val(out@) as int,
                h as int,
            );
            assert(val(out@) == val(w_seq) / pow2(ss as nat));
            vstd::arithmetic::div_mod::lemma_div_denominator(
                val(a0.words) as int,
                base as int,
                pow2(ss as nat) as int,
            );
            lemma_pow2_adds((64 * d) as nat, ss as nat);
            assert(val(out@) == val(a0.words) / pow2(shift as nat));
        }
        let nb: u32 = self.bits() - shift;
        let r = UnsignedInteger::from_parts(out, nb);
        proof {
            if crate::uint::fits_model(a0) {
                lemma_pow2_adds(shift as nat, (a0.bits - shift as nat) as nat);
                lemma_pow2_pos(shift as nat);
                lemma_pow2_pos((a0.bits - shift as nat) as nat);
                vstd::arithmetic::div_mod::lemma_multiply_divide_lt(
                    val(a0.words) as int,
                    pow2(shift as nat) as int,
                    pow2((a0.bits - shift as nat) as nat) as int,
                );
            }
        }
        r
    }

    /// The magnitude decreased by one, with the declared length kept.
    pub fn sub_one(&self) -> (r: UnsignedInteger)
        requires
            self.wf(),
            self.value() >= 1,
        ensures
            r.wf(),
            r.value() == self.value() - 1,
            r@.bits == self@.bits,
            r@.words.len() == self@.words.len(),
            self.fits() ==> r.fits(),
    {
        let ghost a0 = self@;
        let mut r = self.clone();
        let n = r.word_count();
        let mut i: usize = 0;
        proof {
            assert(a0.words.skip(0) =~= a0.words);
            if n == 0 {
                assert(a0.words =~= Seq::<u64>::empty());
                assert(val(a0.words) == 0);
            }
        }
        while r.word(i) == 0
            invariant
                r@.bits == a0.bits,
                r@.words.len() == n,
                a0.words.len() == n,
                i < n,
                val(a0.words.skip(i as int)) >= 1,
                forall|k: int| 0 <= k < i ==> a0.words[k] == 0,
                forall|k: int| 0 <= k < i ==> r@.words[k] == u64::MAX,
                forall|k: int| i <= k < n ==> r@.words[k] == a0.words[k],
            decreases n - i,
        {
            r.set_word(i, u64::MAX);
            proof {
                lemma_val_skip_succ(a0.words, i as int);
                assert(a0.words[i as int] == 0);
                assert(pow2(64) * val(a0.words.skip(i as int + 1)) >= 1);
                assert(val(a0.words.skip(i as int + 1)) >= 1) by (nonlinear_arith)
                    requires
                        pow2(64) * val(a0.words.skip(i as int + 1)) >= 1,
                ;
                assert(i + 1 < n || val(a0.words.skip(i as int + 1)) == 0) by {
                    if i + 1 == n {
                        assert(a0.words.skip(i as int + 1) =~= Seq::<u64>::empty());
                    }
                }
            }
            i = i + 1;
        }
        let w = r.word(i);
        r.set_word(i, w - 1);
        proof {
            let p = pow2(64 * i as nat);
            let p1 = pow2(64 * (i + 1) as nat);
            lemma_pow2_adds(64 * i as nat, 64);
            lemma_pow2_pos(64 * i as nat);
            lemma_val_split(a0.words, i as int);
            lemma_val_skip_succ(a0.words, i as int);
            lemma_val_split(r@.words, i as int);
            lemma_val_skip_succ(r@.words, i as int);
            assert(r@.words.skip(i as int + 1) =~= a0.words.skip(i as int + 1));
            let t = val(a0.words.skip(i as int + 1));
            assert(val(a0.words.take(i as int)) == 0) by {
                lemma_val_zero(a0.words.take(i as int));
            }
            assert(val(r@.words.take(i as int)) == p - 1) by {
                lemma_val_all_ones(r@.words.take(i as int));
            }
            assert(val(a0.words) == p * ((w as nat) + pow2(64) * t));
            assert(val(r@.words) == (p - 1) + p * (((w - 1) as nat) + pow2(64) * t));
            assert(val(r@.words) == val(a0.words) - 1) by (nonlinear_arith)
                requires
                    val(a0.words) == p * ((w as nat) + pow2(64) * t),
                    val(r@.words) == (p - 1) + p * (((w - 1) as nat) + pow2(64) * t),
                    w >= 1,
                    p >= 1,
            ;
        }
        r
    }
}

/// One word of a right shift by `s`: the surviving high bits of `a` joined
/// with the low bits of the word above it.
proof fn lemma_word_shr(a: u64, b: u64, s: u64, t: u64)
    requires
        1 <= s < 64,
        t == 64 - s,
    ensures
        ((a >> s) | (b << t)) as nat == (a as nat) / pow2(s as nat) + ((b as nat) % pow2(s as nat))
            * pow2(t as nat),
{
    lemma_u64_pow2_no_overflow(s as nat);
    lemma_u64_pow2_no_overflow(t as nat);
    lemma_u64_shl_is_mul(1u64, s);
    lemma_pow2_pos(s as nat);
    lemma_pow2_pos(t as nat);
    let mask: u64 = (low_bits_mask(s as nat)) as u64;
    assert(mask == ((1u64 << s) - 1) as u64);
    let bm: u64 = b & mask;
    lemma_u64_low_bits_mask_is_mod(b, s as nat);
    assert((bm as nat) == (b as nat) % pow2(s as nat));
    assert(b << t == bm << t) by (bit_vector)
        requires
            1 <= s < 64,
            t == 64 - s,
            bm == b & (((1u64 << s) - 1) as u64),
    ;
    lemma2_to64();
    assert(pow2(s as nat) * pow2(t as nat) == pow2(64)) by {
        lemma_pow2_adds(s as nat, t as nat);
    }
    assert((bm as nat) * pow2(t as nat) <= u64::MAX) by (nonlinear_arith)
        requires
            (bm as nat) < pow2(s as nat),
            pow2(s as nat) * pow2(t as nat) == pow2(64),
            pow2(64) == 0x1_0000_0000_0000_0000,
            pow2(t as nat) > 0,
    ;
    lemma_u64_shl_is_mul(bm, t);
    lemma_u64_shr_is_div(a, s);
    assert((a >> s) | (bm << t) == (a >> s) + (bm << t)) by (bit_vector)
        requires
            1 <= s < 64,
            t == 64 - s,
    ;
}

/// A value that agrees with a bounded one on the quotient above bit `i` and
/// keeps a remainder below `2^(i+1)` stays under the same power of two.
proof fn lemma_set_bit_bound(bits: nat, i: nat, v: nat, v2: nat)
    requires
        i < bits,
        v < pow2(bits),
        v2 / pow2((i + 1) as nat) == v / pow2((i + 1) as nat),
    ensures
        v2 < pow2(bits),
{
    let e = pow2((i + 1) as nat);
    let hi = pow2((bits - i - 1) as nat);
    lemma_pow2_adds((i + 1) as nat, (bits - i - 1) as nat);
    lemma_pow2_pos((i + 1) as nat);
    lemma_pow2_pos((bits - i - 1) as nat);
    assert(v / e < hi) by {
        vstd::arithmetic::div_mod::lemma_multiply_divide_lt(v as int, e as int, hi as int);
    }
    lemma_fundamental_div_mod(v2 as int, e as int);
    assert(v2 == e * (v2 / e) + v2 % e);
    assert(v2 % e < e);
    assert(v2 < e * hi) by (nonlinear_arith)
        requires
            v2 == e * (v2 / e) + v2 % e,
            v2 % e < e,
            v2 / e < hi,
            e > 0,
            hi > 0,
    ;
}

} // verus!
