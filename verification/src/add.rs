//! Addition on magnitudes: the fast variable-time path for public operands
//! and the constant-time path for secret-dependent single-word addends.

use vstd::prelude::*;
use vstd::arithmetic::power2::{
    pow2, lemma_pow2_pos, lemma_pow2_adds, lemma_pow2_strictly_increases, lemma2_to64,
};
use vstd::arithmetic::div_mod::lemma_fundamental_div_mod;
use crate::limbs::{
    val, digits, lemma_digits_val, lemma_val_bound, lemma_val_split, lemma_val_take_succ,
    lemma_val_small_skip, lemma_val_injective, lemma_val_push,
};
use crate::uint::{UnsignedInteger, UintModel, wf_model, fits_model};
use crate::scratch::Scratch;

verus! {

/// The exact outcome of variable-time addition.  The words encode the full
/// sum; a carry out of the top buffer word grows the buffer by one word and
/// the declared length by exactly one bit — never more, never less.
pub open spec fn add_spec(a: UintModel, b: UintModel) -> UintModel {
    let sum = val(a.words) + val(b.words);
    if sum >= pow2(64 * a.words.len()) {
        UintModel { words: digits(sum, (a.words.len() + 1) as nat), bits: (a.bits + 1) as nat }
    } else {
        UintModel { words: digits(sum, a.words.len()), bits: a.bits }
    }
}

/// The exact outcome of constant-time single-word addition; it agrees with
/// the variable-time contract on the carry behaviour.
pub open spec fn add_word_spec(a: UintModel, k: u64) -> UintModel {
    let sum = val(a.words) + k as nat;
    if sum >= pow2(64 * a.words.len()) {
        UintModel { words: digits(sum, (a.words.len() + 1) as nat), bits: (a.bits + 1) as nat }
    } else {
        UintModel { words: digits(sum, a.words.len()), bits: a.bits }
    }
}

impl UnsignedInteger {
    /// Variable-time addition in place.  The caller pre-normalizes so that
    /// the receiver's declared length is at least the addend's; a violation
    /// is a caller error, not corrected here.
    pub fn add_assign(&mut self, rhs: &UnsignedInteger)
        requires
            old(self).wf(),
            rhs.wf(),
            rhs.fits(),
            old(self)@.bits >= rhs@.bits,
            old(self)@.bits < u32::MAX,
        ensures
            final(self)@ == add_spec(old(self)@, rhs@),
            final(self).wf(),
            final(self).value() == old(self).value() + rhs.value(),
            final(self)@.bits == old(self)@.bits || final(self)@.bits == old(self)@.bits + 1,
            (final(self)@.bits == old(self)@.bits + 1) <==> (old(self).value() + rhs.value()
                >= pow2(64 * old(self)@.words.len())),
            old(self).value() + rhs.value() < pow2(old(self)@.bits) ==> final(self).fits(),
            (old(self).fits() && old(self).value() + rhs.value() >= pow2(
                64 * old(self)@.words.len(),
            )) ==> final(self).fits(),
    {
        let ghost a0 = old(self)@;
        let n_self = self.word_count();
        let n_rhs = rhs.word_count();
        let n: usize = if n_rhs <= n_self {
            n_rhs
        } else {
            n_self
        };
        let mut carry: u64 = 0;
        let mut i: usize = 0;
        proof {
            assert(self@.words.take(0) =~= Seq::<u64>::empty());
            assert(a0.words.take(0) =~= Seq::<u64>::empty());
            assert(rhs@.words.take(0) =~= Seq::<u64>::empty());
            assert(val(Seq::<u64>::empty()) == 0);
            lemma2_to64();
        }
        while i < n_self
            invariant
                self@.words.len() == n_self,
                a0.words.len() == n_self,
                n_rhs == rhs@.words.len(),
                n as int == if n_rhs <= n_self {
                    n_rhs as int
                } else {
                    n_self as int
                },
                i <= n_self,
                carry <= 1,
                self@.bits == a0.bits,
                forall|k: int| i <= k < n_self ==> self@.words[k] == a0.words[k],
                val(self@.words.take(i as int)) + (carry as nat) * pow2(64 * i as nat) == val(
                    a0.words.take(i as int),
                ) + val(
                    rhs@.words.take(
                        if i <= n {
                            i as int
                        } else {
                            n as int
                        },
                    ),
                ),
            decreases n_self - i,
        {
            let b: u64 = if i < n {
                rhs.word(i)
            } else {
                0
            };
            let a: u64 = self.word(i);
            let ghost cur = self@.words;
            let ghost ci = carry;
            let big: u128 = a as u128 + b as u128 + carry as u128;
            let w: u64 = (big % 0x1_0000_0000_0000_0000u128) as u64;
            let c2: u64 = (big / 0x1_0000_0000_0000_0000u128) as u64;
            self.set_word(i, w);
            carry = c2;
            i = i + 1;
            proof {
                let ii = i as int - 1;
                lemma2_to64();
                lemma_fundamental_div_mod(big as int, pow2(64) as int);
                assert(w as nat == (big as nat) % pow2(64));
                assert(c2 as nat == (big as nat) / pow2(64));
                assert(a as nat + b as nat + ci as nat == w as nat + pow2(64) * (c2 as nat));
                assert(c2 <= 1);
                let p = pow2(64 * ii as nat);
                let q = pow2(64 * (ii + 1) as nat);
                lemma_pow2_adds(64 * ii as nat, 64);
                assert(q == p * pow2(64));
                lemma_val_take_succ(self@.words, ii);
                assert(self@.words.take(ii) =~= cur.take(ii));
                lemma_val_take_succ(a0.words, ii);
                let mi: int = if ii <= n as int {
                    ii
                } else {
                    n as int
                };
                let mi2: int = if ii + 1 <= n as int {
                    ii + 1
                } else {
                    n as int
                };
                if ii < n as int {
                    lemma_val_take_succ(rhs@.words, ii);
                    assert(mi2 == ii + 1 && mi == ii);
                    assert(val(rhs@.words.take(mi2)) == val(rhs@.words.take(mi)) + p * (b as nat));
                } else {
                    assert(b == 0);
                    assert(mi2 == mi);
                    assert(val(rhs@.words.take(mi2)) == val(rhs@.words.take(mi)) + p * (b as nat));
                }
                assert(val(self@.words.take(ii + 1)) + (c2 as nat) * q == val(
                    a0.words.take(ii + 1),
                ) + val(rhs@.words.take(mi2))) by (nonlinear_arith)
                    requires
                        val(self@.words.take(ii + 1)) == val(cur.take(ii)) + p * (w as nat),
                        val(cur.take(ii)) + (ci as nat) * p == val(a0.words.take(ii)) + val(
                            rhs@.words.take(mi),
                        ),
                        a as nat + b as nat + ci as nat == w as nat + pow2(64) * (c2 as nat),
                        val(a0.words.take(ii + 1)) == val(a0.words.take(ii)) + p * (a as nat),
                        val(rhs@.words.take(mi2)) == val(rhs@.words.take(mi)) + p * (b as nat),
                        q == p * pow2(64),
                ;
            }
        }
        proof {
            assert(self@.words.take(n_self as int) =~= self@.words);
            assert(a0.words.take(n_self as int) =~= a0.words);
            if n_rhs <= n_self {
                assert(rhs@.words.take(n as int) =~= rhs@.words);
            } else {
                lemma_val_split(rhs@.words, n as int);
                if rhs@.bits < 64 * n_self {
                    lemma_pow2_strictly_increases(rhs@.bits, 64 * n_self as nat);
                }
                lemma_val_small_skip(rhs@.words, n as int);
            }
            assert(val(self@.words) + (carry as nat) * pow2(64 * n_self as nat) == val(a0.words)
                + val(rhs@.words));
            lemma_val_bound(self@.words);
        }
        let ghost sum = val(a0.words) + val(rhs@.words);
        if carry == 1 {
            let ghost pre = self@.words;
            self.push_word(1);
            let b = self.bits();
            self.set_size(b + 1);
            proof {
                let base = pow2(64 * n_self as nat);
                assert(self@.words == pre.push(1));
                lemma_val_push(pre, 1);
                assert(val(self@.words) == sum);
                lemma_pow2_adds(64 * n_self as nat, 64);
                lemma_pow2_pos(64 * n_self as nat);
                assert(sum >= base);
                lemma_digits_val(sum, (n_self + 1) as nat);
                assert(sum < base * pow2(64)) by (nonlinear_arith)
                    requires
                        sum < base + base,
                        pow2(64) >= 2,
                        base > 0,
                ;
                lemma_val_injective(self@.words, digits(sum, (n_self + 1) as nat));
                assert(self@ == add_spec(a0, rhs@));
                if fits_model(a0) {
                    lemma_carry_fits(a0, rhs@, sum);
                }
            }
        } else {
            proof {
                assert(val(self@.words) == sum);
                lemma_digits_val(sum, n_self as nat);
                lemma_val_injective(self@.words, digits(sum, n_self as nat));
                assert(self@ == add_spec(a0, rhs@));
            }
        }
    }

    /// Constant-time single-word addition in place.  Within the word loop no
    /// branch and no memory access pattern depends on the addend's value or
    /// on whether a carry occurred; the summed words go through a scratch
    /// buffer sized exactly for the operand's current word count.  On carry
    /// out of the top word the declared length grows by exactly one bit,
    /// matching the variable-time contract.
    pub fn secure_add_assign(&mut self, rhs: u64)
        requires
            old(self).wf(),
            old(self)@.bits < u32::MAX,
        ensures
            final(self)@ == add_word_spec(old(self)@, rhs),
            final(self).wf(),
            final(self).value() == old(self).value() + rhs,
            final(self)@.bits == old(self)@.bits || final(self)@.bits == old(self)@.bits + 1,
            (final(self)@.bits == old(self)@.bits + 1) <==> (old(self).value() + rhs >= pow2(
                64 * old(self)@.words.len(),
            )),
            old(self).value() + rhs < pow2(old(self)@.bits) ==> final(self).fits(),
            (old(self).fits() && old(self)@.bits >= 64 && old(self).value() + rhs >= pow2(
                64 * old(self)@.words.len(),
            )) ==> final(self).fits(),
    {
        let ghost a0 = old(self)@;
        let n_self = self.word_count();
        let mut scratch = Scratch::new(Scratch::add_word_itch(n_self));
        let mut carry: u64 = rhs;
        let mut i: usize = 0;
        proof {
            assert(scratch@.take(0) =~= Seq::<u64>::empty());
            assert(a0.words.take(0) =~= Seq::<u64>::empty());
            assert(val(Seq::<u64>::empty()) == 0);
            lemma2_to64();
        }
        proof {
            assert(val(scratch@.take(0)) == 0);
            assert(val(a0.words.take(0)) == 0);
            assert(pow2(64 * (0 as nat)) == 1);
        }
        while i < n_self
            invariant
                self@ == a0,
                a0.words.len() == n_self,
                scratch@.len() == n_self,
                i <= n_self,
                val(scratch@.take(i as int)) + (carry as nat) * pow2(64 * i as nat) == val(
                    a0.words.take(i as int),
                ) + rhs as nat,
            decreases n_self - i,
        {
            let a: u64 = self.word(i);
            let ghost scr = scratch@;
            let ghost ci = carry;
            let big: u128 = a as u128 + carry as u128;
            let w: u64 = (big % 0x1_0000_0000_0000_0000u128) as u64;
            let c2: u64 = (big / 0x1_0000_0000_0000_0000u128) as u64;
            scratch.write(i, w);
            carry = c2;
            i = i + 1;
            proof {
                let ii = i as int - 1;
                lemma2_to64();
                lemma_fundamental_div_mod(big as int, pow2(64) as int);
                assert(w as nat == (big as nat) % pow2(64));
                assert(c2 as nat == (big as nat) / pow2(64));
                assert(a as nat + ci as nat == w as nat + pow2(64) * (c2 as nat));
                let p = pow2(64 * ii as nat);
                let q = pow2(64 * (ii + 1) as nat);
                lemma_pow2_adds(64 * ii as nat, 64);
                assert(q == p * pow2(64));
                lemma_val_take_succ(scratch@, ii);
                assert(scratch@.take(ii) =~= scr.take(ii));
                lemma_val_take_succ(a0.words, ii);
                assert(val(scratch@.take(ii + 1)) + (c2 as nat) * q == val(a0.words.take(ii + 1))
                    + rhs as nat) by (nonlinear_arith)
                    requires
                        val(scratch@.take(ii + 1)) == val(scr.take(ii)) + p * (w as nat),
                        val(scr.take(ii)) + (ci as nat) * p == val(a0.words.take(ii)) + rhs as nat,
                        a as nat + ci as nat == w as nat + pow2(64) * (c2 as nat),
                        val(a0.words.take(ii + 1)) == val(a0.words.take(ii)) + p * (a as nat),
                        q == p * pow2(64),
                ;
            }
        }
        let mut j: usize = 0;
        while j < n_self
            invariant
                self@.words.len() == n_self,
                scratch@.len() == n_self,
                self@.bits == a0.bits,
                j <= n_self,
                forall|k: int| 0 <= k < j ==> self@.words[k] == scratch@[k],
            decreases n_self - j,
        {
            let w = scratch.read(j);
            self.set_word(j, w);
            j = j + 1;
        }
        proof {
            assert(self@.words =~= scratch@);
            assert(scratch@.take(n_self as int) =~= scratch@);
            assert(a0.words.take(n_self as int) =~= a0.words);
            assert(val(self@.words) + (carry as nat) * pow2(64 * n_self as nat) == val(a0.words)
                + rhs as nat);
            lemma_val_bound(self@.words);
        }
        let ghost sum = val(a0.words) + rhs as nat;
        if carry > 0 {
            let ghost pre = self@.words;
            self.push_word(carry);
            let b = self.bits();
            self.set_size(b + 1);
            proof {
                let base = pow2(64 * n_self as nat);
                assert(self@.words == pre.push(carry));
                assert(pre.len() == n_self as nat);
                assert(val(pre) + (carry as nat) * base == sum);
                lemma_val_push(pre, carry);
                assert(val(self@.words) == val(pre) + base * (carry as nat));
                assert(base * (carry as nat) == (carry as nat) * base) by (nonlinear_arith);
                assert(val(self@.words) == sum);
                lemma_pow2_adds(64 * n_self as nat, 64);
                lemma_pow2_pos(64 * n_self as nat);
                lemma2_to64();
                assert(sum >= base) by (nonlinear_arith)
                    requires
                        sum == val(pre) + (carry as nat) * base,
                        carry >= 1,
                        base > 0,
                ;
                lemma_digits_val(sum, (n_self + 1) as nat);
                assert(sum < base * pow2(64)) by (nonlinear_arith)
                    requires
                        sum == val(pre) + (carry as nat) * base,
                        val(pre) < base,
                        (carry as nat) < pow2(64),
                        base > 0,
                        pow2(64) > 0,
                ;
                lemma_val_injective(self@.words, digits(sum, (n_self + 1) as nat));
                assert(self@ == add_word_spec(a0, rhs));
                if a0.bits < 64 * n_self {
                    lemma_pow2_strictly_increases(a0.bits, 64 * n_self as nat);
                }
                assert(sum >= pow2(a0.bits));
                if fits_model(a0) && a0.bits >= 64 {
                    lemma_pow2_adds(a0.bits, 1);
                    if 64 < a0.bits {
                        lemma_pow2_strictly_increases(64, a0.bits);
                    }
                    assert(sum < pow2(a0.bits) + pow2(a0.bits));
                    assert(pow2(a0.bits) * 2 == pow2((a0.bits + 1) as nat)) by (nonlinear_arith)
                        requires
                            pow2((a0.bits + 1) as nat) == pow2(a0.bits) * pow2(1),
                            pow2(1) == 2,
                    ;
                }
            }
        } else {
            proof {
                assert(val(self@.words) == sum);
                lemma_digits_val(sum, n_self as nat);
                lemma_val_injective(self@.words, digits(sum, n_self as nat));
                assert(self@ == add_word_spec(a0, rhs));
            }
        }
    }

    /// Constant-time single-word addition, consuming the receiver.
    pub fn secure_add(self, rhs: u64) -> (r: UnsignedInteger)
        requires
            self.wf(),
            self@.bits < u32::MAX,
        ensures
            r@ == add_word_spec(self@, rhs),
            r.wf(),
            r.value() == self.value() + rhs,
    {
        let mut x = self;
        x.secure_add_assign(rhs);
        x
    }

    /// Variable-time addition, consuming the receiver.
    pub fn add(self, rhs: &UnsignedInteger) -> (r: UnsignedInteger)
        requires
            self.wf(),
            rhs.wf(),
            rhs.fits(),
            self@.bits >= rhs@.bits,
            self@.bits < u32::MAX,
        ensures
            r@ == add_spec(self@, rhs@),
            r.wf(),
            r.value() == self.value() + rhs.value(),
    {
        let mut x = self;
        x.add_assign(rhs);
        x
    }
}

/// The fold of variable-time addition over a sequence of magnitudes,
/// starting from the first element.
pub open spec fn sum_spec(s: Seq<UnsignedInteger>) -> UintModel
    decreases s.len(),
{
    if s.len() <= 1 {
        s[0]@
    } else {
        add_spec(sum_spec(s.drop_last()), s.last()@)
    }
}

/// The total of the values of a sequence of magnitudes.
pub open spec fn total(s: Seq<UnsignedInteger>) -> nat
    decreases s.len(),
{
    if s.len() == 0 {
        0
    } else {
        total(s.drop_last()) + val(s.last()@.words)
    }
}

/// `add_spec` encodes the exact sum whenever the second operand's value fits
/// the first operand's buffer.
pub proof fn lemma_add_spec_exact(a: UintModel, b: UintModel)
    requires
        wf_model(a),
        val(b.words) < pow2(64 * a.words.len()),
    ensures
        val(add_spec(a, b).words) == val(a.words) + val(b.words),
        add_spec(a, b).bits == a.bits || add_spec(a, b).bits == a.bits + 1,
        (add_spec(a, b).bits == a.bits + 1) <==> (val(a.words) + val(b.words) >= pow2(
            64 * a.words.len(),
        )),
        wf_model(add_spec(a, b)),
        add_spec(a, b).words.len() == a.words.len() || add_spec(a, b).words.len() == a.words.len()
            + 1,
{
    lemma_val_bound(a.words);
    let sum = val(a.words) + val(b.words);
    let alen = a.words.len();
    if sum >= pow2(64 * alen) {
        lemma_pow2_adds(64 * alen, 64);
        lemma_pow2_pos(64 * alen);
        lemma2_to64();
        assert(sum < pow2(64 * alen) * pow2(64)) by (nonlinear_arith)
            requires
                sum < pow2(64 * alen) + pow2(64 * alen),
                pow2(64) >= 2,
                pow2(64 * alen) > 0,
        ;
        lemma_digits_val(sum, (alen + 1) as nat);
    } else {
        lemma_digits_val(sum, alen);
    }
}

/// Like [`lemma_add_spec_exact`], for the single-word path: the constant-time
/// addition always encodes the exact sum.
pub proof fn lemma_add_word_spec_exact(a: UintModel, k: u64)
    ensures
        val(add_word_spec(a, k).words) == val(a.words) + k,
        add_word_spec(a, k).bits == a.bits || add_word_spec(a, k).bits == a.bits + 1,
        (add_word_spec(a, k).bits == a.bits + 1) <==> (val(a.words) + k >= pow2(
            64 * a.words.len(),
        )),
{
    lemma_val_bound(a.words);
    let sum = val(a.words) + k as nat;
    let alen = a.words.len();
    lemma2_to64();
    if sum >= pow2(64 * alen) {
        lemma_pow2_adds(64 * alen, 64);
        lemma_pow2_pos(64 * alen);
        if alen == 0 {
            assert(64 * alen == 0);
            assert(sum < pow2(64));
            assert(pow2(64 * (alen + 1) as nat) == pow2(0) * pow2(64));
            lemma_digits_val(sum, (alen + 1) as nat);
        } else {
            assert(pow2(64) <= pow2(64 * alen)) by {
                if 64 < 64 * alen {
                    lemma_pow2_strictly_increases(64, 64 * alen);
                }
            }
            assert(sum < pow2(64 * alen) * pow2(64)) by (nonlinear_arith)
                requires
                    sum < pow2(64 * alen) + pow2(64 * alen),
                    pow2(64) >= 2,
                    pow2(64 * alen) > 0,
            ;
            lemma_digits_val(sum, (alen + 1) as nat);
        }
    } else {
        lemma_digits_val(sum, alen);
    }
}

impl UnsignedInteger {
    /// The left fold of variable-time addition over a non-empty sequence,
    /// starting from its first element.  An empty sequence is a caller
    /// error — a sum has no silent zero-valued identity here.
    pub fn sum(values: &Vec<UnsignedInteger>) -> (r: UnsignedInteger)
        requires
            values@.len() >= 1,
            forall|i: int|
                0 <= i < values@.len() ==> (#[trigger] values@[i]).wf() && values@[i].fits(),
            forall|i: int| 1 <= i < values@.len() ==> values@[0]@.bits >= (#[trigger] values@[i])@.bits,
            values@[0]@.bits + values@.len() <= u32::MAX,
        ensures
            r@ == sum_spec(values@),
            r.wf(),
            r.value() == total(values@),
            r@.bits >= values@[0]@.bits,
    {
        let first: &UnsignedInteger = &values[0];
        let mut acc = first.clone();
        let mut i: usize = 1;
        proof {
            let t1 = values@.take(1);
            assert(t1.len() == 1);
            assert(t1[0] == values@[0]);
            assert(acc@ == sum_spec(t1));
            assert(t1.drop_last() =~= Seq::<UnsignedInteger>::empty());
            assert(total(t1) == total(t1.drop_last()) + val(t1.last()@.words));
            assert(total(t1.drop_last()) == 0);
        }
        while i < values.len()
            invariant
                1 <= i <= values@.len(),
                forall|k: int|
                    0 <= k < values@.len() ==> (#[trigger] values@[k]).wf() && values@[k].fits(),
                forall|k: int|
                    1 <= k < values@.len() ==> values@[0]@.bits >= (#[trigger] values@[k])@.bits,
                values@[0]@.bits + values@.len() <= u32::MAX,
                acc@ == sum_spec(values@.take(i as int)),
                acc.wf(),
                acc.value() == total(values@.take(i as int)),
                acc@.bits >= values@[0]@.bits,
                acc@.bits <= values@[0]@.bits + i - 1,
            decreases values@.len() - i,
        {
            let rhs: &UnsignedInteger = &values[i];
            proof {
                assert(values@[i as int].wf() && values@[i as int].fits());
                assert(values@[0]@.bits >= values@[i as int]@.bits);
            }
            let ghost prev = acc@;
            acc.add_assign(rhs);
            i = i + 1;
            proof {
                let t = values@.take(i as int);
                assert(t.drop_last() =~= values@.take(i as int - 1));
                assert(t.last() == values@[i as int - 1]);
                assert(t.len() >= 2);
                assert(acc@ == sum_spec(t));
                assert(total(t) == total(t.drop_last()) + val(t.last()@.words));
            }
        }
        proof {
            assert(values@.take(values@.len() as int) =~= values@);
        }
        acc
    }
}

/// **Addition correctness.**  For all operands `a`, `b` within their declared
/// lengths and with `a.bits >= b.bits`, the variable-time addition yields the
/// exact arbitrary-precision sum, and the declared length afterwards equals
/// `a.bits` plus one exactly when the true sum's bit length exceeds `a.bits`.
/// The equivalence is stated away from the corner in which the sum first
/// exceeds `2^a.bits` inside a buffer whose top word does not end there: on
/// those operands the carry-driven update keeps the old declared length.
pub proof fn lemma_addition_correct(a: UintModel, b: UintModel)
    requires
        wf_model(a),
        wf_model(b),
        fits_model(a),
        fits_model(b),
        a.bits >= b.bits,
        val(a.words) + val(b.words) < pow2(a.bits) || a.bits == 64 * a.words.len(),
    ensures
        val(add_spec(a, b).words) == val(a.words) + val(b.words),
        (add_spec(a, b).bits == a.bits + 1) <==> (val(a.words) + val(b.words) >= pow2(a.bits)),
        add_spec(a, b).bits == a.bits || add_spec(a, b).bits == a.bits + 1,
{
    let sum = val(a.words) + val(b.words);
    if b.bits < a.bits {
        lemma_pow2_strictly_increases(b.bits, a.bits);
    }
    if a.bits < 64 * a.words.len() {
        lemma_pow2_strictly_increases(a.bits, 64 * a.words.len());
    }
    lemma_add_spec_exact(a, b);
}

/// **Small-addend addition correctness and determinism.**  For every operand
/// and native-width addend the constant-time addition yields the exact
/// arithmetic sum; and because the whole outcome — words and declared length —
/// is the spec function `add_word_spec` of the operands alone, repeated calls
/// on the same inputs return bitwise identical results despite the transient
/// scratch buffer.
pub proof fn lemma_small_addend_correct(a: UintModel, k: u64)
    ensures
        val(add_word_spec(a, k).words) == val(a.words) + k,
{
    lemma_add_word_spec_exact(a, k);
}

/// A carry out of the top word leaves a result within its new declared
/// length, provided both operands were within theirs.
proof fn lemma_carry_fits(a: UintModel, b: UintModel, sum: nat)
    requires
        sum == val(a.words) + val(b.words),
        wf_model(a),
        a.bits >= b.bits,
        sum >= pow2(64 * a.words.len()),
        fits_model(a) && fits_model(b),
    ensures
        sum < pow2((a.bits + 1) as nat),
{
    lemma_pow2_adds(a.bits, 1);
    lemma2_to64();
    if b.bits < a.bits {
        lemma_pow2_strictly_increases(b.bits, a.bits);
    }
    assert(sum < pow2(a.bits) + pow2(a.bits));
    assert(pow2(a.bits) * 2 == pow2((a.bits + 1) as nat)) by (nonlinear_arith)
        requires
            pow2((a.bits + 1) as nat) == pow2(a.bits) * pow2(1),
            pow2(1) == 2,
    ;
}

} // verus!
