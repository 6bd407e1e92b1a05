//! Construction from digit strings, for constants and tests.

use vstd::prelude::*;
use vstd::arithmetic::power2::{pow2, lemma2_to64};
use vstd::arithmetic::div_mod::{lemma_fundamental_div_mod, lemma_multiply_divide_lt};
use vstd::string::StringSliceAdditionalSpecFns;
use crate::limbs::{val, lemma_val_take_succ, lemma_val_push, lemma_words_for_bits};
use crate::uint::{UnsignedInteger, pad_words};

verus! {

/// The numeric value of one digit character.
pub open spec fn digit_val(c: char) -> nat {
    ((c as int) - 48) as nat
}

/// The value of a digit string read most significant first.
pub open spec fn radix_value(s: Seq<char>, base: nat) -> nat
    decreases s.len(),
{
    if s.len() == 0 {
        0
    } else {
        radix_value(s.drop_last(), base) * base + digit_val(s.last())
    }
}

/// Multiplies the magnitude by a small radix and adds one digit, rippling
/// the carry upward.
fn mul_small_add(words: &mut Vec<u64>, m: u64, a: u64)
    requires
        2 <= m <= 10,
        a < m,
    ensures
        val(final(words)@) == val(old(words)@) * m + a,
{
    let ghost w0 = words@;
    let n = words.len();
    let mut carry: u64 = a;
    let mut i: usize = 0;
    proof {
        assert(words@.take(0) =~= Seq::<u64>::empty());
        assert(w0.take(0) =~= Seq::<u64>::empty());
        assert(val(Seq::<u64>::empty()) == 0);
        assert(val(words@.take(0)) == 0);
        assert(val(w0.take(0)) == 0);
        lemma2_to64();
        assert(pow2(64 * (0) as nat) == 1);
    }
    while i < n
        invariant
            words@.len() == n,
            w0.len() == n,
            i <= n,
            2 <= m <= 10,
            carry < m,
            forall|k: int| i <= k < n ==> words@[k] == w0[k],
            val(words@.take(i as int)) + (carry as nat) * pow2(64 * i as nat) == val(
                w0.take(i as int),
            ) * m + a,
        decreases n - i,
    {
        let w = words[i];
        let ghost cur = words@;
        let ghost ci = carry;
        proof {
            assert((w as nat) * (m as nat) + (carry as nat) < 0xFF_FFFF_FFFF_FFFF_FFFFnat)
                by (nonlinear_arith)
                requires
                    w <= 0xFFFF_FFFF_FFFF_FFFFu64,
                    m <= 10,
                    carry < m,
            ;
        }
        let big: u128 = (w as u128) * (m as u128) + (carry as u128);
        let nw: u64 = (big % 0x1_0000_0000_0000_0000u128) as u64;
        let c2: u64 = (big / 0x1_0000_0000_0000_0000u128) as u64;
        words[i] = nw;
        carry = c2;
        i = i + 1;
        proof {
            let ii = i as int - 1;
            lemma2_to64();
            lemma_fundamental_div_mod(big as int, pow2(64) as int);
            assert(nw as nat == (big as nat) % pow2(64));
            assert(c2 as nat == (big as nat) / pow2(64));
            assert((w as nat) * m + ci == nw as nat + pow2(64) * (c2 as nat));
            assert((big as nat) < (m as nat) * pow2(64)) by (nonlinear_arith)
                requires
                    big as nat == (w as nat) * (m as nat) + ci as nat,
                    (w as nat) < pow2(64),
                    ci < m,
                    m >= 2,
                    pow2(64) > 0,
            ;
            lemma_multiply_divide_lt(big as int, pow2(64) as int, m as int);
            assert(c2 < m);
            let p = pow2(64 * ii as nat);
            let q = pow2(64 * (ii + 1) as nat);
            vstd::arithmetic::power2::lemma_pow2_adds(64 * ii as nat, 64);
            assert(q == p * pow2(64));
            lemma_val_take_succ(words@, ii);
            assert(words@.take(ii) =~= cur.take(ii));
            lemma_val_take_succ(w0, ii);
            assert(w0[ii] == w);
            assert(val(words@.take(ii + 1)) + (c2 as nat) * q == val(w0.take(ii + 1)) * m + a)
                by (nonlinear_arith)
                requires
                    val(words@.take(ii + 1)) == val(cur.take(ii)) + p * (nw as nat),
                    val(cur.take(ii)) + (ci as nat) * p == val(w0.take(ii)) * m + a,
                    (w as nat) * m + ci == nw as nat + pow2(64) * (c2 as nat),
                    val(w0.take(ii + 1)) == val(w0.take(ii)) + p * (w as nat),
                    q == p * pow2(64),
            ;
        }
    }
    proof {
        assert(words@.take(n as int) =~= words@);
        assert(w0.take(n as int) =~= w0);
        assert(val(words@) + (carry as nat) * pow2(64 * n as nat) == val(w0) * m + a);
    }
    if carry > 0 {
        let ghost pre = words@;
        words.push(carry);
        proof {
            lemma_val_push(pre, carry);
            assert(pre.len() == n as nat);
            assert(val(words@) == val(pre) + pow2(64 * n as nat) * (carry as nat));
            assert(pow2(64 * n as nat) * (carry as nat) == (carry as nat) * pow2(64 * n as nat))
                by (nonlinear_arith);
        }
    }
}

impl UnsignedInteger {
    /// A magnitude read from a digit string in a small radix, with an
    /// explicit declared bit length that the value must respect; for
    /// constants and tests.
    pub fn from_string(s: String, base: u64, size_in_bits: u32) -> (r: UnsignedInteger)
        requires
            2 <= base <= 10,
            forall|i: int| 0 <= i < s@.len() ==> 48 <= (#[trigger] s@[i]) as int && ((s@[i]) as int) < 48 + base,
            radix_value(s@, base as nat) < pow2(size_in_bits as nat),
        ensures
            r.wf(),
            r.fits(),
            r@.bits == size_in_bits as nat,
            r.value() == radix_value(s@, base as nat),
    {
        let sr: &str = s.as_str();
        let bytes: Vec<u8> = vstd::slice::slice_to_vec(sr.as_bytes());
        proof {
            assert(vstd::utf8::is_ascii_chars(sr@)) by {
                assert forall|i: int| 0 <= i < sr@.len() implies '\0' <= #[trigger] sr@[i]
                    <= '\u{7f}' by {
                    assert(48 <= ((sr@[i]) as int) && ((sr@[i]) as int) < 58);
                }
            }
            vstd::string::is_ascii_spec_bytes(sr);
            assert(bytes@.len() == s@.len());
            assert(forall|i: int| 0 <= i < bytes@.len() ==> bytes@[i] == (#[trigger] s@[i]) as u8);
        }
        let mut words: Vec<u64> = Vec::new();
        let mut i: usize = 0;
        proof {
            assert(s@.take(0) =~= Seq::<char>::empty());
        }
        while i < bytes.len()
            invariant
                bytes@.len() == s@.len(),
                i <= bytes@.len(),
                2 <= base <= 10,
                forall|k: int| 0 <= k < s@.len() ==> 48 <= (#[trigger] s@[k]) as int && ((s@[k]) as int) < 48 + base,
                forall|k: int| 0 <= k < bytes@.len() ==> bytes@[k] == (#[trigger] s@[k]) as u8,
                val(words@) == radix_value(s@.take(i as int), base as nat),
            decreases bytes@.len() - i,
        {
            let b = bytes[i];
            proof {
                assert(bytes@[i as int] == s@[i as int] as u8);
                assert(48 <= ((s@[i as int]) as int) && ((s@[i as int]) as int) < 58);
                assert(b >= 48);
                assert((b - 48) as nat == digit_val(s@[i as int]));
            }
            let d: u64 = (b - 48) as u64;
            mul_small_add(&mut words, base, d);
            i = i + 1;
            proof {
                let t = s@.take(i as int);
                assert(t.drop_last() =~= s@.take(i as int - 1));
                assert(t.last() == s@[i as int - 1]);
                assert(radix_value(t, base as nat) == radix_value(t.drop_last(), base as nat) * (
                base as nat) + digit_val(t.last()));
            }
        }
        proof {
            assert(s@.take(s@.len() as int) =~= s@);
        }
        let need: usize = ((size_in_bits as u64 + 63) / 64) as usize;
        proof {
            lemma_words_for_bits(size_in_bits as int);
        }
        let w = pad_words(words, need);
        UnsignedInteger::from_parts(w, size_in_bits)
    }
}

} // verus!
