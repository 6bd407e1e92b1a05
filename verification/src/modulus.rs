//! Modulus assembly: multiplication, least common multiple, and the
//! composition of two independent safe-prime searches into an RSA modulus
//! with its Carmichael-function value.

use vstd::prelude::*;
use vstd::arithmetic::power2::{pow2, lemma_pow2_pos, lemma_pow2_adds, lemma2_to64};
use vstd::arithmetic::div_mod::{
    lemma_fundamental_div_mod, lemma_div_multiples_vanish_fancy, lemma_mod_multiples_basic,
};
use crate::limbs::{val, lemma_words_for_bits};
use crate::uint::pad_words;
use crate::uint::UnsignedInteger;
use crate::rng::{SecureRng, GeneralRng};
use crate::search::{gen_safe_prime, safe_prime_candidate};
use crate::backend::{mul_limbs, lcm_limbs};

verus! {

/// `l` is the least common multiple of `a` and `b`: a positive common
/// multiple below which no other positive common multiple exists.
pub open spec fn is_lcm(a: nat, b: nat, l: nat) -> bool {
    &&& l >= 1
    &&& l % a == 0
    &&& l % b == 0
    &&& forall|m: nat| 1 <= m < l ==> !(#[trigger] (m % a) == 0 && m % b == 0)
}

impl UnsignedInteger {
    /// The product of two magnitudes.  The declared length of the result is
    /// the sum of the operands' declared lengths; it may over-state the
    /// tightest bit length by one, which the representation invariant
    /// permits.
    pub fn mul(&self, rhs: &UnsignedInteger) -> (r: UnsignedInteger)
        requires
            self.wf(),
            rhs.wf(),
            self.fits(),
            rhs.fits(),
            self@.bits + rhs@.bits <= u32::MAX,
        ensures
            r.wf(),
            r.fits(),
            r.value() == self.value() * rhs.value(),
            r@.bits == self@.bits + rhs@.bits,
    {
        let raw = mul_limbs(self.limbs(), rhs.limbs());
        let nb: u32 = self.bits() + rhs.bits();
        let need: usize = ((nb as u64 + 63) / 64) as usize;
        proof {
            lemma_words_for_bits(nb as int);
        }
        let w = pad_words(raw, need);
        proof {
            lemma_pow2_adds(self@.bits, rhs@.bits);
            lemma_pow2_pos(self@.bits);
            lemma_pow2_pos(rhs@.bits);
            assert(self.value() * rhs.value() < pow2(self@.bits) * pow2(rhs@.bits))
                by (nonlinear_arith)
                requires
                    self.value() < pow2(self@.bits),
                    rhs.value() < pow2(rhs@.bits),
                    pow2(self@.bits) > 0,
                    pow2(rhs@.bits) > 0,
            ;
        }
        UnsignedInteger::from_parts(w, nb)
    }

    /// The least common multiple of two positive magnitudes.
    pub fn lcm(&self, rhs: &UnsignedInteger) -> (r: UnsignedInteger)
        requires
            self.wf(),
            rhs.wf(),
            self.fits(),
            rhs.fits(),
            self.value() >= 1,
            rhs.value() >= 1,
            self@.bits + rhs@.bits <= u32::MAX,
        ensures
            r.wf(),
            r.fits(),
            is_lcm(self.value(), rhs.value(), r.value()),
            r@.bits == self@.bits + rhs@.bits,
    {
        let raw = lcm_limbs(self.limbs(), rhs.limbs());
        let nb: u32 = self.bits() + rhs.bits();
        let need: usize = ((nb as u64 + 63) / 64) as usize;
        proof {
            lemma_words_for_bits(nb as int);
        }
        let w = pad_words(raw, need);
        proof {
            let a = self.value();
            let b = rhs.value();
            let l = val(w@);
            // The product is itself a common multiple, so the least one
            // cannot exceed it.
            lemma_mod_multiples_basic(b as int, a as int);
            lemma_mod_multiples_basic(a as int, b as int);
            assert((a * b) % a == 0) by (nonlinear_arith)
                requires
                    (a * b) as int % (a as int) == ((a as int) * (b as int)) % (a as int),
                    ((b as int) * (a as int)) % (a as int) == 0,
            ;
            assert((a * b) % b == 0) by (nonlinear_arith)
                requires
                    ((a as int) * (b as int)) % (b as int) == 0,
            ;
            assert(a * b >= 1) by (nonlinear_arith)
                requires
                    a >= 1,
                    b >= 1,
            ;
            if l > a * b {
                assert(!((a * b) % a == 0 && (a * b) % b == 0));
            }
            assert(l <= a * b);
            lemma_pow2_adds(self@.bits, rhs@.bits);
            lemma_pow2_pos(self@.bits);
            lemma_pow2_pos(rhs@.bits);
            assert(a * b < pow2(self@.bits) * pow2(rhs@.bits)) by (nonlinear_arith)
                requires
                    a < pow2(self@.bits),
                    b < pow2(rhs@.bits),
                    a >= 1,
                    b >= 1,
                    pow2(self@.bits) > 0,
                    pow2(rhs@.bits) > 0,
            ;
        }
        UnsignedInteger::from_parts(w, nb)
    }
}

/// Generates a uniformly random RSA modulus: the product `n = p * q` of two
/// independently drawn probable safe primes of `bit_length / 2` bits each,
/// together with the Carmichael-function value `lcm(p - 1, q - 1)`.
///
/// The two searches run independently; no `p != q` check is made, since for
/// cryptographic sizes a collision of two independent draws is negligibly
/// likely, and an equality test would itself leak timing about the retry
/// behaviour.  `None` can arise only if one of the searches exhausts its
/// astronomically large round budget.
pub fn gen_rsa_modulus<R: SecureRng>(bit_length: u64, rng: &mut GeneralRng<R>) -> (r: Option<
    (UnsignedInteger, UnsignedInteger),
>)
    requires
        6 <= bit_length <= u32::MAX,
    ensures
        r is Some ==> ({
            let n = r.unwrap().0;
            let lambda = r.unwrap().1;
            let k = bit_length as nat / 2;
            &&& n.wf() && n.fits() && lambda.wf() && lambda.fits()
            &&& n@.bits == 2 * k
            &&& pow2((2 * k - 2) as nat) <= n.value() < pow2(2 * k)
            &&& exists|p: nat, q: nat|
                {
                    &&& #[trigger] safe_prime_candidate(p, k)
                    &&& #[trigger] safe_prime_candidate(q, k)
                    &&& n.value() == p * q
                    &&& is_lcm((p - 1) as nat, (q - 1) as nat, lambda.value())
                }
        }),
{
    let half: u64 = bit_length / 2;
    proof {
        lemma_fundamental_div_mod(bit_length as int, 2);
    }
    let p_opt = gen_safe_prime(half, rng);
    let p = match p_opt {
        Some(v) => v,
        None => { return None; },
    };
    let q_opt = gen_safe_prime(half, rng);
    let q = match q_opt {
        Some(v) => v,
        None => { return None; },
    };
    let n = p.mul(&q);
    let p1 = p.sub_one();
    let q1 = q.sub_one();
    proof {
        lemma_pow2_pos((half - 1) as nat);
        assert(p.value() >= 2) by {
            lemma2_to64();
            vstd::arithmetic::power2::lemma_pow2_strictly_increases(1, (half - 1) as nat);
        }
        assert(q.value() >= 2) by {
            lemma2_to64();
            vstd::arithmetic::power2::lemma_pow2_strictly_increases(1, (half - 1) as nat);
        }
    }
    let lambda = p1.lcm(&q1);
    proof {
        let k = half as nat;
        let pv = p.value();
        let qv = q.value();
        lemma_pow2_adds((k - 1) as nat, (k - 1) as nat);
        lemma_pow2_adds(k, k);
        lemma_pow2_pos((k - 1) as nat);
        lemma_pow2_pos(k);
        assert(pow2((2 * k - 2) as nat) <= pv * qv) by (nonlinear_arith)
            requires
                pow2((k - 1) as nat) <= pv,
                pow2((k - 1) as nat) <= qv,
                pow2((2 * k - 2) as nat) == pow2((k - 1) as nat) * pow2((k - 1) as nat),
                pow2((k - 1) as nat) > 0,
        ;
        assert(pv * qv < pow2(2 * k)) by (nonlinear_arith)
            requires
                pv < pow2(k),
                qv < pow2(k),
                pow2(2 * k) == pow2(k) * pow2(k),
                pow2(k) > 0,
        ;
        assert(safe_prime_candidate(pv, k) && safe_prime_candidate(qv, k) && n.value() == pv * qv
            && is_lcm((pv - 1) as nat, (qv - 1) as nat, lambda.value()));
    }
    Some((n, lambda))
}

} // verus!
