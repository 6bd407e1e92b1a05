//! The prime search engine: sieve-accelerated random search for probable
//! primes and safe primes of a declared bit length.
//!
//! Each attempt draws a fresh candidate, forces its top and bottom bits,
//! pre-computes its residues against a table of small primes, and slides an
//! even offset until no tabled prime rejects it; only then does the strong
//! probabilistic test run.  The search is Las Vegas: every returned value
//! satisfies the contract, while the running time is bounded only in
//! expectation by prime density.

use vstd::prelude::*;
use vstd::arithmetic::power2::{pow2, lemma_pow2_pos, lemma_pow2_adds, lemma2_to64};
use vstd::arithmetic::div_mod::{
    lemma_fundamental_div_mod, lemma_add_mod_noop, lemma_div_denominator,
    lemma_multiply_divide_lt, lemma_basic_div,
};
use crate::uint::UnsignedInteger;
use crate::rng::{SecureRng, GeneralRng};
use crate::primes::small_primes;
use crate::backend::{probable_prime, strong_probable_prime};

verus! {

/// What `gen_prime` promises: a value of exactly the declared bit length,
/// top and bottom bits set, that passes the strong probabilistic test.
pub open spec fn prime_candidate(v: nat, bits: nat) -> bool {
    &&& pow2((bits - 1) as nat) <= v < pow2(bits)
    &&& v % 2 == 1
    &&& probable_prime(v)
}

/// What `gen_safe_prime` promises: a prime candidate whose Sophie Germain
/// cofactor `(v - 1) / 2` also passes the strong probabilistic test.
pub open spec fn safe_prime_candidate(v: nat, bits: nat) -> bool {
    &&& prime_candidate(v, bits)
    &&& probable_prime(((v - 1) / 2) as nat)
}

/// **Declared-length invariant.**  A draw below `2^b` with bit `b - 1` and
/// bit `0` then forced to one always lies in `[2^(b-1), 2^b)` and is odd.
/// The hypotheses are exactly what `random` and the two `set_bit` calls
/// ensure of the successive values.
pub proof fn lemma_declared_length(b: nat, v0: nat, v1: nat, v2: nat)
    requires
        b >= 1,
        v0 < pow2(b),
        v1 % pow2((b - 1) as nat) == v0 % pow2((b - 1) as nat),
        v1 / pow2(b) == v0 / pow2(b),
        (v1 / pow2((b - 1) as nat)) % 2 == 1,
        v2 / pow2(1) == v1 / pow2(1),
        (v2 / pow2(0)) % 2 == 1,
    ensures
        pow2((b - 1) as nat) <= v2 < pow2(b),
        v2 % 2 == 1,
{
    lemma2_to64();
    let h = pow2((b - 1) as nat);
    lemma_pow2_pos((b - 1) as nat);
    lemma_pow2_pos(b);
    lemma_pow2_adds(1, (b - 1) as nat);
    assert(pow2(b) == 2 * h);
    // The draw leaves nothing above bit b, so neither does the forced value.
    lemma_basic_div(v0 as int, pow2(b) as int);
    lemma_fundamental_div_mod(v1 as int, pow2(b) as int);
    assert(v1 < pow2(b));
    // The forced top bit bounds the value from below.
    let q1 = v1 / h;
    assert(q1 % 2 == 1);
    lemma_fundamental_div_mod(v1 as int, h as int);
    assert(v1 >= h) by (nonlinear_arith)
        requires
            v1 == h * q1 + v1 % h,
            v1 % h >= 0,
            q1 >= 1,
            h > 0,
    ;
    // Forcing the bottom bit keeps everything above bit zero.
    assert(v2 / 1 == v2) by (nonlinear_arith);
    assert(v2 % 2 == 1);
    lemma_fundamental_div_mod(v2 as int, 2);
    lemma_fundamental_div_mod(v1 as int, 2);
    lemma_multiply_divide_lt(v1 as int, 2, h as int);
    assert(v1 / 2 < h);
    assert(v2 < pow2(b)) by (nonlinear_arith)
        requires
            v2 == 2 * (v2 / 2) + v2 % 2,
            v2 % 2 == 1,
            v2 / 2 == v1 / 2,
            v1 / 2 < h,
            pow2(b) == 2 * h,
    ;
    if b == 1 {
        assert(h == 1);
        assert(v2 >= 1);
    } else {
        let g = pow2((b - 2) as nat);
        lemma_pow2_adds(1, (b - 2) as nat);
        lemma_pow2_pos((b - 2) as nat);
        assert(h == 2 * g);
        lemma_div_denominator(v2 as int, 2, g as int);
        lemma_div_denominator(v1 as int, 2, g as int);
        assert(v2 / h == (v2 / 2) / g);
        assert(v1 / h == (v1 / 2) / g);
        assert(v2 / h == q1);
        lemma_fundamental_div_mod(v2 as int, h as int);
        assert(v2 >= h) by (nonlinear_arith)
            requires
                v2 == h * (v2 / h) + v2 % h,
                v2 % h >= 0,
                v2 / h >= 1,
                h > 0,
        ;
    }
}

/// For an odd value, halving and the Sophie Germain cofactor agree.
pub proof fn lemma_odd_half(v: nat)
    requires
        v % 2 == 1,
    ensures
        v / 2 == ((v - 1) / 2) as nat,
{
    lemma_fundamental_div_mod(v as int, 2);
    vstd::arithmetic::div_mod::lemma_div_multiples_vanish((v / 2) as int, 2);
    assert((v - 1) as int == 2 * ((v / 2) as int));
}

/// Slides an even offset until no tabled prime rejects the candidate's
/// residues, or the offset budget runs out (`None`: resample).  The filter
/// is a rejection heuristic only; its contract is what the callers rely on
/// for arithmetic safety, not a statement about primality.
fn sieve_offset(
    mods: &Vec<u64>,
    table: &Vec<u64>,
    step: u64,
    threshold: u64,
    max_delta: u64,
) -> (r: Option<u64>)
    requires
        mods@.len() == table@.len(),
        step == 2 || step == 4,
        forall|i: int| 0 <= i < table@.len() ==> 2 <= #[trigger] table@[i],
        forall|i: int| 0 <= i < mods@.len() ==> #[trigger] mods@[i] < table@[i],
        forall|i: int|
            0 <= i < table@.len() ==> (#[trigger] table@[i]) as nat + max_delta <= u64::MAX as nat
                + 1,
    ensures
        r is Some ==> r.unwrap() % 2 == 0 && r.unwrap() <= max_delta,
{
    let n = table.len();
    let mut delta: u64 = 0;
    loop
        invariant
            n == table@.len() == mods@.len(),
            step == 2 || step == 4,
            delta % 2 == 0,
            delta <= max_delta,
            forall|i: int| 0 <= i < table@.len() ==> 2 <= #[trigger] table@[i],
            forall|i: int| 0 <= i < mods@.len() ==> #[trigger] mods@[i] < table@[i],
            forall|i: int|
                0 <= i < table@.len() ==> (#[trigger] table@[i]) as nat + max_delta
                    <= u64::MAX as nat + 1,
        decreases max_delta - delta,
    {
        let mut hit = false;
        let mut i: usize = 1;
        while i < n && !hit
            invariant
                n == table@.len() == mods@.len(),
                1 <= i <= n || n == 0,
                delta <= max_delta,
                forall|k: int| 0 <= k < table@.len() ==> 2 <= #[trigger] table@[k],
                forall|k: int| 0 <= k < mods@.len() ==> #[trigger] mods@[k] < table@[k],
                forall|k: int|
                    0 <= k < table@.len() ==> (#[trigger] table@[k]) as nat + max_delta
                        <= u64::MAX as nat + 1,
            decreases (if hit { 0int } else { 1int }), n - i,
        {
            if (mods[i] + delta) % table[i] <= threshold {
                hit = true;
            } else {
                i = i + 1;
            }
        }
        if !hit {
            return Some(delta);
        }
        if max_delta < step || delta > max_delta - step {
            return None;
        }
        delta = delta + step;
    }
}

/// Generates a uniformly random probable prime of exactly `bit_length`
/// bits; the top and the bottom bit are always one.
///
/// The search is Las Vegas: a returned value always satisfies the contract,
/// and the number of resampling rounds is bounded only in expectation by
/// prime density.  `None` can arise only when an astronomically large round
/// budget runs out — no realistic execution reaches it, and no value is
/// ever returned without passing the strong test.
pub fn gen_prime<R: SecureRng>(bit_length: u64, rng: &mut GeneralRng<R>) -> (r: Option<
    UnsignedInteger,
>)
    requires
        3 <= bit_length < u32::MAX,
    ensures
        r is Some ==> ({
            let v = r.unwrap();
            &&& v.wf()
            &&& v.fits()
            &&& v@.bits == bit_length as nat
            &&& prime_candidate(v.value(), bit_length as nat)
        }),
{
    let bl32: u32 = bit_length as u32;
    let prime_count: usize = (bit_length / 3) as usize;
    let table = small_primes(prime_count);
    let pc = table.len();
    let last_prime = table[pc - 1];
    let max_delta: u64 = u64::MAX - last_prime;
    let mut attempts: u64 = 0xFFFF_FFFF_FFFF_FFFFu64;
    while attempts > 0
        invariant
            3 <= bit_length < u32::MAX,
            bl32 == bit_length,
            pc == table@.len(),
            pc >= 1,
            forall|i: int| 0 <= i < table@.len() ==> 2 <= #[trigger] table@[i],
            forall|i: int, j: int| 0 <= i < j < table@.len() ==> table@[i] < table@[j],
            last_prime == table@[pc - 1],
            max_delta == u64::MAX - last_prime,
        decreases attempts,
    {
        attempts = attempts - 1;
        let mut candidate = UnsignedInteger::random(bit_length, rng);
        let ghost v0 = candidate.value();
        candidate.set_bit(bit_length - 1);
        let ghost v1 = candidate.value();
        candidate.set_bit(0);
        let ghost v2 = candidate.value();
        proof {
            lemma_declared_length(bit_length as nat, v0, v1, v2);
        }
        let mut mods: Vec<u64> = Vec::new();
        let mut i: usize = 0;
        while i < pc
            invariant
                mods@.len() == i,
                i <= pc,
                pc == table@.len(),
                forall|k: int| 0 <= k < table@.len() ==> 2 <= #[trigger] table@[k],
                forall|k: int| 0 <= k < i ==> #[trigger] mods@[k] < table@[k],
                candidate.wf(),
            decreases pc - i,
        {
            let m = table[i];
            let md = candidate.mod_u(m);
            mods.push(md);
            i = i + 1;
        }
        proof {
            assert forall|k: int| 0 <= k < table@.len() implies (#[trigger] table@[k]) as nat
                + max_delta <= u64::MAX as nat + 1 by {
                if k < pc - 1 {
                    assert(table@[k] < table@[pc - 1]);
                }
            }
        }
        let delta_opt = sieve_offset(&mods, &table, 2, 0, max_delta);
        if delta_opt.is_none() {
            continue ;
        }
        let delta = delta_opt.unwrap();
        let ghost vpre = candidate.value();
        candidate.secure_add_assign(delta);
        if candidate.bits() != bl32 {
            continue ;
        }
        let shifted = candidate.shr(bl32);
        if !shifted.is_zero() {
            continue ;
        }
        proof {
            lemma_fundamental_div_mod(candidate.value() as int, pow2(bit_length as nat) as int);
            lemma_pow2_pos(bit_length as nat);
            assert(candidate.value() < pow2(bit_length as nat));
            lemma_add_mod_noop(vpre as int, delta as int, 2);
            assert(candidate.value() % 2 == 1);
        }
        if strong_probable_prime(candidate.limbs()) {
            return Some(candidate);
        }
    }
    None
}

/// Generates a uniformly random probable *safe* prime of exactly
/// `bit_length` bits: a value `p` of the prime shape above whose Sophie
/// Germain cofactor `(p - 1) / 2` also passes the strong test.
pub fn gen_safe_prime<R: SecureRng>(bit_length: u64, rng: &mut GeneralRng<R>) -> (r: Option<
    UnsignedInteger,
>)
    requires
        3 <= bit_length < u32::MAX,
    ensures
        r is Some ==> ({
            let v = r.unwrap();
            &&& v.wf()
            &&& v.fits()
            &&& v@.bits == bit_length as nat
            &&& safe_prime_candidate(v.value(), bit_length as nat)
        }),
{
    let bl32: u32 = bit_length as u32;
    let prime_count: usize = (bit_length / 3) as usize;
    let table = small_primes(prime_count);
    let pc = table.len();
    let last_prime = table[pc - 1];
    let max_delta: u64 = u64::MAX - last_prime;
    let mut attempts: u64 = 0xFFFF_FFFF_FFFF_FFFFu64;
    while attempts > 0
        invariant
            3 <= bit_length < u32::MAX,
            bl32 == bit_length,
            pc == table@.len(),
            pc >= 1,
            forall|i: int| 0 <= i < table@.len() ==> 2 <= #[trigger] table@[i],
            forall|i: int, j: int| 0 <= i < j < table@.len() ==> table@[i] < table@[j],
            last_prime == table@[pc - 1],
            max_delta == u64::MAX - last_prime,
        decreases attempts,
    {
        attempts = attempts - 1;
        let mut candidate = UnsignedInteger::random(bit_length, rng);
        let ghost v0 = candidate.value();
        candidate.set_bit(bit_length - 1);
        let ghost v1 = candidate.value();
        candidate.set_bit(0);
        let ghost v2 = candidate.value();
        proof {
            lemma_declared_length(bit_length as nat, v0, v1, v2);
        }
        let mut mods: Vec<u64> = Vec::new();
        let mut i: usize = 0;
        while i < pc
            invariant
                mods@.len() == i,
                i <= pc,
                pc == table@.len(),
                forall|k: int| 0 <= k < table@.len() ==> 2 <= #[trigger] table@[k],
                forall|k: int| 0 <= k < i ==> #[trigger] mods@[k] < table@[k],
                candidate.wf(),
            decreases pc - i,
        {
            let m = table[i];
            let md = candidate.mod_u(m);
            mods.push(md);
            i = i + 1;
        }
        proof {
            assert forall|k: int| 0 <= k < table@.len() implies (#[trigger] table@[k]) as nat
                + max_delta <= u64::MAX as nat + 1 by {
                if k < pc - 1 {
                    assert(table@[k] < table@[pc - 1]);
                }
            }
        }
        let delta_opt = sieve_offset(&mods, &table, 4, 1, max_delta);
        if delta_opt.is_none() {
            continue ;
        }
        let delta = delta_opt.unwrap();
        let ghost vpre = candidate.value();
        candidate.secure_add_assign(delta);
        if candidate.bits() != bl32 {
            continue ;
        }
        let shifted = candidate.shr(bl32);
        if !shifted.is_zero() {
            continue ;
        }
        proof {
            lemma_fundamental_div_mod(candidate.value() as int, pow2(bit_length as nat) as int);
            lemma_pow2_pos(bit_length as nat);
            assert(candidate.value() < pow2(bit_length as nat));
            lemma_add_mod_noop(vpre as int, delta as int, 2);
            assert(candidate.value() % 2 == 1);
        }
        if strong_probable_prime(candidate.limbs()) {
            let cofactor = candidate.shr(1);
            proof {
                lemma2_to64();
                lemma_odd_half(candidate.value());
                assert(cofactor.value() == ((candidate.value() - 1) / 2) as nat);
            }
            if strong_probable_prime(cofactor.limbs()) {
                return Some(candidate);
            }
        }
    }
    None
}

} // verus!
