//! The arithmetic backend for what the library does not compute word by
//! word: the strong probabilistic primality test, multiplication, and the
//! least common multiple.

use vstd::prelude::*;
use crate::limbs::val;

verus! {

/// The verdict of the strong probabilistic primality test on a value.
///
/// The test — trial divisions, then Miller-Rabin rounds whose bases come
/// from a generator seeded by the value's own lowest limb, then a Lucas
/// test — is deterministic, so its verdict is a function of the value alone;
/// what it computes would take pages to state, so the verdict only carries a
/// name here.  A value that satisfies it is a probable prime, not a proven
/// one.
pub uninterp spec fn probable_prime(v: nat) -> bool;

/// Relies on num_bigint_dig::prime::probably_prime: the deterministic
/// trial-division, Miller-Rabin and Lucas verdict on the value of the words.
#[verifier::external_body]
pub(crate) fn strong_probable_prime(words: &Vec<u64>) -> (r: bool)
    ensures
        r == probable_prime(val(words@)),
{
    let bytes: Vec<u8> = words.iter().flat_map(|w| w.to_le_bytes()).collect();
    let x = num_bigint_dig::BigUint::from_bytes_le(&bytes);
    num_bigint_dig::prime::probably_prime(&x, 25)
}

/// Relies on num_bigint_dig::BigUint multiplication: the returned words
/// encode the product of the values of the two inputs.
#[verifier::external_body]
pub(crate) fn mul_limbs(a: &Vec<u64>, b: &Vec<u64>) -> (r: Vec<u64>)
    ensures
        val(r@) == val(a@) * val(b@),
{
    let ab: Vec<u8> = a.iter().flat_map(|w| w.to_le_bytes()).collect();
    let bb: Vec<u8> = b.iter().flat_map(|w| w.to_le_bytes()).collect();
    let p = num_bigint_dig::BigUint::from_bytes_le(&ab) * num_bigint_dig::BigUint::from_bytes_le(
        &bb,
    );
    p.to_bytes_le().chunks(8).map(
        |c: &[u8]|
            {
                let mut w = [0u8; 8];
                w[..c.len()].copy_from_slice(c);
                u64::from_le_bytes(w)
            },
    ).collect()
}

/// Relies on the least common multiple of num_bigint_dig's BigUint (its
/// num-integer `Integer` impl): the smallest positive common multiple of two
/// positive values.
#[verifier::external_body]
pub(crate) fn lcm_limbs(a: &Vec<u64>, b: &Vec<u64>) -> (r: Vec<u64>)
    requires
        val(a@) >= 1,
        val(b@) >= 1,
    ensures
        val(r@) >= 1,
        val(r@) % val(a@) == 0,
        val(r@) % val(b@) == 0,
        forall|m: nat| 1 <= m < val(r@) ==> !(#[trigger] (m % val(a@)) == 0 && m % val(b@) == 0),
{
    let ab: Vec<u8> = a.iter().flat_map(|w| w.to_le_bytes()).collect();
    let bb: Vec<u8> = b.iter().flat_map(|w| w.to_le_bytes()).collect();
    let l = num_integer::Integer::lcm(
        &num_bigint_dig::BigUint::from_bytes_le(&ab),
        &num_bigint_dig::BigUint::from_bytes_le(&bb),
    );
    l.to_bytes_le().chunks(8).map(
        |c: &[u8]|
            {
                let mut w = [0u8; 8];
                w[..c.len()].copy_from_slice(c);
                u64::from_le_bytes(w)
            },
    ).collect()
}

} // verus!
