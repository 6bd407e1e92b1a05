//! The ascending table of small primes that drives the sieve.

use vstd::prelude::*;

verus! {

/// The first primes, in ascending order, found by trial division.  The
/// sieve uses them only as a rejection heuristic, so its correctness needs
/// their order and size, not their primality.
///
/// The table stops early in the unreachable case that the candidate counter
/// would overflow; the callers cope with any length.
pub fn small_primes(count: usize) -> (r: Vec<u64>)
    ensures
        r@.len() <= count,
        forall|i: int| 0 <= i < r@.len() ==> 2 <= #[trigger] r@[i],
        forall|i: int, j: int| 0 <= i < j < r@.len() ==> r@[i] < r@[j],
        count > 0 ==> r@.len() >= 1 && r@[0] == 2,
{
    let mut v: Vec<u64> = Vec::new();
    let mut n: u64 = 2;
    while v.len() < count && n < 0xFFFF_FFFF_FFFF_FFFFu64
        invariant
            v@.len() <= count,
            n >= 2,
            forall|k: int| 0 <= k < v@.len() ==> 2 <= #[trigger] v@[k] && v@[k] < n,
            forall|i: int, j: int| 0 <= i < j < v@.len() ==> v@[i] < v@[j],
            v@.len() == 0 ==> n == 2,
            v@.len() > 0 ==> v@[0] == 2,
        decreases 0xFFFF_FFFF_FFFF_FFFFu64 - n,
    {
        let mut composite = false;
        let mut d: u64 = 2;
        while d <= n / d && !composite
            invariant
                2 <= d,
                d <= n,
                composite ==> d <= n / d,
            decreases (if composite { 0int } else { 1int }), n - d,
        {
            if n % d == 0 {
                composite = true;
            } else {
                proof {
                    vstd::arithmetic::div_mod::lemma_fundamental_div_mod(n as int, d as int);
                    assert(d < n) by (nonlinear_arith)
                        requires
                            d >= 2,
                            d <= n / d,
                            n == d * (n / d) + n % d,
                            n % d >= 0,
                    ;
                }
                d = d + 1;
            }
        }
        proof {
            if v@.len() == 0 && composite {
                assert(n == 2);
                vstd::arithmetic::div_mod::lemma_fundamental_div_mod(n as int, d as int);
                assert(false) by (nonlinear_arith)
                    requires
                        n == 2,
                        d >= 2,
                        d <= n / d,
                        n == d * (n / d) + n % d,
                        n % d >= 0,
                ;
            }
        }
        if !composite {
            v.push(n);
        }
        n = n + 1;
    }
    v
}

} // verus!
