use scicrypt::{gen_prime, gen_safe_prime, gen_rsa_modulus, GeneralRng, OsEntropy, StreamRng, UnsignedInteger};

fn assert_primality_100_000_factors(integer: &UnsignedInteger) {
    let (_, hi) = primal::estimate_nth_prime(100_000);
    for prime in primal::Sieve::new(hi as usize).primes_from(0) {
        assert!(integer.mod_u(prime as u64) != 0);
    }
}

fn limb_value_u128(integer: &UnsignedInteger) -> u128 {
    let limbs = integer.limbs();
    let mut v: u128 = 0;
    for i in (0..limbs.len()).rev() {
        assert!(i < 2 || limbs[i] == 0);
        if i < 2 {
            v = (v << 64) | limbs[i] as u128;
        }
    }
    v
}

#[test]
fn test_gen_prime_for_factors() {
    let mut rng = GeneralRng::new(OsEntropy);
    let generated_prime = gen_prime(256, &mut rng).unwrap();

    assert_primality_100_000_factors(&generated_prime);
}

#[test]
fn test_gen_safe_prime_for_factors() {
    let mut rng = GeneralRng::new(OsEntropy);
    println!("yeet");
    let generated_prime = gen_safe_prime(256, &mut rng).unwrap();

    assert_primality_100_000_factors(&generated_prime);

    let sophie_germain_prime = generated_prime.shr(1);

    assert_primality_100_000_factors(&sophie_germain_prime);
}

#[test]
fn test_gen_prime_small_values_are_prime() {
    // Eight-bit outputs can be checked against the full list of eight-bit
    // primes; a broken strong test would let sieve survivors through.
    let primes_8bit = [131u64, 137, 139, 149, 151, 157, 163, 167, 173, 179, 181, 191, 193, 197,
        199, 211, 223, 227, 229, 233, 239, 241, 251];
    let mut rng = GeneralRng::new(OsEntropy);
    for _ in 0..20 {
        let p = gen_prime(8, &mut rng).unwrap();
        assert_eq!(p.size_in_bits, 8);
        let v = p.limbs()[0];
        assert!(primes_8bit.contains(&v));
    }
}

#[test]
fn test_random_declared_length() {
    // A draw with both end bits forced lands in [2^(b-1), 2^b) and is odd.
    let mut rng = GeneralRng::new(StreamRng::new(vec![0x1234_5678_9abc_def0, 7, 0]));
    for _ in 0..3 {
        let mut v = UnsignedInteger::random(103, &mut rng);
        v.set_bit(102);
        v.set_bit(0);
        assert_eq!(v.size_in_bits, 103);
        assert_eq!(v.mod_u(2), 1);
        // Bit 102 is set: shifting it down leaves exactly one.
        let top = v.shr(102);
        assert_eq!(UnsignedInteger::from_string("1".to_string(), 10, 1), top);
        // Nothing above the declared length.
        assert!(v.shr(103).is_zero());
    }
}

#[test]
fn test_search_replay_is_deterministic() {
    // Replaying an identical deterministic word stream reproduces the same
    // output bit for bit.
    let words = vec![0xfeed_f00d_dead_beefu64, 0x0123_4567_89ab_cdef, 42];
    let mut rng1 = GeneralRng::new(StreamRng::new(words.clone()));
    let mut rng2 = GeneralRng::new(StreamRng::new(words));
    let p1 = gen_prime(32, &mut rng1).unwrap();
    let p2 = gen_prime(32, &mut rng2).unwrap();
    assert_eq!(p1, p2);
    assert_eq!(p1.size_in_bits, p2.size_in_bits);
    assert_eq!(p1.limbs(), p2.limbs());

    let mut rng3 = GeneralRng::new(StreamRng::new(vec![0xa708_a824_f612_c926u64]));
    let mut rng4 = GeneralRng::new(StreamRng::new(vec![0xa708_a824_f612_c926u64]));
    let s1 = gen_safe_prime(24, &mut rng3).unwrap();
    let s2 = gen_safe_prime(24, &mut rng4).unwrap();
    assert_eq!(s1, s2);
    assert_eq!(s1.limbs(), s2.limbs());
}

fn gcd_u128(mut a: u128, mut b: u128) -> u128 {
    while b != 0 {
        let t = a % b;
        a = b;
        b = t;
    }
    a
}

#[test]
fn test_gen_rsa_modulus() {
    let mut rng = GeneralRng::new(OsEntropy);
    let (n, lambda) = gen_rsa_modulus(64, &mut rng).unwrap();
    assert_eq!(n.size_in_bits, 64);
    let nv = limb_value_u128(&n);
    // The product of two 32-bit safe primes has 63 or 64 bits.
    assert!(nv >= 1u128 << 62);
    assert!(nv < 1u128 << 64);
    // Recover the two safe primes by trial division.
    let mut p: u128 = 0;
    let mut d: u128 = 3;
    while d * d <= nv {
        if nv % d == 0 {
            p = d;
            break;
        }
        d += 2;
    }
    assert!(p != 0);
    let q = nv / p;
    assert_eq!(p * q, nv);
    // Both factors are 32-bit values with their top and bottom bits set.
    assert!(p >= 1u128 << 31 && p < 1u128 << 32 && p % 2 == 1);
    assert!(q >= 1u128 << 31 && q < 1u128 << 32 && q % 2 == 1);
    // The second component is lcm(p - 1, q - 1).
    let expected = (p - 1) / gcd_u128(p - 1, q - 1) * (q - 1);
    assert_eq!(limb_value_u128(&lambda), expected);
}
