use hashing_with_chaining::capacity::{log2u, next_pow2};
use hashing_with_chaining::hash::{FourWiseHash, MultiplyShiftHash, MERSENNE_PRIME};
use hashing_with_chaining::rng::random_generator;

/// A tiny deterministic generator for test inputs (splitmix-style), so the
/// statistical tests draw well-spread keys without seeding the library RNG.
fn mix(state: &mut u64) -> u64 {
    *state = state.wrapping_add(0x9e37_79b9_7f4a_7c15);
    let mut z = *state;
    z = (z ^ (z >> 30)).wrapping_mul(0xbf58_476d_1ce4_e5b9);
    z = (z ^ (z >> 27)).wrapping_mul(0x94d0_49bb_1331_11eb);
    z ^ (z >> 31)
}

#[test]
fn multiply_shift_range() {
    // Hash range: every key lands strictly below 2^l.
    let h = MultiplyShiftHash::new(20);
    let mut state: u64 = 1;
    for _ in 0..10_000 {
        let x = mix(&mut state);
        assert!(h.hash(x) < 1 << 20);
    }
    let h1 = MultiplyShiftHash::new(1);
    for x in [0u64, 1, u64::MAX, 42] {
        assert!(h1.hash(x) < 2);
    }
    let h64 = MultiplyShiftHash::new(64);
    let _ = h64.hash(u64::MAX);
}

#[test]
fn four_wise_range_and_sign() {
    // Hash range for the 4-wise kernel: index below 2^l, sign in {-1, +1}.
    let h = FourWiseHash::new(10);
    let mut state: u64 = 2;
    for _ in 0..10_000 {
        let x = mix(&mut state) % MERSENNE_PRIME;
        let (idx, sign) = h.hash(x);
        assert!(idx < 1 << 10);
        assert!(sign == 1 || sign == -1);
    }
}

#[test]
fn universality_smoke() {
    // Empirical collision rate of a random 20-bit multiply-shift hash over
    // a million distinct key pairs stays within a loose 4 / 2^20 bound. One
    // million pairs put the bound at under four collisions, within reach of
    // ordinary fluctuation for a single draw, so the rate is averaged over
    // ten independently drawn hashes, a million pairs each.
    let rounds: u64 = 10;
    let pairs_per_round: u64 = 1_000_000;
    let mut state: u64 = 3;
    let mut collisions: u64 = 0;
    for _ in 0..rounds {
        let h = MultiplyShiftHash::new(20);
        for _ in 0..pairs_per_round {
            let x = mix(&mut state);
            let y = mix(&mut state);
            if x != y && h.hash(x) == h.hash(y) {
                collisions += 1;
            }
        }
    }
    // collisions / 10^7 <= 4 / 2^20, i.e. at most 38 collisions.
    let allowed = 4 * rounds * pairs_per_round / (1 << 20);
    assert!(
        collisions <= allowed,
        "too many collisions: {} over {} pairs",
        collisions,
        rounds * pairs_per_round
    );
}

#[test]
fn hash_determinism() {
    // Re-invoking hash on the same instance returns the same value.
    let h = MultiplyShiftHash::new(16);
    let g = FourWiseHash::new(12);
    let mut state: u64 = 4;
    for _ in 0..1000 {
        let x = mix(&mut state);
        let first = h.hash(x);
        for _ in 0..3 {
            assert_eq!(h.hash(x), first);
        }
        let xg = x % MERSENNE_PRIME;
        let firstg = g.hash(xg);
        for _ in 0..3 {
            assert_eq!(g.hash(xg), firstg);
        }
    }
}

#[test]
fn multiply_shift_exact_formula() {
    // The hash is ((a*x + b) mod 2^64) >> (64 - l), on known parameters.
    let h = MultiplyShiftHash {
        l: 7,
        a: 0x9e37_79b9_7f4a_7c15,
        b: 12345,
    };
    assert_eq!(h.a % 2, 1);
    for x in [0u64, 1, 2, 42, 65536, u64::MAX, 0xdead_beef] {
        let expected = h.a.wrapping_mul(x).wrapping_add(h.b) >> 57;
        assert_eq!(h.hash(x), expected);
    }
}

#[test]
fn four_wise_exact_formula() {
    // The hash is the degree-3 polynomial over p = 2^61 - 1, split into an
    // index (bits 1..l+1) and a parity sign.
    let h = FourWiseHash {
        l: 8,
        a: 12345,
        b: 67890,
        c: 13579,
        d: 24680,
    };
    let p = MERSENNE_PRIME as u128;
    for x in [0u64, 1, 7, 100_000, MERSENNE_PRIME - 1] {
        let mut k = (h.a as u128 * x as u128 + h.b as u128) % p;
        k = (k * x as u128 + h.c as u128) % p;
        k = (k * x as u128 + h.d as u128) % p;
        let k = k as u64;
        let expected_idx = (k >> 1) & 0xff;
        let expected_sign = 2 * ((k & 1) as i64) - 1;
        assert_eq!(h.hash(x), (expected_idx, expected_sign));
    }
}

#[test]
fn random_generator_range() {
    // The RNG wrapper honours the closed-open range.
    assert_eq!(random_generator(10, 11), 10);
    for _ in 0..1000 {
        let r = random_generator(5, 55);
        assert!((5..55).contains(&r));
    }
    for _ in 0..100 {
        let r = random_generator(0, 2);
        assert!(r < 2);
    }
    // Over a wide range the draws actually vary.
    let draws: Vec<u64> = (0..100).map(|_| random_generator(0, 1 << 62)).collect();
    assert!(draws.iter().any(|&d| d != draws[0]));
}

#[test]
fn capacity_helpers() {
    assert_eq!(log2u(1), 0);
    assert_eq!(log2u(2), 1);
    assert_eq!(log2u(1024), 10);
    assert_eq!(log2u(65536), 16);
    // The logarithm rounds down between powers of two.
    assert_eq!(log2u(3), 1);
    assert_eq!(log2u(1000), 9);
    assert_eq!(log2u(1025), 10);
    assert_eq!(log2u(u64::MAX as usize), 63);
    assert_eq!(next_pow2(0), 1);
    assert_eq!(next_pow2(1), 1);
    assert_eq!(next_pow2(3), 4);
    assert_eq!(next_pow2(1000), 1024);
    assert_eq!(next_pow2(1024), 1024);
}
