use hashing_with_chaining::perfect::PerfectSet;

fn build(keys: &[u64]) -> PerfectSet {
    let v: Vec<u64> = keys.to_vec();
    PerfectSet::new(&v).expect("construction exhausted its retries")
}

#[test]
fn membership_matches_input_exactly() {
    // contains(q) is true iff q was in the input, over repeated random
    // constructions across a spread of sizes (the hashes are drawn fresh on
    // every construction).
    let sizes: [usize; 5] = [0, 1, 2, 10, 1000];
    for &n in &sizes {
        for round in 0..19u64 {
            let keys: Vec<u64> = (0..n as u64).map(|i| i * 37 + round * 11).collect();
            let ps = PerfectSet::new(&keys).expect("construction exhausted its retries");
            for &k in &keys {
                assert!(ps.contains(k));
            }
            for q in 0..50u64 {
                let probe = q * 13 + 5;
                assert_eq!(ps.contains(probe), keys.contains(&probe));
            }
        }
    }
    for _ in 0..5 {
        let keys: Vec<u64> = (0..65536u64).map(|i| i * 3).collect();
        let ps = PerfectSet::new(&keys).expect("construction exhausted its retries");
        assert!(ps.contains(3 * 1234));
        assert!(!ps.contains(3 * 1234 + 1));
    }
}

#[test]
fn contains_is_static() {
    // Post-construction, lookups return identical results under arbitrary
    // interleavings with other lookups.
    let keys: Vec<u64> = (0..500u64).map(|i| i * i + 1).collect();
    let ps = build(&keys);
    let first: Vec<bool> = (0..2000u64).map(|q| ps.contains(q)).collect();
    for round in 0..4 {
        for q in 0..2000u64 {
            let _ = ps.contains((q * 7 + round) % 2000);
            assert_eq!(ps.contains(q), first[q as usize]);
        }
    }
}

#[test]
fn dense_range_one_to_1024() {
    // Built from {1, ..., 1024}: for every q in 0..2048, contains(q)
    // matches 1 <= q <= 1024.
    let keys: Vec<u64> = (1..=1024u64).collect();
    let ps = build(&keys);
    for q in 0..2048u64 {
        assert_eq!(ps.contains(q), (1..=1024).contains(&q));
    }
}

#[test]
fn full_16_bit_universe_with_zero() {
    // Built from {0, ..., 65535} (zero is a stored key, not a sentinel):
    // all 65536 members answer true, and a far-away block answers false.
    let keys: Vec<u64> = (0..65536u64).collect();
    let ps = build(&keys);
    for q in 0..65536u64 {
        assert!(ps.contains(q));
    }
    let base = 1u64 << 20;
    for q in base..base + 1000 {
        assert!(!ps.contains(q));
    }
}

#[test]
fn empty_set_rejects_everything() {
    let ps = build(&[]);
    for q in [0u64, 1, 42, u64::MAX] {
        assert!(!ps.contains(q));
    }
}
