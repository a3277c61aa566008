use hashing_with_chaining::sketch::NormSketch;

#[test]
fn linearity_of_updates() {
    // Updating a key with a and then b leaves counters bit-identical to one
    // update with a + b, on the same hash.
    let s_template = NormSketch::new(64);
    let mut one = NormSketch {
        counters: vec![0; 64],
        hash: s_template.hash,
    };
    let mut two = NormSketch {
        counters: vec![0; 64],
        hash: s_template.hash,
    };
    let cases: [(u64, i64, i64); 4] = [(3, 5, 7), (9, -4, 4), (100, 0, -17), (3, 1, 1)];
    for (k, a, b) in cases {
        one.update(k, a);
        one.update(k, b);
        two.update(k, a + b);
        assert_eq!(one.counters, two.counters);
    }
}

#[test]
fn updates_commute() {
    // The counters depend only on the multiset of updates, not their order.
    let template = NormSketch::new(32);
    let mut fwd = NormSketch {
        counters: vec![0; 32],
        hash: template.hash,
    };
    let mut rev = NormSketch {
        counters: vec![0; 32],
        hash: template.hash,
    };
    let stream: [(u64, i64); 5] = [(1, 4), (2, -3), (1, 2), (8, 8), (2, 1)];
    for (k, v) in stream {
        fwd.update(k, v);
    }
    for (k, v) in stream.iter().rev() {
        rev.update(*k, *v);
    }
    assert_eq!(fwd.counters, rev.counters);
    assert_eq!(fwd.estimate(), rev.estimate());
}

#[test]
fn estimate_of_empty_sketch_is_zero() {
    let s = NormSketch::new(128);
    assert_eq!(s.estimate(), 0);
}

#[test]
fn estimate_is_unbiased() {
    // Over 1000 independent sketches of the same small stream, the mean of
    // the estimates converges to the true squared norm within three
    // standard errors.
    let truth: f64 = (1..=16u64).map(|v| ((v * v) as f64)).sum();
    let runs = 1000;
    let mut estimates: Vec<f64> = Vec::with_capacity(runs);
    for _ in 0..runs {
        let mut s = NormSketch::new(64);
        for k in 0..16u64 {
            s.update(k, (k + 1) as i64);
        }
        estimates.push(s.estimate() as f64);
    }
    let mean = estimates.iter().sum::<f64>() / runs as f64;
    let var = estimates.iter().map(|e| (e - mean) * (e - mean)).sum::<f64>() / (runs as f64 - 1.0);
    let stderr = (var / runs as f64).sqrt();
    let bound = 3.0 * stderr + 1e-9;
    assert!(
        (mean - truth).abs() <= bound,
        "mean {} strays from {} beyond {}",
        mean,
        truth,
        bound
    );
}

#[test]
fn median_estimate_of_long_stream() {
    // One million unit updates on eight keys, r = 128: the true squared
    // norm is 1.25e11 and the median of seven sketches stays within 10 %
    // (with high probability by design).
    let truth: i64 = 125_000_000_000;
    let mut estimates: Vec<i64> = Vec::new();
    for _ in 0..7 {
        let mut s = NormSketch::new(128);
        for i in 0..1_000_000u64 {
            s.update(i % 8, 1);
        }
        estimates.push(s.estimate());
    }
    estimates.sort();
    let median = estimates[3];
    let err = (median - truth).abs();
    assert!(
        err * 10 <= truth,
        "median {} strays more than 10% from {}",
        median,
        truth
    );
}

#[test]
fn counters_take_signed_deltas() {
    let mut s = NormSketch::new(4);
    s.update(11, 9);
    assert_eq!(s.estimate(), 81);
    s.update(11, -9);
    assert_eq!(s.estimate(), 0);
}
