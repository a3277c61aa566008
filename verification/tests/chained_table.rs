use hashing_with_chaining::chained::ChainedTable;

#[test]
fn aggregation_of_multiset() {
    // query(k) is the sum of all deltas inserted for k, and norm() is the
    // sum of the squared per-key sums.
    let mut t = ChainedTable::new(16);
    let updates: [(u64, i64); 6] = [(1, 5), (2, 3), (1, -2), (7, 0), (2, 10), (1, 1)];
    for (k, v) in updates {
        t.insert(k, v);
    }
    assert_eq!(t.query(1), Some(4));
    assert_eq!(t.query(2), Some(13));
    assert_eq!(t.query(7), Some(0));
    assert_eq!(t.query(3), None);
    assert_eq!(t.norm(), 4 * 4 + 13 * 13);
}

#[test]
fn query_is_idempotent() {
    // Lookups do not mutate the table: repeated and interleaved queries
    // agree, and the norm is unchanged by any amount of querying.
    let mut t = ChainedTable::new(8);
    for k in 0..100u64 {
        t.insert(k % 10, 1);
    }
    let norm_before = t.norm();
    let first: Vec<Option<i64>> = (0..20u64).map(|k| t.query(k)).collect();
    for _ in 0..5 {
        for k in 0..20u64 {
            assert_eq!(t.query(k), first[k as usize]);
            let _ = t.query(19 - k);
            let _ = t.longest_chain();
        }
    }
    assert_eq!(t.norm(), norm_before);
}

#[test]
fn unit_updates_across_the_key_space() {
    // Keys 0..65535 each once with value 1 into 65536 buckets: the norm is
    // 65536, key 42 holds 1, and 65536 itself was never inserted.
    let mut t = ChainedTable::new(65536);
    for k in 0..65536u64 {
        t.insert(k, 1);
    }
    assert_eq!(t.norm(), 65536);
    assert_eq!(t.query(42), Some(1));
    assert_eq!(t.query(65536), None);
}

#[test]
fn exact_norm_of_folded_stream() {
    // One million unit updates on eight keys into eight buckets: the norm
    // is exactly 8 * 125000^2.
    let mut t = ChainedTable::new(8);
    for i in 0..1_000_000u64 {
        t.insert(i % 8, 1);
    }
    assert_eq!(t.norm(), 125_000_000_000);
    for k in 0..8u64 {
        assert_eq!(t.query(k), Some(125_000));
    }
}

#[test]
fn longest_chain_of_single_key() {
    // Repeated insertion of one key occupies exactly one slot of one chain.
    let mut t = ChainedTable::new(4);
    for _ in 0..50 {
        t.insert(77, 2);
    }
    assert_eq!(t.longest_chain(), 1);
    assert_eq!(t.query(77), Some(100));
    // A fresh table has no chains at all.
    let empty = ChainedTable::new(4);
    assert_eq!(empty.longest_chain(), 0);
    assert_eq!(empty.norm(), 0);
}

#[test]
fn negative_values_cancel() {
    let mut t = ChainedTable::new(2);
    t.insert(5, 10);
    t.insert(5, -10);
    assert_eq!(t.query(5), Some(0));
    assert_eq!(t.norm(), 0);
    t.insert(6, -3);
    assert_eq!(t.norm(), 9);
}
