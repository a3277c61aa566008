//! Hashing with chaining: an additive key-value dictionary. Each bucket is a
//! short chain of key-value pairs; inserting an existing key adds into its
//! accumulated value, and the table can report the exact squared norm of the
//! aggregated frequency vector.
use vstd::prelude::*;

verus! {

use vstd::arithmetic::power2::{pow2, lemma2_to64};
use crate::capacity::{is_power_of_two, log2u};
use crate::hash::MultiplyShiftHash;

/// One stored pair: a key and the value accumulated for it so far.
pub struct Entry {
    pub key: u64,
    pub val: i64,
}

/// No key occurs twice within one bucket.
pub open spec fn bucket_distinct(b: Seq<Entry>) -> bool {
    forall|i: int, j: int| 0 <= i < j < b.len() ==> (#[trigger] b[i]).key != (#[trigger] b[j]).key
}

/// Whether some entry of the bucket holds key `k`.
pub open spec fn bucket_has(b: Seq<Entry>, k: u64) -> bool {
    exists|i: int| 0 <= i < b.len() && (#[trigger] b[i]).key == k
}

/// The value stored with key `k` in the bucket.
pub open spec fn bucket_val(b: Seq<Entry>, k: u64) -> int {
    b[choose|i: int| 0 <= i < b.len() && (#[trigger] b[i]).key == k].val as int
}

/// In a duplicate-free bucket, every entry that holds `k` is the entry that
/// `bucket_val` reads.
proof fn lemma_bucket_witness(b: Seq<Entry>, k: u64, i: int)
    requires
        bucket_distinct(b),
        0 <= i < b.len(),
        b[i].key == k,
    ensures
        bucket_has(b, k),
        bucket_val(b, k) == b[i].val as int,
{
    assert(bucket_has(b, k));
    let j = choose|j: int| 0 <= j < b.len() && (#[trigger] b[j]).key == k;
    assert(b[j].key == k);
    if i != j {
        assert(false);
    }
}

/// The aggregated map after one more update: key `k` gains `v` on top of
/// whatever it held, entering at `v` when absent.
pub open spec fn upd(m: Map<u64, int>, k: u64, v: int) -> Map<u64, int> {
    m.insert(k, if m.contains_key(k) { m[k] + v } else { v })
}

/// The squared norm of a finite aggregated map: the sum, over the keys it
/// holds, of the squared value.
pub open spec fn map_norm(m: Map<u64, int>) -> int
    decreases m.dom().len(),
{
    if m.dom().finite() && m.dom().len() > 0 {
        let k = m.dom().choose();
        m[k] * m[k] + map_norm(m.remove(k))
    } else {
        0
    }
}

/// The norm is a sum of squares, so it is never negative.
pub proof fn lemma_map_norm_nonneg(m: Map<u64, int>)
    ensures
        map_norm(m) >= 0,
    decreases m.dom().len(),
{
    if m.dom().finite() && m.dom().len() > 0 {
        let k = m.dom().choose();
        assert(m[k] * m[k] >= 0) by (nonlinear_arith);
        lemma_map_norm_nonneg(m.remove(k));
    }
}

/// The norm can be peeled at any key of the domain, not only at the one the
/// definition happens to pick.
pub proof fn lemma_map_norm_remove(m: Map<u64, int>, k: u64)
    requires
        m.dom().finite(),
        m.dom().contains(k),
    ensures
        map_norm(m) == m[k] * m[k] + map_norm(m.remove(k)),
    decreases m.dom().len(),
{
    let k0 = m.dom().choose();
    assert(m.dom().len() > 0);
    if k0 == k {
    } else {
        let m1 = m.remove(k0);
        lemma_map_norm_remove(m1, k);
        lemma_map_norm_remove(m.remove(k), k0);
        assert(m1.remove(k) =~= m.remove(k).remove(k0));
        assert(m1[k] == m[k]);
        assert(m.remove(k)[k0] == m[k0]);
    }
}

/// Overwriting (or adding) one key changes the norm by the difference of
/// the squares.
pub proof fn lemma_map_norm_insert(m: Map<u64, int>, k: u64, v: int)
    requires
        m.dom().finite(),
    ensures
        map_norm(m.insert(k, v)) == map_norm(m) + v * v - (if m.contains_key(k) {
            m[k] * m[k]
        } else {
            0
        }),
{
    let m2 = m.insert(k, v);
    lemma_map_norm_remove(m2, k);
    if m.contains_key(k) {
        lemma_map_norm_remove(m, k);
        assert(m2.remove(k) =~= m.remove(k));
    } else {
        assert(m2.remove(k) =~= m);
    }
}

/// Dictionary from 64-bit keys to accumulated 64-bit signed values, chained
/// over a multiply-shift hash. The abstract state is the finite map from
/// each present key to the sum of the values inserted for it.
pub struct ChainedTable {
    pub buckets: Vec<Vec<Entry>>,
    pub hash: MultiplyShiftHash,
}

impl View for ChainedTable {
    type V = Map<u64, int>;

    /// The aggregated key-value map the table represents.
    open spec fn view(&self) -> Map<u64, int> {
        Map::new(
            |k: u64| self.spec_get(k) is Some,
            |k: u64| self.spec_get(k)->Some_0 as int,
        )
    }
}

impl ChainedTable {
    /// The number of buckets.
    pub open spec fn num_buckets(self) -> int {
        self.buckets@.len() as int
    }

    /// The bucket index a key belongs to.
    pub open spec fn spec_bucket_of(self, k: u64) -> int {
        self.hash.spec_index(k)
    }

    /// The aggregated value of key `k`, if `k` is present.
    pub open spec fn spec_get(self, k: u64) -> Option<i64> {
        let b = self.buckets@[self.spec_bucket_of(k)]@;
        if bucket_has(b, k) {
            Some(bucket_val(b, k) as i64)
        } else {
            None
        }
    }

    /// Internal shape: the bucket array matches the hash's index range,
    /// buckets hold pairwise distinct keys, and every entry sits in the
    /// bucket its key hashes to.
    pub open spec fn wf(self) -> bool {
        &&& self.hash.wf()
        &&& self.buckets@.len() == pow2(self.hash.l as nat)
        &&& forall|i: int|
            0 <= i < self.buckets@.len() ==> bucket_distinct(#[trigger] self.buckets@[i]@)
        &&& forall|i: int, j: int|
            0 <= i < self.buckets@.len() && 0 <= j < self.buckets@[i]@.len()
                ==> self.hash.spec_index((#[trigger] self.buckets@[i]@[j]).key) == i
    }

    /// Creates an empty table of `size` buckets (a power of two, at least
    /// two) with a freshly drawn hash.
    pub fn new(size: usize) -> (r: ChainedTable)
        requires
            is_power_of_two(size as int),
            2 <= size,
        ensures
            r.wf(),
            r.num_buckets() == size,
            r@ == Map::<u64, int>::empty(),
    {
        let hash_len: u32 = log2u(size);
        proof {
            lemma2_to64();
        }
        let hash = MultiplyShiftHash::new(hash_len);
        let mut buckets: Vec<Vec<Entry>> = Vec::new();
        let mut i: usize = 0;
        while i < size
            invariant
                buckets@.len() == i,
                i <= size,
                forall|j: int| 0 <= j < i ==> (#[trigger] buckets@[j])@.len() == 0,
            decreases size - i,
        {
            buckets.push(Vec::new());
            i = i + 1;
        }
        let r = ChainedTable { buckets, hash };
        proof {
            assert forall|k: u64| !(r.spec_get(k) is Some) by {
                r.hash.lemma_index_range(k);
            }
            assert(r@ =~= Map::<u64, int>::empty());
        }
        r
    }

    /// Adds `value` onto the accumulated value of `key`, appending a fresh
    /// entry when `key` is absent; no other key changes.
    pub fn insert(&mut self, key: u64, value: i64)
        requires
            old(self).wf(),
            old(self)@.contains_key(key) ==> i64::MIN <= old(self)@[key] + value <= i64::MAX,
        ensures
            final(self).wf(),
            final(self)@ == upd(old(self)@, key, value as int),
            final(self).hash == old(self).hash,
            final(self).num_buckets() == old(self).num_buckets(),
            map_norm(final(self)@) == map_norm(old(self)@) + (if old(self)@.contains_key(key) {
                (old(self)@[key] + value) * (old(self)@[key] + value) - old(self)@[key] * old(
                    self,
                )@[key]
            } else {
                value * value
            }),
    {
        proof {
            self.hash.lemma_index_range(key);
        }
        let h: u64 = self.hash.hash(key);
        proof {
            vstd::std_specs::vec::axiom_spec_len(&self.buckets);
        }
        let idx: usize = h as usize;
        let ghost b0 = self.buckets@[idx as int]@;
        let n: usize = self.buckets[idx].len();
        let mut j: usize = 0;
        while j < n
            invariant
                old(self).wf(),
                *self == *old(self),
                j <= n,
                n == b0.len(),
                b0 == self.buckets@[idx as int]@,
                idx as int == old(self).spec_bucket_of(key),
                0 <= idx < old(self).buckets@.len(),
                old(self)@.contains_key(key) ==> i64::MIN <= old(self)@[key] + value
                    <= i64::MAX,
                forall|t: int| 0 <= t < j ==> (#[trigger] b0[t]).key != key,
            decreases n - j,
        {
            if self.buckets[idx][j].key == key {
                let cur: i64 = self.buckets[idx][j].val;
                proof {
                    lemma_bucket_witness(b0, key, j as int);
                    assert(old(self)@.contains_key(key));
                    assert(old(self)@[key] == cur as int);
                }
                let newval: i64 = cur + value;
                self.buckets[idx][j] = Entry { key, val: newval };
                proof {
                    lemma_insert_overwrite(*old(self), *self, key, value, idx as int, j as int);
                    lemma_dom_finite(*old(self));
                    lemma_map_norm_insert(old(self)@, key, old(self)@[key] + value);
                }
                return ;
            }
            j = j + 1;
        }
        proof {
            assert(!bucket_has(b0, key));
        }
        self.buckets[idx].push(Entry { key, val: value });
        proof {
            lemma_insert_append(*old(self), *self, key, value, idx as int);
            lemma_dom_finite(*old(self));
            lemma_map_norm_insert(old(self)@, key, value as int);
        }
    }

    /// Returns the aggregated value of `key`, or nothing when `key` was
    /// never inserted. The table is not touched.
    pub fn query(&self, key: u64) -> (r: Option<i64>)
        requires
            self.wf(),
        ensures
            r == self.spec_get(key),
            r is Some <==> self@.contains_key(key),
            r is Some ==> r->Some_0 as int == self@[key],
    {
        proof {
            self.hash.lemma_index_range(key);
        }
        let h: u64 = self.hash.hash(key);
        proof {
            vstd::std_specs::vec::axiom_spec_len(&self.buckets);
        }
        let idx: usize = h as usize;
        let ghost b0 = self.buckets@[idx as int]@;
        let n: usize = self.buckets[idx].len();
        let mut j: usize = 0;
        while j < n
            invariant
                self.wf(),
                j <= n,
                n == b0.len(),
                b0 == self.buckets@[idx as int]@,
                idx as int == self.spec_bucket_of(key),
                0 <= idx < self.buckets@.len(),
                forall|t: int| 0 <= t < j ==> (#[trigger] b0[t]).key != key,
            decreases n - j,
        {
            if self.buckets[idx][j].key == key {
                let v: i64 = self.buckets[idx][j].val;
                proof {
                    lemma_bucket_witness(b0, key, j as int);
                }
                return Some(v);
            }
            j = j + 1;
        }
        proof {
            assert(!bucket_has(b0, key));
        }
        None
    }

    /// The exact squared norm of the aggregated frequency vector: the sum,
    /// over every present key, of the square of its accumulated value.
    pub fn norm(&self) -> (r: i64)
        requires
            self.wf(),
            map_norm(self@) <= i64::MAX,
        ensures
            r as int == map_norm(self@),
            r >= 0,
    {
        let ghost total: int = map_norm(self@);
        let ghost mut g: Map<u64, int> = self@;
        proof {
            lemma_dom_finite(*self);
            lemma_map_norm_nonneg(g);
            assert forall|k: u64| #[trigger] self@.contains_key(k) implies self.spec_bucket_of(k)
                >= 0 by {
                self.hash.lemma_index_range(k);
            }
            assert(g =~= remaining(*self, 0, 0));
        }
        let mut sum: i64 = 0;
        let m: usize = self.buckets.len();
        let mut bi: usize = 0;
        while bi < m
            invariant
                self.wf(),
                m == self.buckets@.len(),
                bi <= m,
                g == remaining(*self, bi as int, 0),
                g.dom().finite(),
                total == map_norm(self@),
                total <= i64::MAX,
                sum as int == total - map_norm(g),
                0 <= map_norm(g) <= total,
            decreases m - bi,
        {
            let ghost b = self.buckets@[bi as int]@;
            let n: usize = self.buckets[bi].len();
            let mut jj: usize = 0;
            proof {
                assert(g =~= remaining(*self, bi as int, jj as int));
            }
            while jj < n
                invariant
                    self.wf(),
                    m == self.buckets@.len(),
                    bi < m,
                    n == b.len(),
                    b == self.buckets@[bi as int]@,
                    jj <= n,
                    g == remaining(*self, bi as int, jj as int),
                    g.dom().finite(),
                    total == map_norm(self@),
                    total <= i64::MAX,
                    sum as int == total - map_norm(g),
                    0 <= map_norm(g) <= total,
                decreases n - jj,
            {
                let key: u64 = self.buckets[bi][jj].key;
                let v: i64 = self.buckets[bi][jj].val;
                proof {
                    lemma_bucket_witness(b, key, jj as int);
                    assert(self.spec_bucket_of(key) == bi as int);
                    assert(self@.contains_key(key));
                    assert(self@[key] == v as int);
                    assert(bucket_has_from(b, key, jj as int));
                    assert(g.dom().contains(key));
                    assert(g[key] == v as int);
                    lemma_map_norm_remove(g, key);
                    lemma_map_norm_nonneg(g.remove(key));
                    assert(v as int * v as int >= 0) by (nonlinear_arith);
                    assert(v as int * v as int <= map_norm(g));
                }
                let sq: i64 = v * v;
                sum = sum + sq;
                proof {
                    g = g.remove(key);
                    assert forall|k: u64|
                        g.dom().contains(k) == remaining(
                            *self,
                            bi as int,
                            jj as int + 1,
                        ).dom().contains(k) by {
                        if k == key {
                            if bucket_has_from(b, k, jj as int + 1) {
                                let t = choose|t: int|
                                    jj as int + 1 <= t < b.len() && (#[trigger] b[t]).key == k;
                                assert(b[t].key == b[jj as int].key);
                                assert(false);
                            }
                        } else {
                            if bucket_has_from(b, k, jj as int) {
                                let t = choose|t: int|
                                    jj as int <= t < b.len() && (#[trigger] b[t]).key == k;
                                assert(t != jj as int);
                                assert(bucket_has_from(b, k, jj as int + 1));
                            }
                        }
                    }
                    assert(g =~= remaining(*self, bi as int, jj as int + 1));
                }
                jj = jj + 1;
            }
            proof {
                assert forall|k: u64|
                    g.dom().contains(k) == remaining(
                        *self,
                        bi as int + 1,
                        0,
                    ).dom().contains(k) by {
                    if self@.contains_key(k) {
                        self.hash.lemma_index_range(k);
                        if self.spec_bucket_of(k) == bi as int + 1 {
                            let b2 = self.buckets@[bi as int + 1]@;
                            if bucket_has(b2, k) {
                                assert(bucket_has_from(b2, k, 0));
                            }
                        }
                    }
                }
                assert(g =~= remaining(*self, bi as int + 1, 0));
            }
            bi = bi + 1;
        }
        proof {
            assert forall|k: u64| !g.dom().contains(k) by {
                if self@.contains_key(k) {
                    self.hash.lemma_index_range(k);
                }
            }
            assert(g =~= Map::<u64, int>::empty());
            assert(map_norm(g) == 0);
        }
        sum
    }

    /// Diagnostic: the occupancy of the fullest bucket.
    pub fn longest_chain(&self) -> (r: usize)
        ensures
            r as int == spec_longest(self.buckets@),
    {
        let mut best: usize = 0;
        let m: usize = self.buckets.len();
        let mut bi: usize = 0;
        while bi < m
            invariant
                bi <= m,
                m == self.buckets@.len(),
                best as int == spec_longest(self.buckets@.take(bi as int)),
            decreases m - bi,
        {
            let len: usize = self.buckets[bi].len();
            if len > best {
                best = len;
            }
            proof {
                assert(self.buckets@.take(bi as int + 1).drop_last() =~= self.buckets@.take(
                    bi as int,
                ));
                assert(self.buckets@.take(bi as int + 1).last() == self.buckets@[bi as int]);
            }
            bi = bi + 1;
        }
        proof {
            assert(self.buckets@.take(m as int) =~= self.buckets@);
        }
        best
    }
}

/// The longest chain among the buckets.
pub open spec fn spec_longest(bs: Seq<Vec<Entry>>) -> int
    decreases bs.len(),
{
    if bs.len() == 0 {
        0
    } else {
        let rest = spec_longest(bs.drop_last());
        if bs.last()@.len() > rest {
            bs.last()@.len() as int
        } else {
            rest
        }
    }
}

/// The aggregated map after a stream of updates is applied in order to `m`.
pub open spec fn apply_updates(m: Map<u64, int>, us: Seq<(u64, int)>) -> Map<u64, int>
    decreases us.len(),
{
    if us.len() == 0 {
        m
    } else {
        upd(apply_updates(m, us.drop_last()), us.last().0, us.last().1)
    }
}

/// The sum of the deltas a stream carries for key `k`.
pub open spec fn sum_for(us: Seq<(u64, int)>, k: u64) -> int
    decreases us.len(),
{
    if us.len() == 0 {
        0
    } else {
        sum_for(us.drop_last(), k) + (if us.last().0 == k {
            us.last().1
        } else {
            0
        })
    }
}

/// The set of keys a stream mentions.
pub open spec fn keys_of(us: Seq<(u64, int)>) -> Set<u64> {
    us.map_values(|u: (u64, int)| u.0).to_set()
}

/// A key a stream never mentions accumulates nothing.
proof fn lemma_sum_for_absent(us: Seq<(u64, int)>, k: u64)
    requires
        !keys_of(us).contains(k),
    ensures
        sum_for(us, k) == 0,
    decreases us.len(),
{
    if us.len() > 0 {
        let mv = us.map_values(|u: (u64, int)| u.0);
        assert(mv[us.len() - 1] == us.last().0);
        assert(keys_of(us).contains(us.last().0));
        let init = us.drop_last();
        let mvi = init.map_values(|u: (u64, int)| u.0);
        assert(!keys_of(init).contains(k)) by {
            if keys_of(init).contains(k) {
                let i = choose|i: int| 0 <= i < mvi.len() && mvi[i] == k;
                assert(mv[i] == us[i].0);
                assert(mvi[i] == init[i].0);
                assert(mv[i] == k);
            }
        }
        lemma_sum_for_absent(init, k);
    }
}

/// Aggregation law: streaming any update sequence into an empty table
/// leaves, for every key that occurs, exactly the sum of the deltas carried
/// for it, and no other key present. Together with the contract of `norm`,
/// the squared norm of such a table is the sum of the squared per-key sums.
pub proof fn lemma_aggregation(us: Seq<(u64, int)>)
    ensures
        apply_updates(Map::<u64, int>::empty(), us).dom() == keys_of(us),
        forall|k: u64| #[trigger]
            keys_of(us).contains(k) ==> apply_updates(Map::<u64, int>::empty(), us)[k] == sum_for(
                us,
                k,
            ),
    decreases us.len(),
{
    let f = |u: (u64, int)| u.0;
    let mv = us.map_values(f);
    if us.len() == 0 {
        assert(keys_of(us) =~= Set::<u64>::empty());
    } else {
        let init = us.drop_last();
        let mvi = init.map_values(f);
        let k0 = us.last().0;
        let v0 = us.last().1;
        lemma_aggregation(init);
        let m1 = apply_updates(Map::<u64, int>::empty(), init);
        let m2 = apply_updates(Map::<u64, int>::empty(), us);
        assert(m2 == upd(m1, k0, v0));
        // The key sets line up.
        assert(mv[us.len() - 1] == k0);
        assert(keys_of(us).contains(k0));
        assert forall|k: u64| #[trigger] keys_of(us).contains(k) implies (k == k0 || keys_of(
            init,
        ).contains(k)) by {
            let i = choose|i: int| 0 <= i < mv.len() && mv[i] == k;
            if i < us.len() - 1 {
                assert(mvi[i] == init[i].0);
                assert(mv[i] == us[i].0);
                assert(mvi[i] == k);
            }
        }
        assert forall|k: u64| #[trigger] keys_of(init).contains(k) implies keys_of(us).contains(
            k,
        ) by {
            let i = choose|i: int| 0 <= i < mvi.len() && mvi[i] == k;
            assert(mv[i] == us[i].0);
            assert(mv[i] == k);
        }
        assert(m2.dom() =~= keys_of(us));
        // The values line up.
        assert forall|k: u64| #[trigger] keys_of(us).contains(k) implies m2[k] == sum_for(
            us,
            k,
        ) by {
            if k == k0 {
                if m1.contains_key(k0) {
                    assert(m1[k0] == sum_for(init, k0));
                } else {
                    lemma_sum_for_absent(init, k0);
                }
            } else {
                assert(keys_of(init).contains(k));
            }
        }
    }
}

/// The keys one bucket stores.
pub open spec fn bucket_key_set(b: Seq<Entry>) -> Set<u64> {
    b.map_values(|e: Entry| e.key).to_set()
}

/// All keys the bucket array stores.
pub open spec fn stored_keys(bs: Seq<Vec<Entry>>) -> Set<u64>
    decreases bs.len(),
{
    if bs.len() == 0 {
        Set::empty()
    } else {
        stored_keys(bs.drop_last()).union(bucket_key_set(bs.last()@))
    }
}

proof fn lemma_stored_keys_finite(bs: Seq<Vec<Entry>>)
    ensures
        stored_keys(bs).finite(),
    decreases bs.len(),
{
    broadcast use vstd::seq_lib::seq_to_set_is_finite;

    if bs.len() > 0 {
        lemma_stored_keys_finite(bs.drop_last());
    }
}

proof fn lemma_stored_keys_contains(bs: Seq<Vec<Entry>>, i: int, t: int)
    requires
        0 <= i < bs.len(),
        0 <= t < bs[i]@.len(),
    ensures
        stored_keys(bs).contains(bs[i]@[t].key),
    decreases bs.len(),
{
    if i == bs.len() - 1 {
        let b = bs.last()@;
        let keys = b.map_values(|e: Entry| e.key);
        assert(keys[t] == b[t].key);
        assert(keys.contains(b[t].key));
    } else {
        lemma_stored_keys_contains(bs.drop_last(), i, t);
        assert(bs.drop_last()[i] == bs[i]);
    }
}

/// A table stores finitely many keys, so its aggregated map is finite.
pub proof fn lemma_dom_finite(tbl: ChainedTable)
    requires
        tbl.wf(),
    ensures
        tbl@.dom().finite(),
{
    lemma_stored_keys_finite(tbl.buckets@);
    assert forall|k: u64| tbl@.dom().contains(k) implies stored_keys(tbl.buckets@).contains(
        k,
    ) by {
        tbl.hash.lemma_index_range(k);
        let b = tbl.buckets@[tbl.spec_bucket_of(k)]@;
        let w = choose|i: int| 0 <= i < b.len() && (#[trigger] b[i]).key == k;
        lemma_stored_keys_contains(tbl.buckets@, tbl.spec_bucket_of(k), w);
    }
    vstd::set_lib::lemma_set_subset_finite(stored_keys(tbl.buckets@), tbl@.dom());
}

/// Whether some entry at position `from` or later holds key `k`.
spec fn bucket_has_from(b: Seq<Entry>, k: u64, from: int) -> bool {
    exists|t: int| from <= t < b.len() && (#[trigger] b[t]).key == k
}

/// The part of the aggregated map still unprocessed by the norm loop: keys
/// of later buckets, and keys of the current bucket at position `jj` on.
spec fn remaining(tbl: ChainedTable, bi: int, jj: int) -> Map<u64, int> {
    Map::new(
        |k: u64| tbl@.contains_key(k) && (tbl.spec_bucket_of(k) > bi || (tbl.spec_bucket_of(k)
            == bi && bucket_has_from(tbl.buckets@[bi]@, k, jj))),
        |k: u64| tbl@[k],
    )
}

/// After overwriting the entry of `key` in its bucket with the accumulated
/// sum, the table is the old one with only `key`'s value grown by `value`.
proof fn lemma_insert_overwrite(
    pre: ChainedTable,
    post: ChainedTable,
    key: u64,
    value: i64,
    idx: int,
    j: int,
)
    requires
        pre.wf(),
        0 <= idx < pre.buckets@.len(),
        idx == pre.spec_bucket_of(key),
        0 <= j < pre.buckets@[idx]@.len(),
        pre.buckets@[idx]@[j].key == key,
        i64::MIN <= pre.buckets@[idx]@[j].val + value <= i64::MAX,
        post.hash == pre.hash,
        post.buckets@ == pre.buckets@.update(
            idx,
            post.buckets@[idx],
        ),
        post.buckets@[idx]@ == pre.buckets@[idx]@.update(
            j,
            Entry { key, val: (pre.buckets@[idx]@[j].val + value) as i64 },
        ),
    ensures
        post.wf(),
        post@ == upd(pre@, key, value as int),
{
    let b = pre.buckets@[idx]@;
    let e = Entry { key, val: (b[j].val + value) as i64 };
    let b2 = post.buckets@[idx]@;
    assert(b2 == b.update(j, e));
    assert(b2.len() == b.len());
    assert(forall|t: int| 0 <= t < b.len() && t != j ==> b2[t] == b[t]);
    assert(forall|t: int| 0 <= t < b.len() ==> (#[trigger] b2[t]).key == b[t].key);
    // Shape is preserved.
    assert(bucket_distinct(b2));
    assert forall|i: int| 0 <= i < post.buckets@.len() implies bucket_distinct(
        #[trigger] post.buckets@[i]@,
    ) by {
        if i != idx {
            assert(post.buckets@[i] == pre.buckets@[i]);
        }
    }
    assert forall|i: int, t: int|
        0 <= i < post.buckets@.len() && 0 <= t < post.buckets@[i]@.len() implies post.hash.spec_index(
        (#[trigger] post.buckets@[i]@[t]).key,
    ) == i by {
        if i != idx {
            assert(post.buckets@[i] == pre.buckets@[i]);
        } else {
            assert(b2[t].key == b[t].key);
        }
    }
    assert(post.wf());
    // Only `key` changes in the abstract map.
    lemma_bucket_witness(b, key, j);
    lemma_bucket_witness(b2, key, j);
    assert(pre.spec_get(key) == Some(b[j].val));
    assert(post.spec_get(key) == Some(e.val));
    assert forall|k: u64| k != key implies post.spec_get(k) == pre.spec_get(k) by {
        pre.hash.lemma_index_range(k);
        let kidx = pre.spec_bucket_of(k);
        if kidx == idx {
            if bucket_has(b, k) {
                let w = choose|i: int| 0 <= i < b.len() && (#[trigger] b[i]).key == k;
                assert(w != j);
                assert(b2[w].key == k);
                lemma_bucket_witness(b, k, w);
                lemma_bucket_witness(b2, k, w);
            } else if bucket_has(b2, k) {
                let w = choose|i: int| 0 <= i < b2.len() && (#[trigger] b2[i]).key == k;
                assert(w != j);
                assert(b[w].key == k);
                assert(false);
            }
        } else {
            assert(post.buckets@[kidx] == pre.buckets@[kidx]);
        }
    }
    assert(post@ =~= upd(pre@, key, value as int));
}

/// After appending a fresh entry for an absent `key`, the table is the old
/// one with `key` entering at `value`; no other key changes.
proof fn lemma_insert_append(pre: ChainedTable, post: ChainedTable, key: u64, value: i64, idx: int)
    requires
        pre.wf(),
        0 <= idx < pre.buckets@.len(),
        idx == pre.spec_bucket_of(key),
        !bucket_has(pre.buckets@[idx]@, key),
        post.hash == pre.hash,
        post.buckets@ == pre.buckets@.update(idx, post.buckets@[idx]),
        post.buckets@[idx]@ == pre.buckets@[idx]@.push(Entry { key, val: value }),
    ensures
        post.wf(),
        post@ == upd(pre@, key, value as int),
{
    let b = pre.buckets@[idx]@;
    let e = Entry { key, val: value };
    let b2 = post.buckets@[idx]@;
    assert(b2 == b.push(e));
    assert(b2.len() == b.len() + 1);
    assert(forall|t: int| 0 <= t < b.len() ==> b2[t] == b[t]);
    assert(b2[b.len() as int] == e);
    // Shape is preserved: the new key was absent, so the bucket stays
    // duplicate-free, and it hashes to this bucket.
    assert forall|i: int, t: int| 0 <= i < t < b2.len() implies (#[trigger] b2[i]).key != (
    #[trigger] b2[t]).key by {
        if t == b.len() {
            assert(b[i].key != key);
        }
    }
    assert(bucket_distinct(b2));
    assert forall|i: int| 0 <= i < post.buckets@.len() implies bucket_distinct(
        #[trigger] post.buckets@[i]@,
    ) by {
        if i != idx {
            assert(post.buckets@[i] == pre.buckets@[i]);
        }
    }
    assert forall|i: int, t: int|
        0 <= i < post.buckets@.len() && 0 <= t < post.buckets@[i]@.len() implies post.hash.spec_index(
        (#[trigger] post.buckets@[i]@[t]).key,
    ) == i by {
        if i != idx {
            assert(post.buckets@[i] == pre.buckets@[i]);
        } else if t < b.len() {
            assert(b2[t] == b[t]);
        } else {
            assert(b2[t] == e);
        }
    }
    assert(post.wf());
    // `key` enters at `value`; nothing else changes.
    lemma_bucket_witness(b2, key, b.len() as int);
    assert(post.spec_get(key) == Some(value));
    assert(pre.spec_get(key) is None);
    assert forall|k: u64| k != key implies post.spec_get(k) == pre.spec_get(k) by {
        pre.hash.lemma_index_range(k);
        let kidx = pre.spec_bucket_of(k);
        if kidx == idx {
            if bucket_has(b, k) {
                let w = choose|i: int| 0 <= i < b.len() && (#[trigger] b[i]).key == k;
                assert(b2[w].key == k);
                lemma_bucket_witness(b, k, w);
                lemma_bucket_witness(b2, k, w);
            } else if bucket_has(b2, k) {
                let w = choose|i: int| 0 <= i < b2.len() && (#[trigger] b2[i]).key == k;
                assert(w != b.len());
                assert(b[w].key == k);
                assert(false);
            }
        } else {
            assert(post.buckets@[kidx] == pre.buckets@[kidx]);
        }
    }
    assert(post@ =~= upd(pre@, key, value as int));
}

} // verus!
