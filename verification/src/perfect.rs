//! Two-level perfect hashing: a static set built from a batch of distinct
//! keys. An outer multiply-shift hash splits the keys into buckets; each
//! non-empty bucket gets a quadratically sized inner table in which a fresh
//! hash places its keys without collision. Construction redraws hashes until
//! the collision budget holds, with a hard retry cap; lookups afterwards
//! probe exactly one inner slot.
use vstd::prelude::*;

verus! {

use vstd::arithmetic::power2::{pow2, lemma2_to64};
use crate::capacity::{is_power_of_two, log2u, next_pow2};
use crate::hash::MultiplyShiftHash;

/// How many times a stage redraws its hash before construction reports
/// failure; exceeding it signals a broken randomness source.
pub const RETRY_CAP: u32 = 64;

/// Whether a hash sends the listed keys to pairwise distinct indices.
pub open spec fn spec_injective(keys: Seq<u64>, hash: MultiplyShiftHash) -> bool {
    forall|a: int, b: int|
        0 <= a < b < keys.len() ==> hash.spec_index(keys[a]) != hash.spec_index(keys[b])
}

/// Inner table of one outer bucket: every stored key sits in the single
/// slot its own hash points at.
pub struct SubTable {
    pub slots: Vec<Option<u64>>,
    pub hash: MultiplyShiftHash,
}

impl SubTable {
    /// Internal shape: the slot array matches the hash's index range and
    /// each occupied slot holds a key that hashes to it.
    pub open spec fn wf(self) -> bool {
        &&& self.hash.wf()
        &&& self.slots@.len() == pow2(self.hash.l as nat)
        &&& forall|j: int|
            0 <= j < self.slots@.len() && self.slots@[j] is Some ==> self.hash.spec_index(
                (#[trigger] self.slots@[j])->Some_0,
            ) == j
    }

    /// Whether the inner table stores key `k`: one slot decides.
    pub open spec fn spec_contains(self, k: u64) -> bool {
        self.slots@[self.hash.spec_index(k)] == Some(k)
    }
}

/// Tries to place every key of one bucket under the given inner hash. It
/// succeeds, returning a table holding exactly the bucket's keys, if and
/// only if the hash is collision-free on the bucket.
fn build_subtable_attempt(bucket: &Vec<u64>, hash: MultiplyShiftHash, size: usize) -> (r: Option<
    SubTable,
>)
    requires
        hash.wf(),
        size == pow2(hash.l as nat),
        bucket@.no_duplicates(),
    ensures
        r is Some <==> spec_injective(bucket@, hash),
        r is Some ==> {
            let st = r->Some_0;
            &&& st.wf()
            &&& st.hash == hash
            &&& forall|k: u64| st.spec_contains(k) <==> bucket@.contains(k)
        },
{
    let mut slots: Vec<Option<u64>> = vec![None; size];
    let n: usize = bucket.len();
    let mut t: usize = 0;
    while t < n
        invariant
            hash.wf(),
            size == pow2(hash.l as nat),
            bucket@.no_duplicates(),
            n == bucket@.len(),
            t <= n,
            slots@.len() == size,
            forall|j: int|
                0 <= j < size && slots@[j] is Some ==> hash.spec_index(
                    (#[trigger] slots@[j])->Some_0,
                ) == j,
            forall|j: int|
                0 <= j < size && slots@[j] is Some ==> bucket@.take(t as int).contains(
                    (#[trigger] slots@[j])->Some_0,
                ),
            forall|a: int|
                0 <= a < t ==> slots@[hash.spec_index(#[trigger] bucket@[a])] == Some(bucket@[a]),
        decreases n - t,
    {
        let k: u64 = bucket[t];
        proof {
            hash.lemma_index_range(k);
        }
        let j: usize = hash.hash(k) as usize;
        let ghost slots0 = slots@;
        if slots[j].is_some() {
            proof {
                let occ = slots@[j as int]->Some_0;
                let pre = bucket@.take(t as int);
                assert(pre.contains(occ));
                let a = choose|a: int| 0 <= a < pre.len() && pre[a] == occ;
                assert(bucket@[a] == occ);
                assert(hash.spec_index(occ) == j as int);
                assert(hash.spec_index(bucket@[t as int]) == j as int);
                assert(!spec_injective(bucket@, hash));
            }
            return None;
        }
        slots[j] = Some(k);
        proof {
            let pre1 = bucket@.take(t as int + 1);
            assert(pre1.drop_last() =~= bucket@.take(t as int));
            assert(pre1.last() == k);
            assert forall|jj: int| 0 <= jj < size && slots@[jj] is Some implies pre1.contains(
                (#[trigger] slots@[jj])->Some_0,
            ) by {
                if jj != j as int {
                    let key2 = slots@[jj]->Some_0;
                    assert(bucket@.take(t as int).contains(key2));
                    let a = choose|a: int|
                        0 <= a < bucket@.take(t as int).len() && bucket@.take(t as int)[a] == key2;
                    assert(pre1[a] == key2);
                } else {
                    assert(pre1[t as int] == k);
                }
            }
            assert forall|a: int| 0 <= a < t as int + 1 implies slots@[hash.spec_index(
                #[trigger] bucket@[a],
            )] == Some(bucket@[a]) by {
                hash.lemma_index_range(bucket@[a]);
                if a < t as int {
                    if hash.spec_index(bucket@[a]) == j as int {
                        assert(slots0[j as int] == Some(bucket@[a]));
                        assert(false);
                    }
                }
            }
        }
        t = t + 1;
    }
    let st = SubTable { slots, hash };
    proof {
        // Placement succeeded for every key, so the hash is injective on the
        // bucket and membership is exactly the bucket's key set.
        assert(bucket@.take(n as int) =~= bucket@);
        assert forall|a: int, b: int| 0 <= a < b < bucket@.len() implies hash.spec_index(
            bucket@[a],
        ) != hash.spec_index(bucket@[b]) by {
            if hash.spec_index(bucket@[a]) == hash.spec_index(bucket@[b]) {
                assert(st.slots@[hash.spec_index(bucket@[a])] == Some(bucket@[a]));
                assert(st.slots@[hash.spec_index(bucket@[b])] == Some(bucket@[b]));
                assert(bucket@[a] == bucket@[b]);
                assert(false);
            }
        }
        assert forall|k: u64| st.spec_contains(k) <==> bucket@.contains(k) by {
            hash.lemma_index_range(k);
            if st.spec_contains(k) {
                assert(bucket@.contains(k));
            }
            if bucket@.contains(k) {
                let a = choose|a: int| 0 <= a < bucket@.len() && bucket@[a] == k;
                assert(st.slots@[hash.spec_index(bucket@[a])] == Some(bucket@[a]));
            }
        }
    }
    Some(st)
}

/// Builds the inner table for one non-empty bucket: a table of size
/// `2 * c * n^2` (c = 2) rounded up to a power of two, under a fresh hash,
/// redrawn on any slot collision up to the retry cap. Success yields a
/// well-formed table holding exactly the bucket's keys; failure means every
/// drawn hash collided.
fn build_subtable(bucket: &Vec<u64>) -> (r: Option<SubTable>)
    requires
        bucket@.no_duplicates(),
        1 <= bucket@.len(),
        4 * bucket@.len() * bucket@.len() <= usize::MAX / 2,
    ensures
        r is Some ==> {
            let st = r->Some_0;
            &&& st.wf()
            &&& forall|k: u64| st.spec_contains(k) <==> bucket@.contains(k)
        },
        bucket@.len() == 1 ==> r is Some,
{
    let n: usize = bucket.len();
    proof {
        assert(4 * n <= 4 * n * n) by (nonlinear_arith)
            requires
                n >= 1,
        ;
    }
    let size: usize = next_pow2(4 * n * n);
    let hash_len: u32 = log2u(size);
    proof {
        lemma2_to64();
    }
    let mut attempt: u32 = 0;
    while attempt < RETRY_CAP
        invariant
            bucket@.no_duplicates(),
            1 <= hash_len < 64,
            pow2(hash_len as nat) == size,
            bucket@.len() == 1 ==> attempt == 0,
        decreases RETRY_CAP - attempt,
    {
        let hash = MultiplyShiftHash::new(hash_len);
        let r = build_subtable_attempt(bucket, hash, size);
        if r.is_some() {
            return r;
        }
        proof {
            // A lone key collides with nothing, so its first attempt cannot
            // have failed.
            if bucket@.len() == 1 {
                assert(spec_injective(bucket@, hash));
                assert(false);
            }
        }
        attempt = attempt + 1;
    }
    None
}

/// The subsequence of keys the hash sends to bucket `i`, in order.
pub open spec fn bucket_of(keys: Seq<u64>, hash: MultiplyShiftHash, i: int) -> Seq<u64>
    decreases keys.len(),
{
    if keys.len() == 0 {
        Seq::empty()
    } else {
        let rest = bucket_of(keys.drop_last(), hash, i);
        if hash.spec_index(keys.last()) == i {
            rest.push(keys.last())
        } else {
            rest
        }
    }
}

/// A key stands in bucket `i` exactly when the stream holds it and it
/// hashes there.
pub proof fn lemma_bucket_of_membership(keys: Seq<u64>, hash: MultiplyShiftHash, i: int, k: u64)
    ensures
        bucket_of(keys, hash, i).contains(k) <==> (keys.contains(k) && hash.spec_index(k) == i),
    decreases keys.len(),
{
    broadcast use vstd::seq_lib::group_seq_properties;

    if keys.len() > 0 {
        let init = keys.drop_last();
        lemma_bucket_of_membership(init, hash, i, k);
        assert(keys.contains(k) <==> (init.contains(k) || keys.last() == k)) by {
            if keys.contains(k) {
                let a = choose|a: int| 0 <= a < keys.len() && keys[a] == k;
                if a < keys.len() - 1 {
                    assert(init[a] == k);
                }
            }
            if init.contains(k) {
                let a = choose|a: int| 0 <= a < init.len() && init[a] == k;
                assert(keys[a] == k);
            }
            if keys.last() == k {
                assert(keys[keys.len() - 1] == k);
            }
        }
        let rest = bucket_of(init, hash, i);
        if hash.spec_index(keys.last()) == i {
            assert(rest.push(keys.last()).contains(k) <==> (rest.contains(k) || keys.last()
                == k)) by {
                let b2 = rest.push(keys.last());
                if b2.contains(k) {
                    let a = choose|a: int| 0 <= a < b2.len() && b2[a] == k;
                    if a < rest.len() {
                        assert(rest[a] == k);
                    }
                }
                if rest.contains(k) {
                    let a = choose|a: int| 0 <= a < rest.len() && rest[a] == k;
                    assert(b2[a] == k);
                }
                if keys.last() == k {
                    assert(b2[rest.len() as int] == k);
                }
            }
        }
    }
}

/// A bucket never holds more keys than the stream.
proof fn lemma_bucket_of_len_le(keys: Seq<u64>, hash: MultiplyShiftHash, i: int)
    ensures
        bucket_of(keys, hash, i).len() <= keys.len(),
    decreases keys.len(),
{
    if keys.len() > 0 {
        lemma_bucket_of_len_le(keys.drop_last(), hash, i);
    }
}

/// A bucket drawn from a duplicate-free stream is duplicate-free.
proof fn lemma_bucket_of_no_dup(keys: Seq<u64>, hash: MultiplyShiftHash, i: int)
    requires
        keys.no_duplicates(),
    ensures
        bucket_of(keys, hash, i).no_duplicates(),
    decreases keys.len(),
{
    broadcast use vstd::seq_lib::group_seq_properties;

    if keys.len() > 0 {
        let init = keys.drop_last();
        assert(init.no_duplicates()) by {
            assert(forall|a: int| 0 <= a < init.len() ==> init[a] == keys[a]);
        }
        lemma_bucket_of_no_dup(init, hash, i);
        let rest = bucket_of(init, hash, i);
        if hash.spec_index(keys.last()) == i {
            let b2 = rest.push(keys.last());
            assert(!rest.contains(keys.last())) by {
                if rest.contains(keys.last()) {
                    lemma_bucket_of_membership(init, hash, i, keys.last());
                    let a = choose|a: int| 0 <= a < init.len() && init[a] == keys.last();
                    assert(keys[a] == keys[keys.len() - 1]);
                }
            }
            assert forall|a: int, b: int| 0 <= a < b < b2.len() implies b2[a] != b2[b] by {
                if b == b2.len() - 1 {
                    assert(rest[a] == b2[a]);
                    assert(rest.contains(rest[a]));
                }
            }
        }
    }
}

/// The collision budget: the sum of the squared bucket occupancies.
pub open spec fn sum_sq(bs: Seq<Vec<u64>>) -> int
    decreases bs.len(),
{
    if bs.len() == 0 {
        0
    } else {
        sum_sq(bs.drop_last()) + bs.last()@.len() * bs.last()@.len()
    }
}

proof fn lemma_sum_sq_nonneg(bs: Seq<Vec<u64>>)
    ensures
        sum_sq(bs) >= 0,
    decreases bs.len(),
{
    if bs.len() > 0 {
        lemma_sum_sq_nonneg(bs.drop_last());
        let c = bs.last()@.len();
        assert(c * c >= 0) by (nonlinear_arith);
    }
}

proof fn lemma_sum_sq_take_le(bs: Seq<Vec<u64>>, i: int)
    requires
        0 <= i <= bs.len(),
    ensures
        sum_sq(bs.take(i)) <= sum_sq(bs),
    decreases bs.len() - i,
{
    if i == bs.len() {
        assert(bs.take(i) =~= bs);
    } else {
        assert(bs.take(i + 1).drop_last() =~= bs.take(i));
        assert(bs.take(i + 1).last() == bs[i]);
        let c = bs[i]@.len();
        assert(c * c >= 0) by (nonlinear_arith);
        lemma_sum_sq_take_le(bs, i + 1);
    }
}

/// Each single squared occupancy is within the budget sum.
proof fn lemma_sum_sq_term_le(bs: Seq<Vec<u64>>, i: int)
    requires
        0 <= i < bs.len(),
    ensures
        bs[i]@.len() * bs[i]@.len() <= sum_sq(bs),
    decreases bs.len(),
{
    if i == bs.len() - 1 {
        lemma_sum_sq_nonneg(bs.drop_last());
    } else {
        lemma_sum_sq_term_le(bs.drop_last(), i);
        assert(bs.drop_last()[i] == bs[i]);
        let c = bs.last()@.len();
        assert(c * c >= 0) by (nonlinear_arith);
    }
}

proof fn lemma_sum_sq_zero(bs: Seq<Vec<u64>>)
    requires
        forall|i: int| 0 <= i < bs.len() ==> (#[trigger] bs[i])@.len() == 0,
    ensures
        sum_sq(bs) == 0,
    decreases bs.len(),
{
    if bs.len() > 0 {
        assert(forall|i: int| 0 <= i < bs.len() - 1 ==> bs.drop_last()[i] == bs[i]);
        lemma_sum_sq_zero(bs.drop_last());
        assert(bs.last()@.len() == 0);
    }
}

proof fn lemma_sum_sq_one_nonempty(bs: Seq<Vec<u64>>, j: int)
    requires
        0 <= j < bs.len(),
        bs[j]@.len() == 1,
        forall|i: int| 0 <= i < bs.len() && i != j ==> (#[trigger] bs[i])@.len() == 0,
    ensures
        sum_sq(bs) == 1,
    decreases bs.len(),
{
    assert(forall|i: int| 0 <= i < bs.len() - 1 ==> bs.drop_last()[i] == bs[i]);
    let c = bs.last()@.len() as int;
    if j == bs.len() - 1 {
        lemma_sum_sq_zero(bs.drop_last());
        assert(c * c == 1) by (nonlinear_arith)
            requires
                c == 1,
        ;
    } else {
        lemma_sum_sq_one_nonempty(bs.drop_last(), j);
        assert(c * c == 0) by (nonlinear_arith)
            requires
                c == 0,
        ;
    }
}

/// With at most one key there is at most one occupied bucket, of occupancy
/// one, so the collision budget sum is at most one.
proof fn lemma_small_budget(
    keys: Seq<u64>,
    hash: MultiplyShiftHash,
    bs: Seq<Vec<u64>>,
    m: usize,
)
    requires
        hash.wf(),
        m == pow2(hash.l as nat),
        keys.len() <= 1,
        bs.len() == m,
        forall|i: int| 0 <= i < m ==> (#[trigger] bs[i])@ == bucket_of(keys, hash, i),
    ensures
        sum_sq(bs) <= 1,
{
    if keys.len() == 0 {
        assert forall|i: int| 0 <= i < bs.len() implies (#[trigger] bs[i])@.len() == 0 by {
            assert(bucket_of(keys, hash, i) =~= Seq::<u64>::empty());
        }
        lemma_sum_sq_zero(bs);
    } else {
        let k0 = keys[0];
        let j = hash.spec_index(k0);
        hash.lemma_index_range(k0);
        assert forall|i: int| 0 <= i < bs.len() implies (#[trigger] bs[i])@.len() == (
        if i == j {
            1int
        } else {
            0
        }) by {
            assert(keys.drop_last().len() == 0);
            assert(bucket_of(keys.drop_last(), hash, i) =~= Seq::<u64>::empty());
            assert(keys.last() == k0);
        }
        lemma_sum_sq_one_nonempty(bs, j);
    }
}

/// Splits the keys into the buckets the outer hash assigns, keeping order.
fn distribute(keys: &Vec<u64>, hash: MultiplyShiftHash, m: usize) -> (buckets: Vec<Vec<u64>>)
    requires
        hash.wf(),
        m == pow2(hash.l as nat),
    ensures
        buckets@.len() == m,
        forall|i: int| 0 <= i < m ==> (#[trigger] buckets@[i])@ == bucket_of(keys@, hash, i),
{
    let mut buckets: Vec<Vec<u64>> = Vec::new();
    let mut i: usize = 0;
    while i < m
        invariant
            buckets@.len() == i,
            i <= m,
            forall|t: int| 0 <= t < i ==> (#[trigger] buckets@[t])@.len() == 0,
        decreases m - i,
    {
        buckets.push(Vec::new());
        i = i + 1;
    }
    proof {
        assert forall|t: int| 0 <= t < m implies (#[trigger] buckets@[t])@ == bucket_of(
            keys@.take(0),
            hash,
            t,
        ) by {
            assert(keys@.take(0) =~= Seq::<u64>::empty());
            assert(buckets@[t]@ =~= Seq::<u64>::empty());
        }
    }
    let klen: usize = keys.len();
    let mut n: usize = 0;
    while n < klen
        invariant
            hash.wf(),
            m == pow2(hash.l as nat),
            buckets@.len() == m,
            n <= klen,
            klen == keys@.len(),
            forall|t: int|
                0 <= t < m ==> (#[trigger] buckets@[t])@ == bucket_of(
                    keys@.take(n as int),
                    hash,
                    t,
                ),
        decreases klen - n,
    {
        let k: u64 = keys[n];
        proof {
            hash.lemma_index_range(k);
            vstd::std_specs::vec::axiom_spec_len(&buckets);
        }
        let idx: usize = hash.hash(k) as usize;
        buckets[idx].push(k);
        proof {
            let pre1 = keys@.take(n as int + 1);
            assert(pre1.drop_last() =~= keys@.take(n as int));
            assert(pre1.last() == k);
            assert forall|t: int| 0 <= t < m implies (#[trigger] buckets@[t])@ == bucket_of(
                pre1,
                hash,
                t,
            ) by {
            }
        }
        n = n + 1;
    }
    proof {
        assert(keys@.take(klen as int) =~= keys@);
    }
    buckets
}

/// Decides whether the squared occupancies stay within the budget `m`.
fn check_budget(buckets: &Vec<Vec<u64>>, m: usize) -> (ok: bool)
    ensures
        ok <==> sum_sq(buckets@) <= m,
{
    let blen: usize = buckets.len();
    let mut total: u128 = 0;
    let mut i: usize = 0;
    while i < blen
        invariant
            i <= blen,
            blen == buckets@.len(),
            total == sum_sq(buckets@.take(i as int)),
            total <= m as u128,
        decreases blen - i,
    {
        let len: usize = buckets[i].len();
        proof {
            assert((len as int) * (len as int) <= 0xffff_ffff_ffff_ffff * 0xffff_ffff_ffff_ffff)
                by (nonlinear_arith)
                requires
                    0 <= len <= 0xffff_ffff_ffff_ffff,
            ;
            assert(buckets@.take(i as int + 1).drop_last() =~= buckets@.take(i as int));
            assert(buckets@.take(i as int + 1).last() == buckets@[i as int]);
        }
        let term: u128 = (len as u128) * (len as u128);
        total = total + term;
        if total > m as u128 {
            proof {
                lemma_sum_sq_take_le(buckets@, i as int + 1);
            }
            return false;
        }
        i = i + 1;
    }
    proof {
        assert(buckets@.take(blen as int) =~= buckets@);
    }
    true
}

/// Static set of 64-bit keys with one-probe lookups: an outer hash picks a
/// bucket, whose inner table answers from a single slot. The abstract state
/// is the set of keys the construction was given.
pub struct PerfectSet {
    pub outer: Vec<Option<SubTable>>,
    pub hash: MultiplyShiftHash,
}

impl View for PerfectSet {
    type V = Set<u64>;

    /// The set of stored keys.
    open spec fn view(&self) -> Set<u64> {
        Set::new(|k: u64| self.spec_contains(k))
    }
}

impl PerfectSet {
    /// Whether the two-level structure stores key `k`.
    pub open spec fn spec_contains(self, k: u64) -> bool {
        let slot = self.outer@[self.hash.spec_index(k)];
        &&& slot is Some
        &&& slot->Some_0.spec_contains(k)
    }

    /// Internal shape: the outer array matches the outer hash's range, every
    /// inner table is well-formed, and every stored key lies in the outer
    /// bucket it hashes to.
    pub open spec fn wf(self) -> bool {
        &&& self.hash.wf()
        &&& self.outer@.len() == pow2(self.hash.l as nat)
        &&& forall|i: int|
            0 <= i < self.outer@.len() && self.outer@[i] is Some ==> (#[trigger] self.outer@[i])->Some_0.wf()
        &&& forall|i: int, k: u64|
            #![trigger self.outer@[i]->Some_0.spec_contains(k)]
            0 <= i < self.outer@.len() && self.outer@[i] is Some
                && self.outer@[i]->Some_0.spec_contains(k) ==> self.hash.spec_index(k) == i
    }

    /// Builds the static set from a batch of distinct keys. The outer hash
    /// is redrawn until the collision budget `sum of squared occupancies <=
    /// table size` holds; each bucket's inner hash is redrawn until it is
    /// collision-free; both stages give up after the retry cap, reporting
    /// failure. A returned set stores exactly the given keys, and with at
    /// most one key no draw can fail, so construction succeeds.
    pub fn new(keys: &Vec<u64>) -> (r: Option<PerfectSet>)
        requires
            keys@.no_duplicates(),
            keys@.len() <= usize::MAX / 128,
        ensures
            r is Some ==> {
                let ps = r->Some_0;
                &&& ps.wf()
                &&& ps@ == keys@.to_set()
            },
            keys@.len() <= 1 ==> r is Some,
    {
        let n: usize = keys.len();
        let base: usize = if n == 0 {
            2
        } else {
            8 * n
        };
        let m: usize = next_pow2(base);
        proof {
            lemma2_to64();
        }
        let hash_len: u32 = log2u(m);
        let mut attempt: u32 = 0;
        while attempt < RETRY_CAP
            invariant
                keys@.no_duplicates(),
                keys@.len() <= usize::MAX / 128,
                n == keys@.len(),
                1 <= hash_len < 64,
                pow2(hash_len as nat) == m,
                2 <= m,
                n >= 1 ==> m < 16 * n,
                n <= 1 ==> attempt == 0,
            decreases RETRY_CAP - attempt,
        {
            let hash = MultiplyShiftHash::new(hash_len);
            let buckets = distribute(keys, hash, m);
            if check_budget(&buckets, m) {
                let ps_opt = assemble(keys, hash, &buckets, m);
                if ps_opt.is_some() {
                    return ps_opt;
                } else {
                    proof {
                        // assemble promises success for at most one key.
                        if n <= 1 {
                            assert(false);
                        }
                    }
                    return None;
                }
            }
            proof {
                // With at most one key the budget sum is at most one, below
                // the table size, so this draw cannot have been rejected.
                if n <= 1 {
                    lemma_small_budget(keys@, hash, buckets@, m);
                    assert(false);
                }
            }
            attempt = attempt + 1;
        }
        None
    }

    /// One-probe membership test: the key is stored exactly when its inner
    /// slot holds it. A pure function of the structure and the key.
    pub fn contains(&self, key: u64) -> (r: bool)
        requires
            self.wf(),
        ensures
            r == self@.contains(key),
    {
        proof {
            self.hash.lemma_index_range(key);
            vstd::std_specs::vec::axiom_spec_len(&self.outer);
        }
        let i: usize = self.hash.hash(key) as usize;
        match &self.outer[i] {
            None => false,
            Some(st) => {
                proof {
                    st.hash.lemma_index_range(key);
                    vstd::std_specs::vec::axiom_spec_len(&st.slots);
                }
                let j: usize = st.hash.hash(key) as usize;
                let slot: Option<u64> = st.slots[j];
                match slot {
                    None => false,
                    Some(x) => x == key,
                }
            },
        }
    }
}

/// Builds the outer array over an already distributed, budget-respecting
/// bucket family: one inner table per non-empty bucket. Fails only when
/// some inner table exhausts its retries.
fn assemble(keys: &Vec<u64>, hash: MultiplyShiftHash, buckets: &Vec<Vec<u64>>, m: usize) -> (r:
    Option<PerfectSet>)
    requires
        keys@.no_duplicates(),
        keys@.len() <= usize::MAX / 128,
        hash.wf(),
        m == pow2(hash.l as nat),
        buckets@.len() == m,
        forall|i: int| 0 <= i < m ==> (#[trigger] buckets@[i])@ == bucket_of(keys@, hash, i),
        sum_sq(buckets@) <= m,
        keys@.len() >= 1 ==> m < 16 * keys@.len(),
    ensures
        r is Some ==> {
            let ps = r->Some_0;
            &&& ps.wf()
            &&& ps@ == keys@.to_set()
        },
        keys@.len() <= 1 ==> r is Some,
{
    let mut outer: Vec<Option<SubTable>> = Vec::new();
    let mut bi: usize = 0;
    while bi < m
        invariant
            keys@.no_duplicates(),
            keys@.len() <= usize::MAX / 128,
            hash.wf(),
            m == pow2(hash.l as nat),
            buckets@.len() == m,
            forall|i: int| 0 <= i < m ==> (#[trigger] buckets@[i])@ == bucket_of(keys@, hash, i),
            sum_sq(buckets@) <= m,
            keys@.len() >= 1 ==> m < 16 * keys@.len(),
            bi <= m,
            outer@.len() == bi,
            forall|t: int|
                0 <= t < bi ==> ((#[trigger] outer@[t]) is Some <==> bucket_of(
                    keys@,
                    hash,
                    t,
                ).len() != 0),
            forall|t: int|
                0 <= t < bi && outer@[t] is Some ==> (#[trigger] outer@[t])->Some_0.wf(),
            forall|t: int, k: u64|
                #![trigger outer@[t]->Some_0.spec_contains(k)]
                0 <= t < bi && outer@[t] is Some ==> (outer@[t]->Some_0.spec_contains(k)
                    <==> bucket_of(keys@, hash, t).contains(k)),
        decreases m - bi,
    {
        let blen: usize = buckets[bi].len();
        if blen == 0 {
            outer.push(None);
        } else {
            proof {
                lemma_sum_sq_term_le(buckets@, bi as int);
                lemma_bucket_of_len_le(keys@, hash, bi as int);
                lemma_bucket_of_no_dup(keys@, hash, bi as int);
                assert(blen <= blen * blen) by (nonlinear_arith)
                    requires
                        blen >= 1,
                ;
                let b2 = (blen as int) * (blen as int);
                assert(b2 <= sum_sq(buckets@));
                assert(4 * blen * blen == 4 * b2) by (nonlinear_arith)
                    requires
                        b2 == (blen as int) * (blen as int),
                ;
                assert(keys@.len() >= 1);
                assert(4 * b2 <= 4 * (16 * keys@.len()));
            }
            let st_opt = build_subtable(&buckets[bi]);
            match st_opt {
                Some(st) => {
                    outer.push(Some(st));
                },
                None => {
                    proof {
                        // With at most one key, the one occupied bucket has
                        // occupancy one, and such a bucket cannot fail.
                        if keys@.len() <= 1 {
                            assert(blen == 1);
                            assert(false);
                        }
                    }
                    return None;
                },
            }
        }
        bi = bi + 1;
    }
    let ps = PerfectSet { outer, hash };
    proof {
        assert forall|i: int, k: u64|
            #![trigger ps.outer@[i]->Some_0.spec_contains(k)]
            0 <= i < ps.outer@.len() && ps.outer@[i] is Some
                && ps.outer@[i]->Some_0.spec_contains(k) implies ps.hash.spec_index(k) == i by {
            lemma_bucket_of_membership(keys@, hash, i, k);
        }
        assert(ps.wf());
        assert forall|k: u64| ps.spec_contains(k) <==> keys@.contains(k) by {
            hash.lemma_index_range(k);
            let i = hash.spec_index(k);
            lemma_bucket_of_membership(keys@, hash, i, k);
            if ps.outer@[i] is Some {
            } else {
                if keys@.contains(k) {
                    assert(bucket_of(keys@, hash, i).contains(k));
                    assert(bucket_of(keys@, hash, i).len() != 0);
                }
            }
        }
        assert(ps@ =~= keys@.to_set());
    }
    Some(ps)
}

} // verus!
