//! Count-sketch estimator of the squared norm (the second frequency moment)
//! of a stream of key-delta updates: a single row of signed counters driven
//! by one 4-wise independent hash, whose index part picks the counter and
//! whose sign part decides whether the delta is added or subtracted.
use vstd::prelude::*;

verus! {

use vstd::arithmetic::power2::{pow2, lemma2_to64, lemma2_to64_rest,
    lemma_pow2_strictly_increases};
use crate::capacity::{is_power_of_two, log2u};
use crate::hash::{FourWiseHash, MERSENNE_PRIME};

/// The sum of squares of a counter sequence.
pub open spec fn seq_norm(s: Seq<int>) -> int
    decreases s.len(),
{
    if s.len() == 0 {
        0
    } else {
        seq_norm(s.drop_last()) + s.last() * s.last()
    }
}

/// A sum of squares is never negative.
pub proof fn lemma_seq_norm_nonneg(s: Seq<int>)
    ensures
        seq_norm(s) >= 0,
    decreases s.len(),
{
    if s.len() > 0 {
        lemma_seq_norm_nonneg(s.drop_last());
        assert(s.last() * s.last() >= 0) by (nonlinear_arith);
    }
}

/// Growing the summed prefix never shrinks the sum.
proof fn lemma_seq_norm_take_le(s: Seq<int>, i: int)
    requires
        0 <= i <= s.len(),
    ensures
        seq_norm(s.take(i)) <= seq_norm(s),
    decreases s.len() - i,
{
    if i == s.len() {
        assert(s.take(i) =~= s);
    } else {
        assert(s.take(i + 1).drop_last() =~= s.take(i));
        assert(s.take(i + 1).last() == s[i]);
        assert(s[i] * s[i] >= 0) by (nonlinear_arith);
        lemma_seq_norm_take_le(s, i + 1);
    }
}

/// The counters after one update: the picked counter gains the signed delta.
pub open spec fn spec_updated(s: Seq<int>, h: FourWiseHash, k: u64, v: int) -> Seq<int> {
    s.update(h.spec_h(k), s[h.spec_h(k)] + h.spec_sign(k) * v)
}

/// Single-row norm sketch: `r` signed counters and one 4-wise independent
/// hash. The abstract state is the integer counter sequence.
pub struct NormSketch {
    pub counters: Vec<i64>,
    pub hash: FourWiseHash,
}

impl View for NormSketch {
    type V = Seq<int>;

    /// The counter row, as unbounded integers.
    open spec fn view(&self) -> Seq<int> {
        self.counters@.map_values(|c: i64| c as int)
    }
}

impl NormSketch {
    /// Internal shape: the counter row matches the hash's index range.
    pub open spec fn wf(self) -> bool {
        &&& self.hash.wf()
        &&& self.counters@.len() == pow2(self.hash.l as nat)
    }

    /// Creates a sketch of `r` zeroed counters (a power of two between 2 and
    /// 2^59) with a freshly drawn hash.
    pub fn new(r: usize) -> (s: NormSketch)
        requires
            is_power_of_two(r as int),
            2 <= r,
            r <= 0x800_0000_0000_0000,
        ensures
            s.wf(),
            s@.len() == r,
            forall|i: int| 0 <= i < r ==> s@[i] == 0,
    {
        let hash_len: u32 = log2u(r);
        proof {
            lemma2_to64();
            lemma2_to64_rest();
            if hash_len > 59 {
                lemma_pow2_strictly_increases(59, hash_len as nat);
            }
        }
        let hash = FourWiseHash::new(hash_len);
        let counters: Vec<i64> = vec![0; r];
        NormSketch { counters, hash }
    }

    /// Adds `value`, weighted by the key's sign, into the key's counter; no
    /// other counter changes.
    pub fn update(&mut self, key: u64, value: i64)
        requires
            old(self).wf(),
            key < MERSENNE_PRIME,
            i64::MIN <= old(self)@[old(self).hash.spec_h(key)] + value <= i64::MAX,
            i64::MIN <= old(self)@[old(self).hash.spec_h(key)] - value <= i64::MAX,
        ensures
            final(self).wf(),
            final(self)@ == spec_updated(old(self)@, old(self).hash, key, value as int),
            final(self).hash == old(self).hash,
    {
        proof {
            self.hash.lemma_h_range(key);
            vstd::std_specs::vec::axiom_spec_len(&self.counters);
        }
        let (h, g) = self.hash.hash(key);
        let idx: usize = h as usize;
        let cur: i64 = self.counters[idx];
        proof {
            assert(self@[idx as int] == cur as int);
        }
        let nv: i64 = if g >= 0 {
            cur + value
        } else {
            cur - value
        };
        proof {
            let sg = self.hash.spec_sign(key);
            if g >= 0 {
                assert(sg * value == value) by (nonlinear_arith)
                    requires
                        sg == 1,
                ;
            } else {
                assert(sg * value == -(value as int)) by (nonlinear_arith)
                    requires
                        sg == -1,
                ;
            }
            assert(nv == old(self)@[old(self).hash.spec_h(key)] + sg * value);
        }
        self.counters[idx] = nv;
        proof {
            assert(self@ =~= spec_updated(old(self)@, old(self).hash, key, value as int));
        }
    }

    /// The estimate of the squared norm of the aggregated update stream: the
    /// sum of the squared counters. Unbiased over the random draw of the
    /// hash; this function itself is a pure sum.
    pub fn estimate(&self) -> (r: i64)
        requires
            self.wf(),
            seq_norm(self@) <= i64::MAX,
        ensures
            r as int == seq_norm(self@),
            r >= 0,
    {
        let n: usize = self.counters.len();
        let mut sum: i64 = 0;
        let mut i: usize = 0;
        proof {
            lemma_seq_norm_nonneg(self@);
        }
        while i < n
            invariant
                self.wf(),
                n == self.counters@.len(),
                i <= n,
                seq_norm(self@) <= i64::MAX,
                sum as int == seq_norm(self@.take(i as int)),
                0 <= sum,
            decreases n - i,
        {
            let c: i64 = self.counters[i];
            proof {
                assert(self@.take(i as int + 1).drop_last() =~= self@.take(i as int));
                assert(self@.take(i as int + 1).last() == self@[i as int]);
                assert(self@[i as int] == c as int);
                lemma_seq_norm_take_le(self@, i as int + 1);
                lemma_seq_norm_nonneg(self@.take(i as int));
                assert(c as int * c as int >= 0) by (nonlinear_arith);
            }
            let sq: i64 = c * c;
            sum = sum + sq;
            i = i + 1;
        }
        proof {
            assert(self@.take(n as int) =~= self@);
        }
        sum
    }
}

/// Linearity law: updating a key with delta `a` and then with delta `b`
/// leaves exactly the counters of a single update with `a + b`.
pub proof fn lemma_update_linear(s: Seq<int>, h: FourWiseHash, k: u64, a: int, b: int)
    requires
        0 <= h.spec_h(k) < s.len(),
    ensures
        spec_updated(spec_updated(s, h, k, a), h, k, b) == spec_updated(s, h, k, a + b),
{
    let sg = h.spec_sign(k);
    assert(sg * a + sg * b == sg * (a + b)) by (nonlinear_arith);
    assert(spec_updated(spec_updated(s, h, k, a), h, k, b) =~= spec_updated(s, h, k, a + b));
}

/// Order independence: two updates leave the same counters in either order,
/// so the sketch of a stream depends only on its multiset of updates.
pub proof fn lemma_update_commutes(
    s: Seq<int>,
    h: FourWiseHash,
    k1: u64,
    v1: int,
    k2: u64,
    v2: int,
)
    requires
        0 <= h.spec_h(k1) < s.len(),
        0 <= h.spec_h(k2) < s.len(),
    ensures
        spec_updated(spec_updated(s, h, k1, v1), h, k2, v2) == spec_updated(
            spec_updated(s, h, k2, v2),
            h,
            k1,
            v1,
        ),
{
    assert(spec_updated(spec_updated(s, h, k1, v1), h, k2, v2) =~= spec_updated(
        spec_updated(s, h, k2, v2),
        h,
        k1,
        v1,
    ));
}

} // verus!
