//! The two randomized hash kernels: a 2-universal multiply-shift hash and a
//! 4-wise independent polynomial hash over a Mersenne-prime field.
use vstd::prelude::*;

verus! {

use vstd::arithmetic::power2::{pow2, lemma2_to64, lemma2_to64_rest, lemma_pow2_adds,
    lemma_pow2_pos};
use vstd::arithmetic::div_mod::{lemma_add_mod_noop, lemma_small_mod, lemma_multiply_divide_lt,
    lemma_fundamental_div_mod_converse_mod, lemma_mod_bound};
use vstd::bits::lemma_u64_shr_is_div;

/// Multiply-shift hash from 64-bit keys to `l`-bit indices. The index of a
/// key `x` is the top `l` bits of the 64-bit wrapped product `a * x + b`;
/// with `a` odd and `(a, b)` drawn uniformly at random the family is
/// 2-universal.
#[derive(Clone, Copy)]
pub struct MultiplyShiftHash {
    pub l: u32,
    pub a: u64,
    pub b: u64,
}

impl MultiplyShiftHash {
    /// Parameter discipline: an index width within the key width, and an odd
    /// multiplier, which 2-universality requires.
    pub open spec fn wf(self) -> bool {
        1 <= self.l <= 64 && self.a % 2 == 1
    }

    /// The index of key `x`: `((a * x + b) mod 2^64) >> (64 - l)`, written
    /// as a quotient of the wrapped product.
    pub open spec fn spec_index(self, x: u64) -> int {
        ((self.a * x + self.b) % pow2(64) as int) / pow2((64 - self.l) as nat) as int
    }

    /// Draws fresh random parameters for an `l`-bit index hash: an odd
    /// multiplier (a uniform draw with the low bit forced to one) and an
    /// arbitrary additive term.
    pub fn new(hash_len: u32) -> (r: MultiplyShiftHash)
        requires
            1 <= hash_len <= 64,
        ensures
            r.wf(),
            r.l == hash_len,
    {
        let raw_a: u64 = crate::rng::random_generator(1, u64::MAX) | 1;
        let rand_b: u64 = crate::rng::random_generator(0, u64::MAX);
        proof {
            let raw = raw_a;
            assert(raw % 2 == 1) by (bit_vector)
                requires
                    exists|y: u64| raw == y | 1,
            ;
        }
        MultiplyShiftHash { a: raw_a, b: rand_b, l: hash_len }
    }

    /// Hashes a key to an index strictly below `2^l`. The result is a pure
    /// function of the parameters and the key.
    pub fn hash(&self, x: u64) -> (r: u64)
        requires
            self.wf(),
        ensures
            r == self.spec_index(x),
            r < pow2(self.l as nat),
    {
        let multiply_add: u64 = self.a.wrapping_mul(x).wrapping_add(self.b);
        let shift: u32 = 64 - self.l;
        let r = multiply_add >> (shift as u64);
        proof {
            self.lemma_hash_value(x, multiply_add, r);
        }
        r
    }

    /// The wrapped product shifted right by `64 - l` is exactly the
    /// quotient that `spec_index` states, and it is below `2^l`.
    proof fn lemma_hash_value(self, x: u64, multiply_add: u64, r: u64)
        requires
            self.wf(),
            multiply_add == vstd::wrapping::u64_specs::wrapping_add(
                vstd::wrapping::u64_specs::wrapping_mul(self.a, x),
                self.b,
            ),
            r == multiply_add >> ((64 - self.l) as u64),
        ensures
            r == self.spec_index(x),
            r < pow2(self.l as nat),
    {
        let a = self.a;
        let b = self.b;
        let l = self.l;
        let modulus: int = pow2(64) as int;
        lemma2_to64();
        lemma2_to64_rest();
        assert(modulus == 0x1_0000_0000_0000_0000);
        let t1: int = (a * x) % modulus;
        assert(vstd::wrapping::u64_specs::wrapping_mul(a, x) == t1 as u64) by {
            lemma_mod_bound(a * x, modulus);
        }
        lemma_mod_bound(a * x, modulus);
        // The wrapped sum equals (a * x + b) mod 2^64.
        assert(multiply_add == (t1 + b) % modulus) by {
            if t1 + b > u64::MAX {
                lemma_fundamental_div_mod_converse_mod(t1 + b, modulus, 1, t1 + b - modulus);
            } else {
                lemma_small_mod((t1 + b) as nat, modulus as nat);
            }
        }
        assert((t1 + b) % modulus == (a * x + b) % modulus) by {
            lemma_small_mod(b as nat, modulus as nat);
            lemma_add_mod_noop(a * x, b as int, modulus);
        }
        // The shift is the quotient by 2^(64 - l).
        let shift: nat = (64 - l) as nat;
        lemma_u64_shr_is_div(multiply_add, (64 - l) as u64);
        assert(r == multiply_add as nat / pow2(shift));
        lemma_pow2_pos(shift);
        assert(r == self.spec_index(x));
        // Range: the wrapped sum is below 2^(64 - l) * 2^l.
        lemma_pow2_adds(shift, l as nat);
        assert(multiply_add < pow2(shift) * pow2(l as nat)) by {
            lemma_mod_bound(a * x + b, modulus);
        }
        lemma_multiply_divide_lt(multiply_add as int, pow2(shift) as int, pow2(l as nat) as int);
    }

    /// The index of every key lies in the table range `[0, 2^l)`.
    pub proof fn lemma_index_range(self, x: u64)
        requires
            self.wf(),
        ensures
            0 <= self.spec_index(x) < pow2(self.l as nat),
    {
        let modulus: int = pow2(64) as int;
        let shift: nat = (64 - self.l) as nat;
        lemma2_to64();
        lemma2_to64_rest();
        lemma_pow2_pos(shift);
        lemma_mod_bound(self.a * x + self.b, modulus);
        lemma_pow2_adds(shift, self.l as nat);
        vstd::arithmetic::div_mod::lemma_div_pos_is_pos(
            (self.a * x + self.b) % modulus,
            pow2(shift) as int,
        );
        lemma_multiply_divide_lt(
            (self.a * x + self.b) % modulus,
            pow2(shift) as int,
            pow2(self.l as nat) as int,
        );
    }
}

/// The Mersenne prime `2^61 - 1`, the field the 4-wise independent hash is
/// evaluated over. It exceeds every admitted key, and `2^59` is the largest
/// index range at most half of it.
pub const MERSENNE_PRIME: u64 = 0x1fff_ffff_ffff_ffff;

/// 4-wise independent hash from keys below `2^61 - 1` to an `l`-bit index
/// and a sign in `{-1, +1}`. A degree-3 polynomial with random coefficients
/// is evaluated over the Mersenne-prime field; the low bit of the residue
/// gives the sign and the next `l` bits give the index.
#[derive(Clone, Copy)]
pub struct FourWiseHash {
    pub l: u32,
    pub a: u64,
    pub b: u64,
    pub c: u64,
    pub d: u64,
}

impl FourWiseHash {
    /// Parameter discipline: every coefficient lies in `[1, p)`, and the
    /// index range `2^l` is at most `p / 2`, so that index and sign bits of
    /// the residue are (close to) uniform.
    pub open spec fn wf(self) -> bool {
        &&& 1 <= self.l <= 59
        &&& 1 <= self.a < MERSENNE_PRIME
        &&& 1 <= self.b < MERSENNE_PRIME
        &&& 1 <= self.c < MERSENNE_PRIME
        &&& 1 <= self.d < MERSENNE_PRIME
    }

    /// The degree-3 polynomial `((a*x + b)*x + c)*x + d` reduced modulo the
    /// Mersenne prime after each step.
    pub open spec fn spec_poly(self, x: u64) -> int {
        let p = MERSENNE_PRIME as int;
        let k1 = (self.a * x + self.b) % p;
        let k2 = (k1 * x + self.c) % p;
        (k2 * x + self.d) % p
    }

    /// The index of key `x`: bits 1 through `l` of the polynomial residue.
    pub open spec fn spec_h(self, x: u64) -> int {
        (self.spec_poly(x) / 2) % pow2(self.l as nat) as int
    }

    /// The sign of key `x`: `+1` when the residue is odd, `-1` when even.
    pub open spec fn spec_sign(self, x: u64) -> int {
        if self.spec_poly(x) % 2 == 1 {
            1
        } else {
            -1
        }
    }

    /// Draws four fresh coefficients uniformly from `[1, p)` for an `l`-bit
    /// index hash.
    pub fn new(hash_len: u32) -> (r: FourWiseHash)
        requires
            1 <= hash_len <= 59,
        ensures
            r.wf(),
            r.l == hash_len,
    {
        FourWiseHash {
            a: crate::rng::random_generator(1, MERSENNE_PRIME),
            b: crate::rng::random_generator(1, MERSENNE_PRIME),
            c: crate::rng::random_generator(1, MERSENNE_PRIME),
            d: crate::rng::random_generator(1, MERSENNE_PRIME),
            l: hash_len,
        }
    }

    /// Hashes a key to an index strictly below `2^l` and a sign in
    /// `{-1, +1}`. Both are pure functions of the parameters and the key.
    pub fn hash(&self, x: u64) -> (r: (u64, i64))
        requires
            self.wf(),
            x < MERSENNE_PRIME,
        ensures
            r.0 == self.spec_h(x),
            r.1 == self.spec_sign(x),
            r.0 < pow2(self.l as nat),
            r.1 == 1 || r.1 == -1,
    {
        let p: u128 = MERSENNE_PRIME as u128;
        proof {
            broadcast use vstd::arithmetic::div_mod::lemma_mod_bound;

            lemma_mul_fits_u128(self.a, x);
        }
        let mut k: u128 = ((self.a as u128) * (x as u128) + (self.b as u128)) % p;
        proof {
            assert(k < p);
            lemma_mul_fits_u128(k as u64, x);
        }
        k = (k * (x as u128) + (self.c as u128)) % p;
        proof {
            assert(k < p);
            lemma_mul_fits_u128(k as u64, x);
        }
        k = (k * (x as u128) + (self.d as u128)) % p;
        proof {
            assert(k < p);
        }
        let k64: u64 = k as u64;
        proof {
            vstd::bits::lemma_u64_pow2_no_overflow(self.l as nat);
            vstd::bits::lemma_u64_shl_is_mul(1u64, self.l as u64);
            lemma_pow2_pos(self.l as nat);
        }
        let mask: u64 = (1u64 << (self.l as u64)) - 1;
        let h: u64 = (k64 >> 1u64) & mask;
        let low: i64 = (k64 as i64) & 1;
        proof {
            assert((k64 as i64) & 1 == 0 || (k64 as i64) & 1 == 1) by (bit_vector);
        }
        let g: i64 = 2 * low - 1;
        proof {
            self.lemma_hash_value(x, k64, h, g);
        }
        (h, g)
    }

    /// Shift and mask of the polynomial residue compute exactly the stated
    /// quotient-and-remainder index and the parity sign.
    proof fn lemma_hash_value(self, x: u64, k64: u64, h: u64, g: i64)
        requires
            self.wf(),
            k64 == self.spec_poly(x),
            h == (k64 >> 1u64) & (((1u64 << (self.l as u64)) - 1) as u64),
            g == 2 * ((k64 as i64) & 1) - 1,
        ensures
            h == self.spec_h(x),
            g == self.spec_sign(x),
            h < pow2(self.l as nat),
            g == 1 || g == -1,
    {
        let l = self.l;
        lemma2_to64();
        vstd::bits::lemma_u64_pow2_no_overflow(l as nat);
        vstd::bits::lemma_u64_shl_is_mul(1u64, l as u64);
        lemma_pow2_pos(l as nat);
        lemma_u64_shr_is_div(k64, 1u64);
        assert(k64 >> 1u64 == k64 as nat / pow2(1));
        // The mask keeps the low l bits, which is reduction mod 2^l.
        assert(1u64 << (l as u64) == pow2(l as nat));
        assert(((1u64 << (l as u64)) - 1) as u64 == vstd::bits::low_bits_mask(l as nat) as u64);
        vstd::bits::lemma_u64_low_bits_mask_is_mod(k64 >> 1u64, l as nat);
        assert(h == ((k64 >> 1u64) as u64) % (pow2(l as nat) as u64));
        assert(h == self.spec_h(x));
        lemma_mod_bound((k64 / 2) as int, pow2(l as nat) as int);
        // The low bit is the parity.
        assert(k64 & 1 == k64 % 2) by (bit_vector);
        assert((k64 as i64) & 1 == (k64 & 1) as i64) by (bit_vector)
            requires
                k64 < 0x2000_0000_0000_0000,
        ;
        assert(g == self.spec_sign(x));
    }

    /// The index of every key lies in the counter range `[0, 2^l)`.
    pub proof fn lemma_h_range(self, x: u64)
        requires
            self.wf(),
        ensures
            0 <= self.spec_h(x) < pow2(self.l as nat),
    {
        lemma_pow2_pos(self.l as nat);
        lemma_mod_bound(self.spec_poly(x) / 2, pow2(self.l as nat) as int);
    }
}

/// Bound for the field arithmetic: the product of a value below the prime
/// with a key below the prime, plus one more coefficient, stays far below
/// the 128-bit limit.
proof fn lemma_mul_fits_u128(y: u64, x: u64)
    by (nonlinear_arith)
    requires
        y < 0x2000_0000_0000_0000,
        x < 0x2000_0000_0000_0000,
    ensures
        0 <= (y as int) * (x as int) < 0x400_0000_0000_0000_0000_0000_0000_0000,
{
}

} // verus!
