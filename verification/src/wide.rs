//! A 512-bit register emulated as eight independent 64-bit lanes, with
//! the wide-integer primitives the recurrence needs: carry-propagating
//! addition, cross-lane left shift, an up-to-index mask, and a population
//! count reduced to a scalar.  Each primitive is verified against the
//! bit-sequence view of the whole register.

use crate::bits::{
    bit64, lemma_add_overflow_detect, lemma_all_ones_bits, lemma_bitop_bits,
    lemma_lane_carry_bits, lemma_lane_carry_out, lemma_low_one_bits, lemma_one_shl_bits,
    lemma_shl1_bits, lemma_shl1_carry_bits, mask_low_bits, popcount64, word_bits,
};
use crate::model::{carry_chain, count_bits, lemma_count_bits_concat};
use vstd::prelude::*;

verus! {

broadcast use vstd::array::group_array_axioms;

/// A 512-bit register: eight 64-bit lanes, least significant lane first.
#[derive(Clone, Copy)]
pub struct Wide512 {
    pub lanes: [u64; 8],
}

/// The register as a sequence of 512 bits, least significant first.
pub open spec fn wide_bits(w: Wide512) -> Seq<bool> {
    Seq::new(512, |i: int| bit64(w.lanes[i / 64], (i % 64) as u64))
}

/// Decompose a wide bit index into its lane and lane-relative offset.
pub proof fn lemma_lane_split(i: int)
    requires
        0 <= i < 512,
    ensures
        0 <= i / 64 < 8,
        0 <= i % 64 < 64,
        i == 64 * (i / 64) + i % 64,
{
    vstd::arithmetic::div_mod::lemma_fundamental_div_mod(i, 64);
    vstd::arithmetic::div_mod::lemma_mod_division_less_than_divisor(i, 64);
}

/// Bit `64 * k + j` of the wide view is bit `j` of lane `k`.
pub proof fn lemma_wide_bit(w: Wide512, k: int, j: int)
    requires
        0 <= k < 8,
        0 <= j < 64,
    ensures
        wide_bits(w)[64 * k + j] == bit64(w.lanes[k], j as u64),
{
    vstd::arithmetic::div_mod::lemma_fundamental_div_mod_converse(64 * k + j, 64, k, j);
}

/// Lane-wise bitwise AND.
pub fn and512(a: &Wide512, b: &Wide512) -> (r: Wide512)
    ensures
        forall|i: int|
            0 <= i < 512 ==> #[trigger] wide_bits(r)[i] == (wide_bits(*a)[i] && wide_bits(*b)[i]),
{
    let mut lanes: [u64; 8] = [0u64, 0u64, 0u64, 0u64, 0u64, 0u64, 0u64, 0u64];
    let mut k: usize = 0;
    while k < 8
        invariant
            k <= 8,
            forall|q: int| 0 <= q < k ==> #[trigger] lanes[q] == (a.lanes[q] & b.lanes[q]),
        decreases 8 - k,
    {
        lanes[k] = a.lanes[k] & b.lanes[k];
        k = k + 1;
    }
    let r = Wide512 { lanes };
    proof {
        assert forall|i: int|
            0 <= i < 512 implies #[trigger] wide_bits(r)[i] == (wide_bits(*a)[i] && wide_bits(
            *b,
        )[i]) by {
            lemma_lane_split(i);
            lemma_bitop_bits(a.lanes[i / 64], b.lanes[i / 64], (i % 64) as u64);
        }
    }
    r
}

/// Lane-wise bitwise OR.
pub fn or512(a: &Wide512, b: &Wide512) -> (r: Wide512)
    ensures
        forall|i: int|
            0 <= i < 512 ==> #[trigger] wide_bits(r)[i] == (wide_bits(*a)[i] || wide_bits(*b)[i]),
{
    let mut lanes: [u64; 8] = [0u64, 0u64, 0u64, 0u64, 0u64, 0u64, 0u64, 0u64];
    let mut k: usize = 0;
    while k < 8
        invariant
            k <= 8,
            forall|q: int| 0 <= q < k ==> #[trigger] lanes[q] == (a.lanes[q] | b.lanes[q]),
        decreases 8 - k,
    {
        lanes[k] = a.lanes[k] | b.lanes[k];
        k = k + 1;
    }
    let r = Wide512 { lanes };
    proof {
        assert forall|i: int|
            0 <= i < 512 implies #[trigger] wide_bits(r)[i] == (wide_bits(*a)[i] || wide_bits(
            *b,
        )[i]) by {
            lemma_lane_split(i);
            lemma_bitop_bits(a.lanes[i / 64], b.lanes[i / 64], (i % 64) as u64);
        }
    }
    r
}

/// Lane-wise bitwise XOR.
pub fn xor512(a: &Wide512, b: &Wide512) -> (r: Wide512)
    ensures
        forall|i: int|
            0 <= i < 512 ==> #[trigger] wide_bits(r)[i] == (wide_bits(*a)[i] != wide_bits(*b)[i]),
{
    let mut lanes: [u64; 8] = [0u64, 0u64, 0u64, 0u64, 0u64, 0u64, 0u64, 0u64];
    let mut k: usize = 0;
    while k < 8
        invariant
            k <= 8,
            forall|q: int| 0 <= q < k ==> #[trigger] lanes[q] == (a.lanes[q] ^ b.lanes[q]),
        decreases 8 - k,
    {
        lanes[k] = a.lanes[k] ^ b.lanes[k];
        k = k + 1;
    }
    let r = Wide512 { lanes };
    proof {
        assert forall|i: int|
            0 <= i < 512 implies #[trigger] wide_bits(r)[i] == (wide_bits(*a)[i] != wide_bits(
            *b,
        )[i]) by {
            lemma_lane_split(i);
            lemma_bitop_bits(a.lanes[i / 64], b.lanes[i / 64], (i % 64) as u64);
        }
    }
    r
}

/// Lane-wise bitwise NOT.
pub fn not512(a: &Wide512) -> (r: Wide512)
    ensures
        forall|i: int| 0 <= i < 512 ==> #[trigger] wide_bits(r)[i] == !wide_bits(*a)[i],
{
    let mut lanes: [u64; 8] = [0u64, 0u64, 0u64, 0u64, 0u64, 0u64, 0u64, 0u64];
    let mut k: usize = 0;
    while k < 8
        invariant
            k <= 8,
            forall|q: int| 0 <= q < k ==> #[trigger] lanes[q] == !a.lanes[q],
        decreases 8 - k,
    {
        lanes[k] = !a.lanes[k];
        k = k + 1;
    }
    let r = Wide512 { lanes };
    proof {
        assert forall|i: int| 0 <= i < 512 implies #[trigger] wide_bits(r)[i] == !wide_bits(
            *a,
        )[i] by {
            lemma_lane_split(i);
            lemma_bitop_bits(a.lanes[i / 64], a.lanes[i / 64], (i % 64) as u64);
        }
    }
    r
}

/// The register holding the integer one: lowest bit set, rest clear.
pub fn one512() -> (r: Wide512)
    ensures
        forall|i: int| 0 <= i < 512 ==> #[trigger] wide_bits(r)[i] == (i == 0),
{
    let r = Wide512 { lanes: [1u64, 0u64, 0u64, 0u64, 0u64, 0u64, 0u64, 0u64] };
    proof {
        assert forall|i: int| 0 <= i < 512 implies #[trigger] wide_bits(r)[i] == (i == 0) by {
            lemma_lane_split(i);
            lemma_low_one_bits((i % 64) as u64);
            lemma_all_ones_bits((i % 64) as u64);
        }
    }
    r
}

/// The all-ones register.
pub fn ones512() -> (r: Wide512)
    ensures
        forall|i: int| 0 <= i < 512 ==> #[trigger] wide_bits(r)[i],
{
    let m = 0xFFFF_FFFF_FFFF_FFFFu64;
    let r = Wide512 { lanes: [m, m, m, m, m, m, m, m] };
    proof {
        assert forall|i: int| 0 <= i < 512 implies #[trigger] wide_bits(r)[i] by {
            lemma_lane_split(i);
            lemma_all_ones_bits((i % 64) as u64);
        }
    }
    r
}

/// The all-zero register.
pub fn zero512() -> (r: Wide512)
    ensures
        forall|i: int| 0 <= i < 512 ==> !(#[trigger] wide_bits(r)[i]),
{
    let r = Wide512 { lanes: [0u64, 0u64, 0u64, 0u64, 0u64, 0u64, 0u64, 0u64] };
    proof {
        assert forall|i: int| 0 <= i < 512 implies !(#[trigger] wide_bits(r)[i]) by {
            lemma_lane_split(i);
            lemma_all_ones_bits((i % 64) as u64);
        }
    }
    r
}

impl crate::peq::Word for Wide512 {
    open spec fn wwidth() -> nat {
        512
    }

    fn width() -> (r: usize)
        ensures
            r == Self::wwidth(),
    {
        512
    }

    open spec fn wbits(&self) -> Seq<bool> {
        wide_bits(*self)
    }

    proof fn lemma_wbits_len(&self) {
    }

    fn zero() -> (r: Wide512)
        ensures
            forall|k: int| 0 <= k < Self::wwidth() ==> !(#[trigger] r.wbits()[k]),
    {
        zero512()
    }

    fn bit_at_unchecked(i: usize) -> (r: Wide512)
        ensures
            forall|k: int| 0 <= k < Self::wwidth() ==> #[trigger] r.wbits()[k] == (k == i),
    {
        let mut lanes: [u64; 8] = [0u64, 0u64, 0u64, 0u64, 0u64, 0u64, 0u64, 0u64];
        proof {
            lemma_lane_split(i as int);
        }
        lanes[i / 64] = 1u64 << ((i % 64) as u64);
        let r = Wide512 { lanes };
        proof {
            let lane = i as int / 64;
            let off = i as int % 64;
            assert forall|k: int| 0 <= k < 512 implies #[trigger] wide_bits(r)[k] == (k == i) by {
                lemma_lane_split(k);
                if k / 64 == lane {
                    lemma_one_shl_bits(off as u64, (k % 64) as u64);
                } else {
                    lemma_all_ones_bits((k % 64) as u64);
                }
            }
        }
        r
    }

    fn bit_or(self, rhs: Wide512) -> (r: Wide512)
        ensures
            forall|k: int|
                0 <= k < Self::wwidth() ==> #[trigger] r.wbits()[k] == (self.wbits()[k]
                    || rhs.wbits()[k]),
    {
        or512(&self, &rhs)
    }
}

/// Add two registers as if they were single 512-bit integers: lane-wise
/// addition with the carry out of every lane propagated into the next
/// one, so that the result's bits follow the full 512-bit carry chain.
pub fn add512(a: &Wide512, b: &Wide512) -> (r: Wide512)
    ensures
        forall|i: int|
            0 <= i < 512 ==> #[trigger] wide_bits(r)[i] == ((wide_bits(*a)[i] != wide_bits(
                *b,
            )[i]) != carry_chain(wide_bits(*a), wide_bits(*b), i)),
{
    let mut lanes: [u64; 8] = [0u64, 0u64, 0u64, 0u64, 0u64, 0u64, 0u64, 0u64];
    let mut carry: u64 = 0;
    let mut k: usize = 0;
    while k < 8
        invariant
            k <= 8,
            carry <= 1,
            (carry == 1) == carry_chain(wide_bits(*a), wide_bits(*b), 64 * (k as int)),
            forall|q: int, j: int|
                0 <= q < k && 0 <= j < 64 ==> #[trigger] bit64(lanes[q], j as u64) == ((wide_bits(
                    *a,
                )[64 * q + j] != wide_bits(*b)[64 * q + j]) != carry_chain(
                    wide_bits(*a),
                    wide_bits(*b),
                    64 * q + j,
                )),
        decreases 8 - k,
    {
        let x = a.lanes[k];
        let y = b.lanes[k];
        // Lane-wise addition, then the incoming carry bit.
        let s1 = x.wrapping_add(y);
        let z = s1.wrapping_add(carry);
        // A lane overflowed exactly when a sum fell below an addend.
        let co: u64 = if s1 < x {
            1
        } else if z < s1 {
            1
        } else {
            0
        };
        lanes[k] = z;
        proof {
            let base = 64 * (k as int);
            lemma_add_overflow_detect(x, y, carry, s1, z);
            assert forall|j: int| 0 <= j < 64 implies #[trigger] wide_bits(*a)[base + j] == bit64(
                x,
                j as u64,
            ) by {
                lemma_wide_bit(*a, k as int, j);
            }
            assert forall|j: int| 0 <= j < 64 implies #[trigger] wide_bits(*b)[base + j] == bit64(
                y,
                j as u64,
            ) by {
                lemma_wide_bit(*b, k as int, j);
            }
            assert forall|j: int| 0 <= j < 64 implies #[trigger] bit64(lanes[k as int], j as u64)
                == ((wide_bits(*a)[base + j] != wide_bits(*b)[base + j]) != carry_chain(
                wide_bits(*a),
                wide_bits(*b),
                base + j,
            )) by {
                lemma_lane_carry_bits(wide_bits(*a), wide_bits(*b), base, x, y, carry, z, j as u64);
            }
            lemma_lane_carry_out(wide_bits(*a), wide_bits(*b), base, x, y, carry, z);
        }
        carry = co;
        k = k + 1;
    }
    let r = Wide512 { lanes };
    proof {
        assert forall|i: int|
            0 <= i < 512 implies #[trigger] wide_bits(r)[i] == ((wide_bits(*a)[i] != wide_bits(
            *b,
        )[i]) != carry_chain(wide_bits(*a), wide_bits(*b), i)) by {
            lemma_lane_split(i);
        }
    }
    r
}

/// Shift the whole 512-bit register left by one: each lane shifts, and
/// the bit falling out of a lane's top enters the next lane's bottom.
pub fn shl1_512(a: &Wide512) -> (r: Wide512)
    ensures
        forall|i: int|
            0 <= i < 512 ==> #[trigger] wide_bits(r)[i] == (i > 0 && wide_bits(*a)[i - 1]),
{
    let mut lanes: [u64; 8] = [0u64, 0u64, 0u64, 0u64, 0u64, 0u64, 0u64, 0u64];
    lanes[0] = a.lanes[0] << 1u64;
    let mut k: usize = 1;
    while k < 8
        invariant
            1 <= k <= 8,
            lanes[0] == a.lanes[0] << 1u64,
            forall|q: int|
                1 <= q < k ==> #[trigger] lanes[q] == ((a.lanes[q] << 1u64) | (a.lanes[q - 1]
                    >> 63u64)),
        decreases 8 - k,
    {
        lanes[k] = (a.lanes[k] << 1u64) | (a.lanes[k - 1] >> 63u64);
        k = k + 1;
    }
    let r = Wide512 { lanes };
    proof {
        assert forall|i: int|
            0 <= i < 512 implies #[trigger] wide_bits(r)[i] == (i > 0 && wide_bits(*a)[i - 1]) by {
            lemma_lane_split(i);
            let q = i / 64;
            let j = i % 64;
            if q == 0 {
                lemma_shl1_bits(a.lanes[0], j as u64);
            } else {
                lemma_shl1_carry_bits(a.lanes[q], a.lanes[q - 1], j as u64);
                if j == 0 {
                    lemma_wide_bit(*a, q - 1, 63);
                }
            }
        }
    }
    r
}

/// A register with bits `[0, len)` set and all higher bits clear: full
/// lanes below the boundary, a partial mask in the boundary lane, zeros
/// above.
pub fn mask_upto_512(len: usize) -> (r: Wide512)
    requires
        len <= 512,
    ensures
        forall|i: int| 0 <= i < 512 ==> #[trigger] wide_bits(r)[i] == (i < len),
{
    let mut lanes: [u64; 8] = [0u64, 0u64, 0u64, 0u64, 0u64, 0u64, 0u64, 0u64];
    let mut k: usize = 0;
    while k < 8
        invariant
            k <= 8,
            len <= 512,
            forall|q: int, j: int|
                0 <= q < k && 0 <= j < 64 ==> #[trigger] bit64(lanes[q], j as u64) == (64 * q + j
                    < len),
        decreases 8 - k,
    {
        if len >= 64 * (k + 1) {
            lanes[k] = 0xFFFF_FFFF_FFFF_FFFFu64;
            proof {
                assert forall|j: int| 0 <= j < 64 implies #[trigger] bit64(lanes[k as int], j as u64)
                    == (64 * (k as int) + j < len) by {
                    lemma_all_ones_bits(j as u64);
                }
            }
        } else if len <= 64 * k {
            lanes[k] = 0u64;
            proof {
                assert forall|j: int| 0 <= j < 64 implies #[trigger] bit64(lanes[k as int], j as u64)
                    == (64 * (k as int) + j < len) by {
                    lemma_all_ones_bits(j as u64);
                }
            }
        } else {
            let part = mask_low_bits(len - 64 * k);
            lanes[k] = part;
            proof {
                assert forall|j: int| 0 <= j < 64 implies #[trigger] bit64(lanes[k as int], j as u64)
                    == (64 * (k as int) + j < len) by {
                    assert(word_bits(part)[j] == bit64(part, j as u64));
                }
            }
        }
        k = k + 1;
    }
    let r = Wide512 { lanes };
    proof {
        assert forall|i: int| 0 <= i < 512 implies #[trigger] wide_bits(r)[i] == (i < len) by {
            lemma_lane_split(i);
        }
    }
    r
}

/// Count the set bits of the whole register: each lane is counted on its
/// own and the per-lane counts are summed.
pub fn popcount512(a: &Wide512) -> (r: usize)
    ensures
        r == count_bits(wide_bits(*a), 512),
        r <= 512,
{
    let mut total: usize = 0;
    let mut k: usize = 0;
    while k < 8
        invariant
            k <= 8,
            total <= 64 * k,
            total == count_bits(wide_bits(*a), 64 * (k as int)),
        decreases 8 - k,
    {
        let c = popcount64(a.lanes[k]);
        proof {
            let base = 64 * (k as int);
            assert forall|j: int| 0 <= j < 64 implies #[trigger] wide_bits(*a)[base + j]
                == word_bits(a.lanes[k as int])[j] by {
                lemma_wide_bit(*a, k as int, j);
            }
            lemma_count_bits_concat(wide_bits(*a), base, word_bits(a.lanes[k as int]), 64);
        }
        total = total + c;
        k = k + 1;
    }
    total
}

} // verus!
