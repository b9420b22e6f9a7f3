//! Bit-level view of 64-bit words, and the bridge lemmas that relate the
//! machine's bitwise operations to that view.

use crate::model::{carry_chain, count_bits, d0_bit, maj};
use vstd::prelude::*;

verus! {

/// Bit `i` of the word `x` (false for `i >= 64`).
pub open spec fn bit64(x: u64, i: u64) -> bool {
    (x >> i) & 1 == 1
}

/// The word `x` as a sequence of 64 bits, least significant first.
pub open spec fn word_bits(x: u64) -> Seq<bool> {
    Seq::new(64, |i: int| bit64(x, i as u64))
}

/// Bitwise AND, OR, XOR and NOT act independently on every bit.
pub proof fn lemma_bitop_bits(x: u64, y: u64, i: u64)
    by (bit_vector)
    requires
        i < 64,
    ensures
        bit64(x & y, i) == (bit64(x, i) && bit64(y, i)),
        bit64(x | y, i) == (bit64(x, i) || bit64(y, i)),
        bit64(x ^ y, i) == (bit64(x, i) != bit64(y, i)),
        bit64(!x, i) == !bit64(x, i),
{
}

/// A left shift by one moves every bit up one place and clears bit zero.
pub proof fn lemma_shl1_bits(x: u64, i: u64)
    by (bit_vector)
    requires
        i < 64,
    ensures
        i == 0 ==> !bit64(x << 1u64, 0),
        i >= 1 ==> bit64(x << 1u64, i) == bit64(x, (i - 1) as u64),
        bit64(x | 1, i) == (i == 0 || bit64(x, i)),
{
}

/// In a full addition `x + y + cin` with wrapped sum `z`, the word
/// `x ^ y ^ z` holds exactly the carries into each bit position: there is
/// no carry into bit zero beyond `cin` itself, and the carry into bit
/// `i + 1` is the majority of the two addend bits and the carry at `i`.
pub proof fn lemma_add_carry_bits(x: u64, y: u64, c: u64, z: u64, i: u64)
    by (bit_vector)
    requires
        c <= 1,
        z == x + y + c || z == x + y + c - 0x1_0000_0000_0000_0000,
        i < 63,
    ensures
        bit64(x ^ y ^ z, 0) == (c == 1),
        bit64(x ^ y ^ z, (i + 1) as u64) == maj(bit64(x, i), bit64(y, i), bit64(x ^ y ^ z, i)),
{
}

/// The wrapped sum's bits are the XOR of the addend bits and the carries.
pub proof fn lemma_add_sum_bits(x: u64, y: u64, c: u64, z: u64, i: u64)
    by (bit_vector)
    requires
        c <= 1,
        z == x + y + c || z == x + y + c - 0x1_0000_0000_0000_0000,
        i < 64,
    ensures
        bit64(z, i) == ((bit64(x, i) != bit64(y, i)) != bit64(x ^ y ^ z, i)),
{
}

/// The addition `x + y + cin` overflows 64 bits exactly when the majority
/// of the top addend bits and the top carry is set.
pub proof fn lemma_add_carry_out(x: u64, y: u64, c: u64, z: u64)
    by (bit_vector)
    requires
        c <= 1,
        z == x + y + c || z == x + y + c - 0x1_0000_0000_0000_0000,
    ensures
        (x + y + c >= 0x1_0000_0000_0000_0000) == maj(
            bit64(x, 63),
            bit64(y, 63),
            bit64(x ^ y ^ z, 63),
        ),
{
}

/// Within one 64-bit lane of a multi-precision addition, the full-adder
/// carries continue the sequence-level carry chain: if the carry into
/// the lane matches the chain at `base`, the carries inside the lane
/// match the chain at every position of the lane.
pub proof fn lemma_lane_carry_bits(
    xs: Seq<bool>,
    ys: Seq<bool>,
    base: int,
    x: u64,
    y: u64,
    c: u64,
    z: u64,
    j: u64,
)
    requires
        c <= 1,
        z == x + y + c || z == x + y + c - 0x1_0000_0000_0000_0000,
        0 <= base,
        (c == 1) == carry_chain(xs, ys, base),
        forall|k: int| 0 <= k < 64 ==> #[trigger] xs[base + k] == bit64(x, k as u64),
        forall|k: int| 0 <= k < 64 ==> #[trigger] ys[base + k] == bit64(y, k as u64),
        j < 64,
    ensures
        bit64((x ^ y) ^ z, j) == carry_chain(xs, ys, base + j),
        bit64(z, j) == ((xs[base + j] != ys[base + j]) != carry_chain(xs, ys, base + j)),
    decreases j,
{
    lemma_add_sum_bits(x, y, c, z, j);
    lemma_bitop_bits(x, y, j);
    lemma_bitop_bits(x ^ y, z, j);
    if j == 0 {
        lemma_add_carry_bits(x, y, c, z, 0);
    } else {
        let pj = (j - 1) as u64;
        lemma_lane_carry_bits(xs, ys, base, x, y, c, z, pj);
        lemma_add_carry_bits(x, y, c, z, pj);
    }
}

/// The carry out of a lane addition continues the chain into the next
/// lane.
pub proof fn lemma_lane_carry_out(
    xs: Seq<bool>,
    ys: Seq<bool>,
    base: int,
    x: u64,
    y: u64,
    c: u64,
    z: u64,
)
    requires
        c <= 1,
        z == x + y + c || z == x + y + c - 0x1_0000_0000_0000_0000,
        0 <= base,
        (c == 1) == carry_chain(xs, ys, base),
        forall|k: int| 0 <= k < 64 ==> #[trigger] xs[base + k] == bit64(x, k as u64),
        forall|k: int| 0 <= k < 64 ==> #[trigger] ys[base + k] == bit64(y, k as u64),
    ensures
        carry_chain(xs, ys, base + 64) == (x + y + c >= 0x1_0000_0000_0000_0000),
{
    lemma_lane_carry_bits(xs, ys, base, x, y, c, z, 63);
    lemma_add_carry_out(x, y, c, z);
    lemma_bitop_bits(x, y, 63);
    lemma_bitop_bits(x ^ y, z, 63);
}

/// The two comparisons used by the wide adder detect exactly the carry
/// out of a lane, and the chained result is the wrapped three-way sum.
pub proof fn lemma_add_overflow_detect(x: u64, y: u64, c: u64, s1: u64, z: u64)
    by (bit_vector)
    requires
        c <= 1,
        s1 == x + y || s1 == x + y - 0x1_0000_0000_0000_0000,
        z == s1 + c || z == s1 + c - 0x1_0000_0000_0000_0000,
    ensures
        z == x + y + c || z == x + y + c - 0x1_0000_0000_0000_0000,
        ((s1 < x) || (z < s1)) == (x + y + c >= 0x1_0000_0000_0000_0000),
{
}

/// A lane shifted left by one, with the top bit of the lane below moved
/// into its lowest bit, continues a cross-lane shift.
pub proof fn lemma_shl1_carry_bits(x: u64, p: u64, j: u64)
    by (bit_vector)
    requires
        j < 64,
    ensures
        j == 0 ==> bit64((x << 1u64) | (p >> 63u64), 0) == bit64(p, 63),
        j >= 1 ==> bit64((x << 1u64) | (p >> 63u64), j) == bit64(x, (j - 1) as u64),
{
}

/// The word one has exactly bit zero set.
pub proof fn lemma_low_one_bits(i: u64)
    by (bit_vector)
    requires
        i < 64,
    ensures
        bit64(1u64, i) == (i == 0),
{
}

/// A one shifted up to position `k` sets exactly bit `k`.
pub proof fn lemma_one_shl_bits(k: u64, i: u64)
    by (bit_vector)
    requires
        k < 64,
        i < 64,
    ensures
        bit64(1u64 << k, i) == (i == k),
{
}

/// A single set bit is at least one, so the mask subtraction cannot
/// underflow.
pub proof fn lemma_shl_one_pos(k: u64)
    by (bit_vector)
    requires
        k < 64,
    ensures
        1u64 << k >= 1,
{
}

/// The word `(1 << k) - 1` has exactly the bits below `k` set, and the
/// all-ones word has every bit set.
pub proof fn lemma_mask_bits(m: u64, k: u64, i: u64)
    by (bit_vector)
    requires
        k < 64,
        i < 64,
        m == (1u64 << k) - 1,
    ensures
        bit64(m, i) == (i < k),
{
}

/// The all-ones word has every bit set.
pub proof fn lemma_all_ones_bits(i: u64)
    by (bit_vector)
    requires
        i < 64,
    ensures
        bit64(0xFFFF_FFFF_FFFF_FFFFu64, i),
        !bit64(0u64, i),
{
}

/// The word computed by `(((eq & vp) + vp) ^ vp) | eq`, with wraparound
/// addition producing `z`, has exactly the diagonal-zero bits of the
/// model: the addition's carry chain propagates matches upward through
/// runs of set `vp` bits.  The second conclusion characterises the carry
/// into each bit.
pub proof fn lemma_d0_word(eq: u64, vp: u64, z: u64, i: u64)
    requires
        z == (eq & vp) + vp || z == (eq & vp) + vp - 0x1_0000_0000_0000_0000,
        i < 64,
    ensures
        bit64((z ^ vp) | eq, i) == d0_bit(word_bits(eq), word_bits(vp), i as int),
        bit64(((eq & vp) ^ vp) ^ z, i) == (i > 0 && bit64(vp, (i - 1) as u64) && d0_bit(
            word_bits(eq),
            word_bits(vp),
            i - 1,
        )),
    decreases i,
{
    let a = eq & vp;
    let cw = (a ^ vp) ^ z;
    lemma_bitop_bits(eq, vp, i);
    lemma_add_sum_bits(a, vp, 0, z, i);
    lemma_bitop_bits(a, vp, i);
    lemma_bitop_bits(a ^ vp, z, i);
    lemma_bitop_bits(z, vp, i);
    lemma_bitop_bits(z ^ vp, eq, i);
    assert(word_bits(eq)[i as int] == bit64(eq, i));
    assert(word_bits(vp)[i as int] == bit64(vp, i));
    if i == 0 {
        lemma_add_carry_bits(a, vp, 0, z, 0);
    } else {
        let im1 = (i - 1) as u64;
        lemma_d0_word(eq, vp, z, im1);
        lemma_add_carry_bits(a, vp, 0, z, im1);
        lemma_bitop_bits(eq, vp, im1);
        lemma_add_sum_bits(a, vp, 0, z, im1);
        lemma_bitop_bits(a, vp, im1);
        lemma_bitop_bits(a ^ vp, z, im1);
        lemma_bitop_bits(z, vp, im1);
        lemma_bitop_bits(z ^ vp, eq, im1);
        assert(word_bits(eq)[im1 as int] == bit64(eq, im1));
        assert(word_bits(vp)[im1 as int] == bit64(vp, im1));
    }
}

/// Count the set bits of a word, one bit at a time.
pub fn popcount64(x: u64) -> (r: usize)
    ensures
        r as int == count_bits(word_bits(x), 64),
        r <= 64,
{
    let mut c: usize = 0;
    let mut i: u64 = 0;
    while i < 64
        invariant
            i <= 64,
            c <= i,
            c as int == count_bits(word_bits(x), i as int),
        decreases 64 - i,
    {
        proof {
            assert(word_bits(x)[i as int] == bit64(x, i));
        }
        if (x >> i) & 1 == 1 {
            c = c + 1;
        }
        i = i + 1;
    }
    c
}

/// The lowest `len` bits, as a mask word: all bits set for a full-width
/// length, otherwise `(1 << len) - 1`.
pub fn mask_low_bits(len: usize) -> (r: u64)
    requires
        len <= 64,
    ensures
        forall|i: int| 0 <= i < 64 ==> #[trigger] word_bits(r)[i] == (i < len),
{
    if len == 64 {
        proof {
            assert forall|i: int| 0 <= i < 64 implies #[trigger] word_bits(0xFFFF_FFFF_FFFF_FFFFu64)[i]
                == (i < 64) by {
                lemma_all_ones_bits(i as u64);
            }
        }
        0xFFFF_FFFF_FFFF_FFFFu64
    } else {
        proof {
            lemma_shl_one_pos(len as u64);
        }
        let m = (1u64 << (len as u64)) - 1;
        proof {
            assert forall|i: int| 0 <= i < 64 implies #[trigger] word_bits(m)[i] == (i < len) by {
                lemma_mask_bits(m, len as u64, i as u64);
            }
        }
        m
    }
}

} // verus!
