//! The bit-level model of Myers' recurrence and its proof of
//! correspondence with the dynamic-programming formulation of the edit
//! distance.
//!
//! A register-wide state is modelled as a sequence of bits, least
//! significant first.  One column of the dynamic-programming matrix is
//! described by the vertical deltas between adjacent cells; the functions
//! below give, bit by bit, the state produced by one step of the
//! recurrence, and the lemmas relate those bits to the matrix cells.

use crate::lev::{lemma_lev_pattern_adjacent, lemma_lev_text_adjacent, lev, min3};
use vstd::prelude::*;

verus! {

/// Cell `(i, j)` of the dynamic-programming matrix: the edit distance
/// between the first `i` pattern characters and the first `j` text
/// characters.
pub open spec fn dcell(p: Seq<u8>, t: Seq<u8>, j: int, i: int) -> int {
    lev(p.take(i), t.take(j))
}

/// Majority vote of three bits: the carry produced by a full adder.
pub open spec fn maj(a: bool, b: bool, c: bool) -> bool {
    (a && b) || (a && c) || (b && c)
}

/// The carry into bit `i` of the addition `x + y`, at the level of bit
/// sequences.
pub open spec fn carry_chain(x: Seq<bool>, y: Seq<bool>, i: int) -> bool
    decreases i,
{
    i > 0 && maj(x[i - 1], y[i - 1], carry_chain(x, y, i - 1))
}

/// Adding `eq & vp` to `vp`, folding the sum back with `^ vp` and
/// `| eq`, yields exactly the diagonal-zero bits: the carry chain
/// propagates matches upward through runs of set `vp` bits.
pub proof fn lemma_d0_from_carry(eq: Seq<bool>, vp: Seq<bool>, a: Seq<bool>, i: int)
    requires
        0 <= i,
        forall|k: int| 0 <= k <= i ==> #[trigger] a[k] == (eq[k] && vp[k]),
    ensures
        ((a[i] != carry_chain(a, vp, i)) || eq[i]) == d0_bit(eq, vp, i),
        carry_chain(a, vp, i) == (i > 0 && vp[i - 1] && d0_bit(eq, vp, i - 1)),
    decreases i,
{
    if i > 0 {
        lemma_d0_from_carry(eq, vp, a, i - 1);
    }
}

/// Bit `i` of the diagonal-zero word `d0 = (((eq & vp) + vp) ^ vp) | eq`,
/// written through the recurrence its addition's carry chain satisfies: a
/// match at `i`, or a carry propagated from below through a set
/// vertical-positive bit.
pub open spec fn d0_bit(eq: Seq<bool>, vp: Seq<bool>, i: int) -> bool
    decreases i,
{
    eq[i] || (i > 0 && vp[i - 1] && d0_bit(eq, vp, i - 1))
}

/// Bit `i` of the horizontal-positive word `hp = vn | !(vp | d0)`.
pub open spec fn hp_bit(eq: Seq<bool>, vp: Seq<bool>, vn: Seq<bool>, i: int) -> bool {
    vn[i] || !(vp[i] || d0_bit(eq, vp, i))
}

/// Bit `i` of the horizontal-negative word `hn = vp & d0`.
pub open spec fn hn_bit(eq: Seq<bool>, vp: Seq<bool>, i: int) -> bool {
    vp[i] && d0_bit(eq, vp, i)
}

/// Bit `i` of the shifted word `(hp << 1) | 1`: the horizontal delta
/// entering row `i + 1`.  The injected one encodes the matrix's top
/// boundary row, which always increases along the text.
pub open spec fn hp_in_bit(eq: Seq<bool>, vp: Seq<bool>, vn: Seq<bool>, i: int) -> bool {
    i == 0 || hp_bit(eq, vp, vn, i - 1)
}

/// Bit `i` of the shifted word `hn << 1`.
pub open spec fn hn_in_bit(eq: Seq<bool>, vp: Seq<bool>, i: int) -> bool {
    i > 0 && hn_bit(eq, vp, i - 1)
}

/// Bit `i` of the word `xh = eq | vn`.
pub open spec fn xh_bit(eq: Seq<bool>, vn: Seq<bool>, i: int) -> bool {
    eq[i] || vn[i]
}

/// Bit `i` of the next vertical-positive word
/// `vp' = (hn << 1) | !(xv | ((hp << 1) | 1))`.
pub open spec fn vp_next_bit(eq: Seq<bool>, vp: Seq<bool>, vn: Seq<bool>, i: int) -> bool {
    hn_in_bit(eq, vp, i) || !(xh_bit(eq, vn, i) || hp_in_bit(eq, vp, vn, i))
}

/// Bit `i` of the next vertical-negative word `vn' = ((hp << 1) | 1) & xv`.
pub open spec fn vn_next_bit(eq: Seq<bool>, vp: Seq<bool>, vn: Seq<bool>, i: int) -> bool {
    hp_in_bit(eq, vp, vn, i) && xh_bit(eq, vn, i)
}

/// The equality mask for text character `c`: bit `i` is set exactly when
/// the pattern has `c` at position `i`.
pub open spec fn eq_matches(eq: Seq<bool>, p: Seq<u8>, c: u8) -> bool {
    forall|i: int| 0 <= i < p.len() ==> #[trigger] eq[i] == (p[i] == c)
}

/// The state `(vp, vn)` describes column `j` of the matrix: for every
/// pattern position, the bits record whether the cell below exceeds or
/// undercuts the cell above by one.
pub open spec fn tracks_col(vp: Seq<bool>, vn: Seq<bool>, p: Seq<u8>, t: Seq<u8>, j: int) -> bool {
    &&& forall|i: int|
        0 <= i < p.len() ==> #[trigger] vp[i] == (dcell(p, t, j, i + 1) - dcell(p, t, j, i) == 1)
    &&& forall|i: int|
        0 <= i < p.len() ==> #[trigger] vn[i] == (dcell(p, t, j, i + 1) - dcell(p, t, j, i) == -1)
}

/// The top boundary row of the matrix: aligning nothing against `j` text
/// characters costs `j` insertions.
pub proof fn lemma_dcell_base(p: Seq<u8>, t: Seq<u8>, j: int)
    requires
        0 <= j <= t.len(),
    ensures
        dcell(p, t, j, 0) == j,
{
    assert(p.take(0).len() == 0);
    assert(t.take(j).len() == j);
}

/// The left boundary column of the matrix: aligning `i` pattern
/// characters against nothing costs `i` deletions.
pub proof fn lemma_dcell_left(p: Seq<u8>, t: Seq<u8>, i: int)
    requires
        0 <= i <= p.len(),
    ensures
        dcell(p, t, 0, i) == i,
{
    assert(t.take(0).len() == 0);
    assert(p.take(i).len() == i);
}

/// The defining recurrence of the matrix, cell by cell.
pub proof fn lemma_dcell_recurrence(p: Seq<u8>, t: Seq<u8>, j: int, i: int)
    requires
        1 <= i <= p.len(),
        1 <= j <= t.len(),
    ensures
        dcell(p, t, j, i) == min3(
            dcell(p, t, j - 1, i - 1) + (if p[i - 1] == t[j - 1] {
                0int
            } else {
                1int
            }),
            dcell(p, t, j - 1, i) + 1,
            dcell(p, t, j, i - 1) + 1,
        ),
{
    let pi = p.take(i);
    let tj = t.take(j);
    assert(pi.len() == i && tj.len() == j);
    assert(pi.drop_last() =~= p.take(i - 1));
    assert(tj.drop_last() =~= t.take(j - 1));
    assert(pi.last() == p[i - 1]);
    assert(tj.last() == t[j - 1]);
}

/// Vertically adjacent cells differ by at most one.
pub proof fn lemma_dcell_vert(p: Seq<u8>, t: Seq<u8>, j: int, i: int)
    requires
        0 <= i < p.len(),
        0 <= j <= t.len(),
    ensures
        -1 <= dcell(p, t, j, i + 1) - dcell(p, t, j, i) <= 1,
{
    assert(p.take(i + 1) =~= p.take(i).push(p[i]));
    lemma_lev_pattern_adjacent(p.take(i), p[i], t.take(j));
}

/// Horizontally adjacent cells differ by at most one.
pub proof fn lemma_dcell_horiz(p: Seq<u8>, t: Seq<u8>, j: int, i: int)
    requires
        0 <= i <= p.len(),
        0 <= j < t.len(),
    ensures
        -1 <= dcell(p, t, j + 1, i) - dcell(p, t, j, i) <= 1,
{
    assert(t.take(j + 1) =~= t.take(j).push(t[j]));
    lemma_lev_text_adjacent(p.take(i), t.take(j), t[j]);
}

/// One step of the recurrence, seen at a single bit: if the state
/// describes column `j`, then the horizontal words describe the deltas
/// between columns `j` and `j + 1`, and the next vertical words describe
/// column `j + 1`.
proof fn lemma_step_bit(
    eq: Seq<bool>,
    vp: Seq<bool>,
    vn: Seq<bool>,
    p: Seq<u8>,
    t: Seq<u8>,
    j: int,
    i: int,
)
    requires
        0 <= j < t.len(),
        0 <= i < p.len(),
        eq_matches(eq, p, t[j]),
        tracks_col(vp, vn, p, t, j),
    ensures
        hp_bit(eq, vp, vn, i) == (dcell(p, t, j + 1, i + 1) - dcell(p, t, j, i + 1) == 1),
        hn_bit(eq, vp, i) == (dcell(p, t, j + 1, i + 1) - dcell(p, t, j, i + 1) == -1),
        vp_next_bit(eq, vp, vn, i) == (dcell(p, t, j + 1, i + 1) - dcell(p, t, j + 1, i) == 1),
        vn_next_bit(eq, vp, vn, i) == (dcell(p, t, j + 1, i + 1) - dcell(p, t, j + 1, i) == -1),
    decreases i,
{
    let dv: int = dcell(p, t, j, i + 1) - dcell(p, t, j, i);
    let h: int = dcell(p, t, j + 1, i) - dcell(p, t, j, i);
    lemma_dcell_vert(p, t, j, i);
    lemma_dcell_horiz(p, t, j, i);
    lemma_dcell_recurrence(p, t, j + 1, i + 1);
    let cost: int = if p[i] == t[j] {
        0int
    } else {
        1int
    };
    let g: int = dcell(p, t, j + 1, i + 1) - dcell(p, t, j, i);
    assert(g == min3(cost, dv + 1, h + 1));
    assert(0 <= g <= 1);
    // The carry entering bit `i` is exactly a horizontal-negative delta
    // entering row `i`.
    if i == 0 {
        lemma_dcell_base(p, t, j);
        lemma_dcell_base(p, t, j + 1);
        assert(h == 1);
        assert(d0_bit(eq, vp, 0) == eq[0]);
    } else {
        lemma_step_bit(eq, vp, vn, p, t, j, i - 1);
        assert(d0_bit(eq, vp, i) == (eq[i] || hn_bit(eq, vp, i - 1)));
    }
    assert(d0_bit(eq, vp, i) == (eq[i] || h == -1));
    assert(eq[i] == (cost == 0));
    assert(vp[i] == (dv == 1));
    assert(vn[i] == (dv == -1));
    // The remaining reasoning is a finite case analysis over
    // `cost`, `dv` and `h`.
    assert(dcell(p, t, j + 1, i + 1) - dcell(p, t, j, i + 1) == g - dv);
    assert(dcell(p, t, j + 1, i + 1) - dcell(p, t, j + 1, i) == g - h);
    if vn[i] {
        assert(g == 0);
    }
    if h == -1 {
        assert(g == 0);
    }
}

/// One full step: from a state describing column `j`, the recurrence
/// produces a state describing column `j + 1`.
pub proof fn lemma_step_col(
    eq: Seq<bool>,
    vp: Seq<bool>,
    vn: Seq<bool>,
    vp_next: Seq<bool>,
    vn_next: Seq<bool>,
    p: Seq<u8>,
    t: Seq<u8>,
    j: int,
)
    requires
        0 <= j < t.len(),
        eq_matches(eq, p, t[j]),
        tracks_col(vp, vn, p, t, j),
        forall|i: int|
            0 <= i < p.len() ==> #[trigger] vp_next[i] == vp_next_bit(eq, vp, vn, i),
        forall|i: int|
            0 <= i < p.len() ==> #[trigger] vn_next[i] == vn_next_bit(eq, vp, vn, i),
    ensures
        tracks_col(vp_next, vn_next, p, t, j + 1),
{
    assert forall|i: int| 0 <= i < p.len() implies #[trigger] vp_next[i] == (dcell(p, t, j + 1, i + 1)
        - dcell(p, t, j + 1, i) == 1) by {
        lemma_step_bit(eq, vp, vn, p, t, j, i);
    }
    assert forall|i: int| 0 <= i < p.len() implies #[trigger] vn_next[i] == (dcell(p, t, j + 1, i + 1)
        - dcell(p, t, j + 1, i) == -1) by {
        lemma_step_bit(eq, vp, vn, p, t, j, i);
    }
}

/// The initial state: before any text character, every vertical delta is
/// `+1` (column zero of the matrix counts pattern prefixes).
pub proof fn lemma_init_col(vp: Seq<bool>, vn: Seq<bool>, p: Seq<u8>, t: Seq<u8>)
    requires
        forall|i: int| 0 <= i < p.len() ==> #[trigger] vp[i] == true,
        forall|i: int| 0 <= i < p.len() ==> #[trigger] vn[i] == false,
    ensures
        tracks_col(vp, vn, p, t, 0),
{
    assert forall|i: int| 0 <= i < p.len() implies #[trigger] dcell(p, t, 0, i + 1) - dcell(
        p,
        t,
        0,
        i,
    ) == 1 by {
        lemma_dcell_left(p, t, i);
        lemma_dcell_left(p, t, i + 1);
    }
}

/// The number of set bits among the first `k` bits of `s`.
pub open spec fn count_bits(s: Seq<bool>, k: int) -> int
    decreases k,
{
    if k <= 0 {
        0
    } else {
        count_bits(s, k - 1) + if s[k - 1] {
            1int
        } else {
            0int
        }
    }
}

/// Sequences that agree on a prefix have the same count over it.
pub proof fn lemma_count_bits_agree(s1: Seq<bool>, s2: Seq<bool>, k: int)
    requires
        forall|i: int| 0 <= i < k ==> s1[i] == s2[i],
    ensures
        count_bits(s1, k) == count_bits(s2, k),
    decreases k,
{
    if k > 0 {
        lemma_count_bits_agree(s1, s2, k - 1);
    }
}

/// Clear bits beyond a prefix do not change the count.
pub proof fn lemma_count_bits_zero_tail(s: Seq<bool>, m: int, k: int)
    requires
        0 <= m <= k,
        forall|i: int| m <= i < k ==> !(#[trigger] s[i]),
    ensures
        count_bits(s, k) == count_bits(s, m),
    decreases k,
{
    if k > m {
        lemma_count_bits_zero_tail(s, m, k - 1);
    }
}

/// Counting over a range that is the image of a smaller sequence splits
/// into the count below and the count of that sequence.
pub proof fn lemma_count_bits_concat(s: Seq<bool>, base: int, sub: Seq<bool>, n: int)
    requires
        0 <= base,
        0 <= n,
        forall|j: int| 0 <= j < n ==> s[base + j] == sub[j],
    ensures
        count_bits(s, base + n) == count_bits(s, base) + count_bits(sub, n),
    decreases n,
{
    if n > 0 {
        lemma_count_bits_concat(s, base, sub, n - 1);
    }
}

proof fn lemma_score_prefix(vp: Seq<bool>, vn: Seq<bool>, p: Seq<u8>, t: Seq<u8>, i: int)
    requires
        tracks_col(vp, vn, p, t, t.len() as int),
        0 <= i <= p.len(),
    ensures
        dcell(p, t, t.len() as int, i) == t.len() + count_bits(vp, i) - count_bits(vn, i),
    decreases i,
{
    if i == 0 {
        lemma_dcell_base(p, t, t.len() as int);
    } else {
        lemma_score_prefix(vp, vn, p, t, i - 1);
        lemma_dcell_vert(p, t, t.len() as int, i - 1);
    }
}

/// After the whole text has been consumed, the masked popcounts of the
/// vertical words recover the distance: the final column's bottom cell is
/// the text length plus the sum of all vertical deltas.
pub proof fn lemma_final_score(vp: Seq<bool>, vn: Seq<bool>, p: Seq<u8>, t: Seq<u8>)
    requires
        tracks_col(vp, vn, p, t, t.len() as int),
    ensures
        lev(p, t) == t.len() + count_bits(vp, p.len() as int) - count_bits(vn, p.len() as int),
{
    lemma_score_prefix(vp, vn, p, t, p.len() as int);
    assert(p.take(p.len() as int) =~= p);
    assert(t.take(t.len() as int) =~= t);
}

} // verus!
