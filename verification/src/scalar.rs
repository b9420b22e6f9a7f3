//! The scalar backend: Myers' recurrence on a single 64-bit machine word.

use crate::bits::{
    bit64, lemma_all_ones_bits, lemma_bitop_bits, lemma_d0_word, lemma_shl1_bits, mask_low_bits,
    popcount64, word_bits,
};
use crate::lev::{lemma_lev_length_lower_bound, lemma_lev_upper_bound, lev};
use crate::model::{
    eq_matches, lemma_count_bits_agree, lemma_count_bits_zero_tail, lemma_final_score,
    lemma_init_col, lemma_step_col, tracks_col, vn_next_bit, vp_next_bit,
};
use crate::peq::{SingleWordPeq, Word};
use crate::PatternTooLong;
use vstd::prelude::*;

verus! {

/// One step of the recurrence on machine words produces exactly the
/// model's next-state bits.
proof fn lemma_scalar_step_words(
    eq: u64,
    vp: u64,
    vn: u64,
    sum: u64,
    d0: u64,
    hp: u64,
    hn: u64,
    xh: u64,
    hp2: u64,
    hn2: u64,
    vp_new: u64,
    vn_new: u64,
)
    requires
        sum == (eq & vp) + vp || sum == (eq & vp) + vp - 0x1_0000_0000_0000_0000,
        d0 == (sum ^ vp) | eq,
        hp == vn | !(vp | d0),
        hn == vp & d0,
        xh == eq | vn,
        hp2 == (hp << 1u64) | 1,
        hn2 == hn << 1u64,
        vp_new == hn2 | !(xh | hp2),
        vn_new == hp2 & xh,
    ensures
        forall|i: int|
            0 <= i < 64 ==> #[trigger] word_bits(vp_new)[i] == vp_next_bit(
                word_bits(eq),
                word_bits(vp),
                word_bits(vn),
                i,
            ),
        forall|i: int|
            0 <= i < 64 ==> #[trigger] word_bits(vn_new)[i] == vn_next_bit(
                word_bits(eq),
                word_bits(vp),
                word_bits(vn),
                i,
            ),
{
    assert forall|i: int|
        0 <= i < 64 implies #[trigger] word_bits(vp_new)[i] == vp_next_bit(
        word_bits(eq),
        word_bits(vp),
        word_bits(vn),
        i,
    ) by {
        lemma_scalar_step_bit(eq, vp, vn, sum, d0, hp, hn, xh, hp2, hn2, vp_new, vn_new, i);
    }
    assert forall|i: int|
        0 <= i < 64 implies #[trigger] word_bits(vn_new)[i] == vn_next_bit(
        word_bits(eq),
        word_bits(vp),
        word_bits(vn),
        i,
    ) by {
        lemma_scalar_step_bit(eq, vp, vn, sum, d0, hp, hn, xh, hp2, hn2, vp_new, vn_new, i);
    }
}

/// The per-bit core of [`lemma_scalar_step_words`].
proof fn lemma_scalar_step_bit(
    eq: u64,
    vp: u64,
    vn: u64,
    sum: u64,
    d0: u64,
    hp: u64,
    hn: u64,
    xh: u64,
    hp2: u64,
    hn2: u64,
    vp_new: u64,
    vn_new: u64,
    i: int,
)
    requires
        sum == (eq & vp) + vp || sum == (eq & vp) + vp - 0x1_0000_0000_0000_0000,
        d0 == (sum ^ vp) | eq,
        hp == vn | !(vp | d0),
        hn == vp & d0,
        xh == eq | vn,
        hp2 == (hp << 1u64) | 1,
        hn2 == hn << 1u64,
        vp_new == hn2 | !(xh | hp2),
        vn_new == hp2 & xh,
        0 <= i < 64,
    ensures
        word_bits(vp_new)[i] == vp_next_bit(word_bits(eq), word_bits(vp), word_bits(vn), i),
        word_bits(vn_new)[i] == vn_next_bit(word_bits(eq), word_bits(vp), word_bits(vn), i),
{
    let iu = i as u64;
    lemma_d0_word(eq, vp, sum, iu);
    lemma_bitop_bits(vp, d0, iu);
    lemma_bitop_bits(vp | d0, d0, iu);
    lemma_bitop_bits(vn, !(vp | d0), iu);
    lemma_bitop_bits(eq, vn, iu);
    lemma_shl1_bits(hp, iu);
    lemma_shl1_bits(hp << 1u64, iu);
    lemma_shl1_bits(hn, iu);
    lemma_bitop_bits(xh, hp2, iu);
    lemma_bitop_bits(xh | hp2, xh, iu);
    lemma_bitop_bits(hn2, !(xh | hp2), iu);
    lemma_bitop_bits(hp2, xh, iu);
    if iu >= 1 {
        let pu = (iu - 1) as u64;
        lemma_d0_word(eq, vp, sum, pu);
        lemma_bitop_bits(vp, d0, pu);
        lemma_bitop_bits(vp | d0, d0, pu);
        lemma_bitop_bits(vn, !(vp | d0), pu);
    }
}

/// Compute the distance from a prebuilt pattern-equivalence table,
/// streaming the text once through the bit-parallel recurrence.
pub fn myers_ed_single_scalar_with_peq(peq: &SingleWordPeq<u64>, b: &[u8]) -> (r: usize)
    requires
        peq.wf(),
    ensures
        r == lev(peq.pattern(), b@),
{
    let ghost p = peq.pattern();
    proof {
        peq.lemma_wf_pattern_fits();
        assert(p.len() <= 64);
    }
    // Vertical positive delta bit-vector.
    let mut vp: u64 = 0xFFFF_FFFF_FFFF_FFFFu64;
    // Vertical negative delta bit-vector.
    let mut vn: u64 = 0u64;
    proof {
        assert forall|i: int| 0 <= i < p.len() implies #[trigger] word_bits(vp)[i] == true by {
            lemma_all_ones_bits(i as u64);
        }
        assert forall|i: int| 0 <= i < p.len() implies #[trigger] word_bits(vn)[i] == false by {
            lemma_all_ones_bits(i as u64);
        }
        lemma_init_col(word_bits(vp), word_bits(vn), p, b@);
    }
    let mut j: usize = 0;
    while j < b.len()
        invariant
            peq.wf(),
            p == peq.pattern(),
            p.len() <= 64,
            j <= b@.len(),
            tracks_col(word_bits(vp), word_bits(vn), p, b@, j as int),
        decreases b@.len() - j,
    {
        // Equality mask for the current text byte.
        let x = b[j];
        let eq = peq.get(x);
        // Diagonal zero delta bit-vector, using wraparound addition.
        let sum = (eq & vp).wrapping_add(vp);
        let d0 = (sum ^ vp) | eq;
        // Horizontal delta bit-vectors.
        let hp = vn | !(vp | d0);
        let hn = vp & d0;
        // Intermediate mask for the next column's vertical delta bits.
        let xh = eq | vn;
        // Move one column right in the matrix.
        let hp2 = (hp << 1u64) | 1;
        let hn2 = hn << 1u64;
        // Next vertical delta bit-vectors.
        let vp_new = hn2 | !(xh | hp2);
        let vn_new = hp2 & xh;
        proof {
            assert forall|i: int| 0 <= i < p.len() implies #[trigger] word_bits(eq)[i] == (p[i]
                == x) by {
                assert(eq.wbits()[i] == (i < p.len() && p[i] == x));
            }
            assert(eq_matches(word_bits(eq), p, b@[j as int]));
            lemma_scalar_step_words(eq, vp, vn, sum, d0, hp, hn, xh, hp2, hn2, vp_new, vn_new);
            lemma_step_col(
                word_bits(eq),
                word_bits(vp),
                word_bits(vn),
                word_bits(vp_new),
                word_bits(vn_new),
                p,
                b@,
                j as int,
            );
        }
        vp = vp_new;
        vn = vn_new;
        j = j + 1;
    }
    // Restrict to the bits that correspond to real pattern positions.
    let m = mask_low_bits(peq.len());
    let vp_masked = vp & m;
    let vn_masked = vn & m;
    let cp = popcount64(vp_masked);
    let cn = popcount64(vn_masked);
    proof {
        let plen = p.len() as int;
        assert forall|i: int| 0 <= i < 64 implies #[trigger] word_bits(vp_masked)[i] == (i < plen
            && word_bits(vp)[i]) by {
            lemma_bitop_bits(vp, m, i as u64);
            assert(word_bits(m)[i] == bit64(m, i as u64));
        }
        assert forall|i: int| 0 <= i < 64 implies #[trigger] word_bits(vn_masked)[i] == (i < plen
            && word_bits(vn)[i]) by {
            lemma_bitop_bits(vn, m, i as u64);
            assert(word_bits(m)[i] == bit64(m, i as u64));
        }
        lemma_count_bits_zero_tail(word_bits(vp_masked), plen, 64);
        lemma_count_bits_agree(word_bits(vp_masked), word_bits(vp), plen);
        lemma_count_bits_zero_tail(word_bits(vn_masked), plen, 64);
        lemma_count_bits_agree(word_bits(vn_masked), word_bits(vn), plen);
        lemma_final_score(word_bits(vp), word_bits(vn), p, b@);
        lemma_lev_length_lower_bound(p, b@);
        lemma_lev_upper_bound(p, b@);
    }
    let total = (b.len() as u128) + (cp as u128) - (cn as u128);
    total as usize
}

/// Compute the edit distance between `a` and `b` with the scalar
/// backend.  The pattern `a` must be at most 64 bytes; `b` can have any
/// length.
pub fn myers_ed_single_scalar(a: &[u8], b: &[u8]) -> (r: usize)
    requires
        a@.len() <= 64,
    ensures
        r == lev(a@, b@),
{
    let peq = SingleWordPeq::<u64>::from_bytes(a);
    myers_ed_single_scalar_with_peq(&peq, b)
}

/// Fallible variant of [`myers_ed_single_scalar`]: reports a pattern
/// longer than the 64-bit word instead of requiring the caller to have
/// checked it.
pub fn try_myers_ed_single_scalar(a: &[u8], b: &[u8]) -> (r: Result<usize, PatternTooLong>)
    ensures
        r is Ok <==> a@.len() <= 64,
        r is Ok ==> r->Ok_0 == lev(a@, b@),
        r is Err ==> r == Result::<usize, PatternTooLong>::Err(PatternTooLong),
{
    if a.len() > 64 {
        return Err(PatternTooLong);
    }
    let peq = SingleWordPeq::<u64>::from_bytes(a);
    Ok(myers_ed_single_scalar_with_peq(&peq, b))
}

} // verus!
