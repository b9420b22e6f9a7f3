//! The wide backend: Myers' recurrence on a 512-bit register emulated as
//! eight 64-bit lanes, composed from the wide-integer primitives.

use crate::lev::{lemma_lev_length_lower_bound, lemma_lev_upper_bound, lev};
use crate::model::{
    eq_matches, lemma_count_bits_agree, lemma_count_bits_zero_tail, lemma_d0_from_carry,
    lemma_final_score, lemma_init_col, lemma_step_col, tracks_col, vn_next_bit, vp_next_bit,
};
use crate::peq::{SingleWordPeq, Word};
use crate::wide::{
    add512, and512, mask_upto_512, not512, one512, ones512, or512, popcount512, shl1_512,
    wide_bits, xor512, zero512, Wide512,
};
use crate::PatternTooLong;
use vstd::prelude::*;

verus! {

/// Compute the distance from a prebuilt pattern-equivalence table over
/// the wide register, streaming the text once through the bit-parallel
/// recurrence.
pub fn myers_ed_single_avx512_with_peq(peq: &SingleWordPeq<Wide512>, b: &[u8]) -> (r: usize)
    requires
        peq.wf(),
    ensures
        r == lev(peq.pattern(), b@),
{
    let ghost p = peq.pattern();
    proof {
        peq.lemma_wf_pattern_fits();
        assert(p.len() <= 512);
    }
    // Vertical positive delta bit-vector.
    let mut vp = ones512();
    // Vertical negative delta bit-vector.
    let mut vn = zero512();
    proof {
        lemma_init_col(wide_bits(vp), wide_bits(vn), p, b@);
    }
    let mut j: usize = 0;
    while j < b.len()
        invariant
            peq.wf(),
            p == peq.pattern(),
            p.len() <= 512,
            j <= b@.len(),
            tracks_col(wide_bits(vp), wide_bits(vn), p, b@, j as int),
        decreases b@.len() - j,
    {
        // Equality mask for the current text byte.
        let x = b[j];
        let eq = peq.get(x);
        // Diagonal zero delta bit-vector: d0 = (((eq & vp) + vp) ^ vp) | eq,
        // with the addition carried across all eight lanes.
        let av = and512(&eq, &vp);
        let sum = add512(&av, &vp);
        let sx = xor512(&sum, &vp);
        let d0 = or512(&sx, &eq);
        // Horizontal delta bit-vectors: hp = vn | !(vp | d0), hn = vp & d0.
        let vpd0 = or512(&vp, &d0);
        let nvpd0 = not512(&vpd0);
        let hp = or512(&vn, &nvpd0);
        let hn = and512(&vp, &d0);
        // Intermediate mask for the next column's vertical delta bits.
        let xh = or512(&eq, &vn);
        // Move one column right in the matrix: hp = (hp << 1) | 1.
        let one = one512();
        let hps = shl1_512(&hp);
        let hp2 = or512(&hps, &one);
        let hn2 = shl1_512(&hn);
        // Next vertical delta bit-vectors.
        let xh_hp = or512(&xh, &hp2);
        let n_xh_hp = not512(&xh_hp);
        let vp_new = or512(&hn2, &n_xh_hp);
        let vn_new = and512(&hp2, &xh);
        proof {
            assert forall|i: int| 0 <= i < p.len() implies #[trigger] wide_bits(eq)[i] == (p[i]
                == x) by {
                assert(eq.wbits()[i] == (i < p.len() && p[i] == x));
            }
            assert(eq_matches(wide_bits(eq), p, b@[j as int]));
            assert forall|i: int|
                0 <= i < 512 implies #[trigger] wide_bits(vp_new)[i] == vp_next_bit(
                wide_bits(eq),
                wide_bits(vp),
                wide_bits(vn),
                i,
            ) by {
                lemma_d0_from_carry(wide_bits(eq), wide_bits(vp), wide_bits(av), i);
                if i > 0 {
                    lemma_d0_from_carry(wide_bits(eq), wide_bits(vp), wide_bits(av), i - 1);
                }
            }
            assert forall|i: int|
                0 <= i < 512 implies #[trigger] wide_bits(vn_new)[i] == vn_next_bit(
                wide_bits(eq),
                wide_bits(vp),
                wide_bits(vn),
                i,
            ) by {
                lemma_d0_from_carry(wide_bits(eq), wide_bits(vp), wide_bits(av), i);
                if i > 0 {
                    lemma_d0_from_carry(wide_bits(eq), wide_bits(vp), wide_bits(av), i - 1);
                }
            }
            lemma_step_col(
                wide_bits(eq),
                wide_bits(vp),
                wide_bits(vn),
                wide_bits(vp_new),
                wide_bits(vn_new),
                p,
                b@,
                j as int,
            );
        }
        vp = vp_new;
        vn = vn_new;
        j = j + 1;
    }
    // Restrict to the bits that correspond to real pattern positions.
    let m = mask_upto_512(peq.len());
    let vp_masked = and512(&vp, &m);
    let vn_masked = and512(&vn, &m);
    let cp = popcount512(&vp_masked);
    let cn = popcount512(&vn_masked);
    proof {
        let plen = p.len() as int;
        lemma_count_bits_zero_tail(wide_bits(vp_masked), plen, 512);
        lemma_count_bits_agree(wide_bits(vp_masked), wide_bits(vp), plen);
        lemma_count_bits_zero_tail(wide_bits(vn_masked), plen, 512);
        lemma_count_bits_agree(wide_bits(vn_masked), wide_bits(vn), plen);
        lemma_final_score(wide_bits(vp), wide_bits(vn), p, b@);
        lemma_lev_length_lower_bound(p, b@);
        lemma_lev_upper_bound(p, b@);
    }
    let total = (b.len() as u128) + (cp as u128) - (cn as u128);
    total as usize
}

/// Compute the edit distance between `a` and `b` with the wide backend.
/// The pattern `a` must be at most 512 bytes; `b` can have any length.
pub fn myers_ed_single_avx512(a: &[u8], b: &[u8]) -> (r: usize)
    requires
        a@.len() <= 512,
    ensures
        r == lev(a@, b@),
{
    let peq = SingleWordPeq::<Wide512>::from_bytes(a);
    myers_ed_single_avx512_with_peq(&peq, b)
}

/// Fallible variant of [`myers_ed_single_avx512`]: reports a pattern
/// longer than the 512-bit register instead of requiring the caller to
/// have checked it.
pub fn try_myers_ed_single_avx512(a: &[u8], b: &[u8]) -> (r: Result<usize, PatternTooLong>)
    ensures
        r is Ok <==> a@.len() <= 512,
        r is Ok ==> r->Ok_0 == lev(a@, b@),
        r is Err ==> r == Result::<usize, PatternTooLong>::Err(PatternTooLong),
{
    if a.len() > 512 {
        return Err(PatternTooLong);
    }
    let peq = SingleWordPeq::<Wide512>::from_bytes(a);
    Ok(myers_ed_single_avx512_with_peq(&peq, b))
}

/// Backend equivalence: for a pattern that fits the machine word, a
/// result meeting the scalar backend's contract and a result meeting the
/// wide backend's contract are the same number, because both equal the
/// Levenshtein distance of the pair.
pub proof fn lemma_backends_agree(p: Seq<u8>, t: Seq<u8>, scalar_r: usize, wide_r: usize)
    requires
        p.len() <= 64,
        scalar_r == lev(p, t),
        wide_r == lev(p, t),
    ensures
        scalar_r == wide_r,
{
}

} // verus!
