//! The pattern-equivalence table ("Peq"): for every possible byte value, a
//! register-wide bitmask of the pattern positions holding that byte.

use crate::bits::{lemma_all_ones_bits, lemma_bitop_bits, lemma_one_shl_bits, word_bits};
use vstd::prelude::*;

verus! {

broadcast use vstd::array::group_array_axioms;

/// The minimal operations a fixed-width register type must support to
/// take part in the algorithm.
pub trait Word: Sized + Copy {
    /// The register width in bits.
    spec fn wwidth() -> nat;

    /// The register width in bits, as a runtime value.
    fn width() -> (r: usize)
        ensures
            r == Self::wwidth(),
    ;

    /// The register as a sequence of bits, least significant first.
    spec fn wbits(&self) -> Seq<bool>;

    /// Every register carries exactly `wwidth()` bits, and the width is
    /// positive.
    proof fn lemma_wbits_len(&self)
        ensures
            self.wbits().len() == Self::wwidth(),
            Self::wwidth() >= 1,
    ;

    /// The all-zero register.
    fn zero() -> (r: Self)
        ensures
            forall|k: int| 0 <= k < Self::wwidth() ==> !(#[trigger] r.wbits()[k]),
    ;

    /// A register with exactly bit `i` set.  The bit index must be in
    /// range; there is no runtime check.
    fn bit_at_unchecked(i: usize) -> (r: Self)
        requires
            i < Self::wwidth(),
        ensures
            forall|k: int| 0 <= k < Self::wwidth() ==> #[trigger] r.wbits()[k] == (k == i),
    ;

    /// The bitwise OR of two registers.
    fn bit_or(self, rhs: Self) -> (r: Self)
        ensures
            forall|k: int|
                0 <= k < Self::wwidth() ==> #[trigger] r.wbits()[k] == (self.wbits()[k]
                    || rhs.wbits()[k]),
    ;
}

impl Word for u64 {
    open spec fn wwidth() -> nat {
        64
    }

    fn width() -> (r: usize)
        ensures
            r == Self::wwidth(),
    {
        64
    }

    open spec fn wbits(&self) -> Seq<bool> {
        word_bits(*self)
    }

    proof fn lemma_wbits_len(&self) {
    }

    fn zero() -> (r: u64)
        ensures
            forall|k: int| 0 <= k < Self::wwidth() ==> !(#[trigger] r.wbits()[k]),
    {
        proof {
            assert forall|k: int| 0 <= k < 64 implies !(#[trigger] word_bits(0u64)[k]) by {
                lemma_all_ones_bits(k as u64);
            }
        }
        0u64
    }

    fn bit_at_unchecked(i: usize) -> (r: u64)
        ensures
            forall|k: int| 0 <= k < Self::wwidth() ==> #[trigger] r.wbits()[k] == (k == i),
    {
        let r = 1u64 << (i as u64);
        proof {
            assert forall|k: int| 0 <= k < 64 implies #[trigger] word_bits(r)[k] == (k == i) by {
                lemma_one_shl_bits(i as u64, k as u64);
            }
        }
        r
    }

    fn bit_or(self, rhs: u64) -> (r: u64)
        ensures
            forall|k: int|
                0 <= k < Self::wwidth() ==> #[trigger] r.wbits()[k] == (self.wbits()[k]
                    || rhs.wbits()[k]),
    {
        proof {
            assert forall|k: int| 0 <= k < 64 implies #[trigger] word_bits(self | rhs)[k] == (
            word_bits(self)[k] || word_bits(rhs)[k]) by {
                lemma_bitop_bits(self, rhs, k as u64);
            }
        }
        self | rhs
    }
}

/// The pattern-equivalence table over a register type `T`, together with
/// the recorded pattern length.  The pattern itself is carried as a ghost
/// field so that contracts can speak of it; the table is only ever
/// written by the constructors, which protects the length invariant.
pub struct SingleWordPeq<T> {
    peq: [T; 256],
    len: usize,
    pattern: Ghost<Seq<u8>>,
}

impl<T: Word> SingleWordPeq<T> {
    /// The pattern this table was built from.
    pub closed spec fn pattern(&self) -> Seq<u8> {
        self.pattern@
    }

    /// Table invariant: the recorded length is the pattern length, the
    /// pattern fits the register, and entry `c` has bit `i` set exactly
    /// when the pattern holds byte `c` at position `i`.
    pub closed spec fn wf(&self) -> bool {
        &&& self.len == self.pattern@.len()
        &&& self.pattern@.len() <= T::wwidth()
        &&& forall|c: u8, i: int|
            0 <= i < T::wwidth() ==> #[trigger] self.peq[c as int].wbits()[i] == (i
                < self.pattern@.len() && self.pattern@[i] == c)
    }

    /// A well-formed table's pattern fits the register width.
    pub proof fn lemma_wf_pattern_fits(&self)
        requires
            self.wf(),
        ensures
            self.pattern().len() <= T::wwidth(),
    {
    }

    /// Build the table from pattern bytes.  The pattern must fit in the
    /// register; `try_` entry points check this before calling.
    pub fn from_bytes(s: &[u8]) -> (r: Self)
        requires
            s@.len() <= T::wwidth(),
        ensures
            r.wf(),
            r.pattern() == s@,
    {
        let zero_entry = T::zero();
        let mut table: [T; 256] = vstd::array::array_fill_for_copy_types(zero_entry);
        proof {
            zero_entry.lemma_wbits_len();
        }
        let mut idx: usize = 0;
        while idx < s.len()
            invariant
                idx <= s@.len(),
                s@.len() <= T::wwidth(),
                forall|c: u8, i: int|
                    0 <= i < T::wwidth() ==> #[trigger] table[c as int].wbits()[i] == (i < idx
                        && s@[i] == c),
            decreases s@.len() - idx,
        {
            let x = s[idx];
            let b = T::bit_at_unchecked(idx);
            let merged = table[x as usize].bit_or(b);
            let ghost old_table = table;
            table[x as usize] = merged;
            proof {
                assert forall|c: u8, i: int| 0 <= i < T::wwidth() implies #[trigger] table[c as int].wbits()[i]
                    == (i < idx + 1 && s@[i] == c) by {
                    if c == x {
                        assert(table[c as int] == merged);
                        assert(merged.wbits()[i] == (old_table[c as int].wbits()[i]
                            || b.wbits()[i]));
                    } else {
                        assert(table[c as int] == old_table[c as int]);
                    }
                }
            }
            idx = idx + 1;
        }
        SingleWordPeq { peq: table, len: s.len(), pattern: Ghost(s@) }
    }

    /// Fallible counterpart of [`Self::from_bytes`]: reports an
    /// out-of-range pattern length instead of requiring the caller to
    /// have checked it.
    pub fn try_from_bytes(s: &[u8]) -> (r: Result<Self, crate::PatternTooLong>)
        ensures
            r is Ok <==> s@.len() <= T::wwidth(),
            r is Ok ==> r->Ok_0.wf() && r->Ok_0.pattern() == s@,
            r is Err ==> r == Result::<Self, crate::PatternTooLong>::Err(crate::PatternTooLong),
    {
        if s.len() > T::width() {
            Err(crate::PatternTooLong)
        } else {
            Ok(Self::from_bytes(s))
        }
    }

    /// String-based constructor: rejects non-ASCII input, then delegates
    /// to the byte constructor.
    pub fn from_ascii(s: &str) -> (r: Result<Self, crate::NotAscii>)
        requires
            s@.len() <= T::wwidth(),
        ensures
            r is Ok <==> vstd::string::is_ascii(s),
            r is Ok ==> r->Ok_0.wf() && r->Ok_0.pattern() == Seq::new(
                s@.len(),
                |i: int| s@[i] as u8,
            ),
            r is Err ==> r == Result::<Self, crate::NotAscii>::Err(crate::NotAscii),
    {
        if !s.is_ascii() {
            Err(crate::NotAscii)
        } else {
            proof {
                vstd::string::is_ascii_spec_bytes(s);
            }
            let bytes = s.as_bytes();
            Ok(Self::from_bytes(bytes))
        }
    }

    /// The table entry for byte `c`: the mask of pattern positions
    /// holding `c`.
    pub fn get(&self, c: u8) -> (r: T)
        requires
            self.wf(),
        ensures
            forall|i: int|
                0 <= i < T::wwidth() ==> #[trigger] r.wbits()[i] == (i < self.pattern().len()
                    && self.pattern()[i] == c),
    {
        self.peq[c as usize]
    }

    /// The recorded pattern length, in bytes.
    pub fn len(&self) -> (r: usize)
        requires
            self.wf(),
        ensures
            r == self.pattern().len(),
    {
        self.len
    }

    /// Whether the pattern was empty.
    pub fn is_empty(&self) -> (r: bool)
        requires
            self.wf(),
        ensures
            r == (self.pattern().len() == 0),
    {
        self.len == 0
    }
}

} // verus!
