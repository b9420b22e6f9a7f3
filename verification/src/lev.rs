//! The specification of unit-cost Levenshtein edit distance, together with
//! the classical facts about it that the verified engines rely on.

use vstd::prelude::*;

verus! {

/// Minimum of three integers.
pub open spec fn min3(a: int, b: int, c: int) -> int {
    if a <= b && a <= c {
        a
    } else if b <= c {
        b
    } else {
        c
    }
}

/// Unit-cost Levenshtein edit distance between two byte strings: the least
/// number of single-character insertions, deletions and substitutions that
/// turn `p` into `t`, defined by recursion on the last characters.
pub open spec fn lev(p: Seq<u8>, t: Seq<u8>) -> int
    decreases p.len() + t.len(),
{
    if p.len() == 0 {
        t.len() as int
    } else if t.len() == 0 {
        p.len() as int
    } else {
        min3(
            lev(p.drop_last(), t.drop_last()) + (if p.last() == t.last() {
                0int
            } else {
                1int
            }),
            lev(p.drop_last(), t) + 1,
            lev(p, t.drop_last()) + 1,
        )
    }
}

/// The distance is never below the difference of the lengths: every edit
/// changes the length by at most one.
pub proof fn lemma_lev_length_lower_bound(p: Seq<u8>, t: Seq<u8>)
    ensures
        lev(p, t) >= p.len() - t.len(),
        lev(p, t) >= t.len() - p.len(),
        lev(p, t) >= 0,
    decreases p.len() + t.len(),
{
    if p.len() == 0 || t.len() == 0 {
    } else {
        lemma_lev_length_lower_bound(p.drop_last(), t.drop_last());
        lemma_lev_length_lower_bound(p.drop_last(), t);
        lemma_lev_length_lower_bound(p, t.drop_last());
    }
}

/// The distance is never above the longer length: one can always delete all
/// of `p` and insert all of `t`, matching a common prefix for free.
pub proof fn lemma_lev_upper_bound(p: Seq<u8>, t: Seq<u8>)
    ensures
        lev(p, t) <= p.len() + t.len(),
        p.len() <= t.len() ==> lev(p, t) <= t.len(),
        t.len() <= p.len() ==> lev(p, t) <= p.len(),
    decreases p.len() + t.len(),
{
    if p.len() == 0 || t.len() == 0 {
    } else {
        lemma_lev_upper_bound(p.drop_last(), t.drop_last());
        lemma_lev_upper_bound(p.drop_last(), t);
        lemma_lev_upper_bound(p, t.drop_last());
    }
}

/// Appending one character to the pattern changes the distance by at most
/// one in either direction.
pub proof fn lemma_lev_pattern_adjacent(p: Seq<u8>, a: u8, t: Seq<u8>)
    ensures
        lev(p.push(a), t) <= lev(p, t) + 1,
        lev(p, t) <= lev(p.push(a), t) + 1,
    decreases p.len() + t.len(),
{
    assert(p.push(a).drop_last() =~= p);
    assert(p.push(a).last() == a);
    if t.len() == 0 {
    } else {
        // Upper direction: deleting the appended character is one edit.
        assert(lev(p.push(a), t) <= lev(p, t) + 1);
        // Lower direction.
        if p.len() == 0 {
            lemma_lev_length_lower_bound(p.push(a), t);
        } else {
            assert(t.drop_last().push(t.last()) =~= t);
            lemma_lev_text_adjacent(p, t.drop_last(), t.last());
            lemma_lev_pattern_adjacent(p, a, t.drop_last());
        }
    }
}

/// Appending one character to the text changes the distance by at most one
/// in either direction.
pub proof fn lemma_lev_text_adjacent(p: Seq<u8>, t: Seq<u8>, b: u8)
    ensures
        lev(p, t.push(b)) <= lev(p, t) + 1,
        lev(p, t) <= lev(p, t.push(b)) + 1,
    decreases p.len() + t.len(),
{
    assert(t.push(b).drop_last() =~= t);
    assert(t.push(b).last() == b);
    if p.len() == 0 {
    } else {
        assert(lev(p, t.push(b)) <= lev(p, t) + 1);
        if t.len() == 0 {
            lemma_lev_length_lower_bound(p, t.push(b));
        } else {
            assert(p.drop_last().push(p.last()) =~= p);
            lemma_lev_pattern_adjacent(p.drop_last(), p.last(), t);
            lemma_lev_text_adjacent(p.drop_last(), t, b);
        }
    }
}

/// A string is at distance zero from itself.
pub proof fn lemma_lev_self(s: Seq<u8>)
    ensures
        lev(s, s) == 0,
    decreases s.len(),
{
    if s.len() > 0 {
        lemma_lev_self(s.drop_last());
        lemma_lev_length_lower_bound(s.drop_last(), s);
        lemma_lev_length_lower_bound(s, s.drop_last());
    }
}

/// Extending one side by a string costs exactly one insertion per added
/// character.
pub proof fn lemma_lev_extend_text(u: Seq<u8>, y: Seq<u8>)
    ensures
        lev(u, u + y) == y.len(),
    decreases y.len(),
{
    if y.len() == 0 {
        assert(u + y =~= u);
        lemma_lev_self(u);
    } else {
        assert(u + y =~= (u + y.drop_last()).push(y.last()));
        lemma_lev_text_adjacent(u, u + y.drop_last(), y.last());
        lemma_lev_extend_text(u, y.drop_last());
        lemma_lev_length_lower_bound(u, u + y);
    }
}

/// Extending the pattern by a string costs exactly one deletion per
/// added character.
pub proof fn lemma_lev_extend_pattern(u: Seq<u8>, x: Seq<u8>)
    ensures
        lev(u + x, u) == x.len(),
    decreases x.len(),
{
    if x.len() == 0 {
        assert(u + x =~= u);
        lemma_lev_self(u);
    } else {
        assert(u + x =~= (u + x.drop_last()).push(x.last()));
        lemma_lev_pattern_adjacent(u + x.drop_last(), x.last(), u);
        lemma_lev_extend_pattern(u, x.drop_last());
        lemma_lev_length_lower_bound(u + x, u);
    }
}

/// A shared leading string changes nothing: the distance is decided by
/// what follows it.
pub proof fn lemma_lev_common_prefix(u: Seq<u8>, x: Seq<u8>, y: Seq<u8>)
    ensures
        lev(u + x, u + y) == lev(x, y),
    decreases x.len() + y.len(),
{
    if x.len() == 0 && y.len() == 0 {
        assert(u + x =~= u);
        assert(u + y =~= u);
        lemma_lev_self(u);
    } else if x.len() == 0 {
        assert(u + x =~= u);
        lemma_lev_extend_text(u, y);
    } else if y.len() == 0 {
        assert(u + y =~= u);
        lemma_lev_extend_pattern(u, x);
    } else {
        assert((u + x).drop_last() =~= u + x.drop_last());
        assert((u + y).drop_last() =~= u + y.drop_last());
        assert((u + x).last() == x.last());
        assert((u + y).last() == y.last());
        lemma_lev_common_prefix(u, x.drop_last(), y.drop_last());
        lemma_lev_common_prefix(u, x.drop_last(), y);
        lemma_lev_common_prefix(u, x, y.drop_last());
    }
}

/// A shared trailing string changes nothing either.
pub proof fn lemma_lev_common_suffix(x: Seq<u8>, y: Seq<u8>, v: Seq<u8>)
    ensures
        lev(x + v, y + v) == lev(x, y),
    decreases v.len(),
{
    if v.len() == 0 {
        assert(x + v =~= x);
        assert(y + v =~= y);
    } else {
        let v2 = v.drop_last();
        let b = v.last();
        assert((x + v).drop_last() =~= x + v2);
        assert((y + v).drop_last() =~= y + v2);
        assert((x + v).last() == b);
        assert((y + v).last() == b);
        lemma_lev_common_suffix(x, y, v2);
        assert(y + v =~= (y + v2).push(b));
        lemma_lev_text_adjacent(x + v2, y + v2, b);
        assert(x + v =~= (x + v2).push(b));
        lemma_lev_pattern_adjacent(x + v2, b, y + v2);
    }
}

/// The triangle inequality: going through a third string never beats the
/// direct distance.
pub proof fn lemma_lev_triangle(a: Seq<u8>, b: Seq<u8>, c: Seq<u8>)
    ensures
        lev(a, c) <= lev(a, b) + lev(b, c),
    decreases a.len() + b.len() + c.len(),
{
    lemma_lev_length_lower_bound(a, b);
    lemma_lev_length_lower_bound(b, c);
    lemma_lev_length_lower_bound(a, c);
    if b.len() == 0 {
        lemma_lev_upper_bound(a, c);
    } else if a.len() == 0 || c.len() == 0 {
    } else {
        let a2 = a.drop_last();
        let b2 = b.drop_last();
        let c2 = c.drop_last();
        assert(a2.push(a.last()) =~= a);
        assert(c2.push(c.last()) =~= c);
        if lev(a, b) == lev(a2, b) + 1 {
            // The pattern's last character was deleted on the way to `b`.
            lemma_lev_triangle(a2, b, c);
            lemma_lev_pattern_adjacent(a2, a.last(), c);
        } else if lev(b, c) == lev(b, c2) + 1 {
            // The text's last character was inserted after `b`.
            lemma_lev_triangle(a, b, c2);
            lemma_lev_text_adjacent(a, c2, c.last());
        } else if lev(a, b) == lev(a, b2) + 1 {
            if lev(b, c) == lev(b2, c) + 1 {
                lemma_lev_triangle(a, b2, c);
            } else {
                assert(lev(b, c) == lev(b2, c2) + (if b.last() == c.last() {
                    0int
                } else {
                    1int
                }));
                lemma_lev_triangle(a, b2, c2);
                lemma_lev_text_adjacent(a, c2, c.last());
            }
        } else {
            assert(lev(a, b) == lev(a2, b2) + (if a.last() == b.last() {
                0int
            } else {
                1int
            }));
            if lev(b, c) == lev(b2, c) + 1 {
                lemma_lev_triangle(a2, b2, c);
                lemma_lev_pattern_adjacent(a2, a.last(), c);
            } else {
                assert(lev(b, c) == lev(b2, c2) + (if b.last() == c.last() {
                    0int
                } else {
                    1int
                }));
                lemma_lev_triangle(a2, b2, c2);
                // Both steps went diagonally; so can the direct route.
                assert(lev(a, c) <= lev(a2, c2) + (if a.last() == c.last() {
                    0int
                } else {
                    1int
                }));
            }
        }
    }
}

/// One edit is one unit of distance: substituting a character for a
/// different one, inserting a character, or deleting a character, at any
/// position, moves a string to distance exactly one.
pub proof fn lemma_lev_single_edit(u: Seq<u8>, v: Seq<u8>, c: u8, d: u8)
    ensures
        c != d ==> lev(u + seq![c] + v, u + seq![d] + v) == 1,
        lev(u + v, u + seq![c] + v) == 1,
        lev(u + seq![c] + v, u + v) == 1,
{
    let sc = seq![c];
    let sd = seq![d];
    let se = Seq::<u8>::empty();
    assert(u + sc + v =~= u + (sc + v));
    assert(u + sd + v =~= u + (sd + v));
    assert(u + v =~= u + (se + v));
    lemma_lev_common_prefix(u, sc + v, sd + v);
    lemma_lev_common_prefix(u, se + v, sc + v);
    lemma_lev_common_prefix(u, sc + v, se + v);
    lemma_lev_common_suffix(sc, sd, v);
    lemma_lev_common_suffix(se, sc, v);
    lemma_lev_common_suffix(sc, se, v);
    assert(sc.drop_last() =~= se);
    assert(sd.drop_last() =~= se);
    assert(lev(se, se) == 0);
    assert(lev(se, sd) == 1);
    assert(lev(se, sc) == 1);
    assert(lev(sc, se) == 1);
    if c != d {
        assert(lev(sc, sd) == min3(lev(se, se) + 1, lev(se, sd) + 1, lev(sc, se) + 1));
    }
}

/// The string `a` with the characters of `mid` put in place of the
/// `skip` characters at position `i`.
pub open spec fn splice(a: Seq<u8>, i: int, mid: Seq<u8>, skip: int) -> Seq<u8> {
    a.subrange(0, i) + mid + a.subrange(i + skip, a.len() as int)
}

/// `b` arises from `a` by exactly one single-character edit: a
/// substitution by a different character, an insertion, or a deletion.
pub open spec fn single_edit(a: Seq<u8>, b: Seq<u8>) -> bool {
    ||| (exists|i: int, d: u8|
        0 <= i < a.len() && a[i] != d && b == #[trigger] splice(a, i, seq![d], 1))
    ||| (exists|i: int, d: u8| 0 <= i <= a.len() && b == #[trigger] splice(a, i, seq![d], 0))
    ||| (exists|i: int| 0 <= i < a.len() && b == #[trigger] splice(a, i, Seq::<u8>::empty(), 1))
}

/// One single-character edit moves a string to distance exactly one.
pub proof fn lemma_single_edit_distance(a: Seq<u8>, b: Seq<u8>)
    requires
        single_edit(a, b),
    ensures
        lev(a, b) == 1,
{
    let alen = a.len() as int;
    if exists|i: int, d: u8|
        0 <= i < a.len() && a[i] != d && b == #[trigger] splice(a, i, seq![d], 1) {
        let (i, d) = choose|i: int, d: u8|
            0 <= i < a.len() && a[i] != d && b == #[trigger] splice(a, i, seq![d], 1);
        let u = a.subrange(0, i);
        let v = a.subrange(i + 1, alen);
        assert(a =~= u + seq![a[i]] + v);
        assert(b =~= u + seq![d] + v);
        lemma_lev_single_edit(u, v, a[i], d);
    } else if exists|i: int, d: u8| 0 <= i <= a.len() && b == #[trigger] splice(a, i, seq![d], 0) {
        let (i, d) = choose|i: int, d: u8|
            0 <= i <= a.len() && b == #[trigger] splice(a, i, seq![d], 0);
        let u = a.subrange(0, i);
        let v = a.subrange(i, alen);
        assert(a =~= u + v);
        assert(b =~= u + seq![d] + v);
        lemma_lev_single_edit(u, v, d, d);
    } else {
        let i = choose|i: int| 0 <= i < a.len() && b == #[trigger] splice(a, i, Seq::<u8>::empty(), 1);
        let u = a.subrange(0, i);
        let v = a.subrange(i + 1, alen);
        assert(a =~= u + seq![a[i]] + v);
        assert(b =~= u + v);
        lemma_lev_single_edit(u, v, a[i], a[i]);
    }
}

/// A text formed from the pattern by `k` single-character edits lies at
/// distance at most `k`.  Exactly `k` is not guaranteed: a later edit
/// can undo an earlier one.
pub proof fn lemma_lev_edit_chain(chain: Seq<Seq<u8>>)
    requires
        chain.len() >= 1,
        forall|k: int| 0 <= k < chain.len() - 1 ==> single_edit(#[trigger] chain[k], chain[k + 1]),
    ensures
        lev(chain[0], chain[chain.len() - 1]) <= chain.len() - 1,
    decreases chain.len(),
{
    if chain.len() == 1 {
        lemma_lev_self(chain[0]);
    } else {
        let n = chain.len() as int;
        lemma_lev_edit_chain(chain.drop_last());
        lemma_single_edit_distance(chain[n - 2], chain[n - 1]);
        lemma_lev_triangle(chain[0], chain[n - 2], chain[n - 1]);
    }
}

} // verus!
