use myers_ed::avx512::myers_ed_single_avx512;
use myers_ed::scalar::myers_ed_single_scalar;

/// Straightforward quadratic dynamic-programming edit distance, used as
/// the reference the bit-parallel backends are held against.
fn reference_dp(a: &[u8], b: &[u8]) -> usize {
    let mut prev: Vec<usize> = (0..=b.len()).collect();
    for i in 1..=a.len() {
        let mut cur: Vec<usize> = vec![0; b.len() + 1];
        cur[0] = i;
        for j in 1..=b.len() {
            let cost = if a[i - 1] == b[j - 1] { 0 } else { 1 };
            cur[j] = (prev[j - 1] + cost).min(prev[j] + 1).min(cur[j - 1] + 1);
        }
        prev = cur;
    }
    prev[b.len()]
}

fn sample_pairs() -> Vec<(&'static [u8], &'static [u8])> {
    vec![
        (b"ACCCT" as &[u8], b"ACCTT" as &[u8]),
        (b"AATTC", b"AATTCA"),
        (b"GATCAATGACTG", b"GATCAATAACTG"),
        (b"", b"ABC"),
        (b"ABC", b""),
        (b"", b""),
        (b"KITTEN", b"SITTING"),
        (b"SATURDAY", b"SUNDAY"),
        (b"AAAAAAAA", b"TTTTTTTT"),
        (b"ABCDEFGH", b"HGFEDCBA"),
        (b"GATTACA", b"GATTACA"),
        (b"A", b"AAAAAAAAAAAAAAAAAAAAAAAAAAAAAAAA"),
    ]
}

#[test]
fn both_call_orders_agree_with_reference() {
    for (a, b) in sample_pairs() {
        assert_eq!(myers_ed_single_scalar(a, b), reference_dp(a, b));
        assert_eq!(myers_ed_single_scalar(b, a), reference_dp(b, a));
        assert_eq!(myers_ed_single_avx512(a, b), reference_dp(a, b));
        assert_eq!(myers_ed_single_avx512(b, a), reference_dp(b, a));
    }
}

#[test]
fn identity_is_zero() {
    let samples: Vec<&[u8]> = vec![b"", b"A", b"GATTACA", b"THEQUICKBROWNFOX"];
    for s in samples {
        assert_eq!(myers_ed_single_scalar(s, s), 0);
        assert_eq!(myers_ed_single_avx512(s, s), 0);
    }
    let full = [b'G'; 64];
    assert_eq!(myers_ed_single_scalar(&full, &full), 0);
}

#[test]
fn single_edits_cost_one() {
    // Substitution, insertion and deletion, at the front, middle and end.
    assert_eq!(myers_ed_single_scalar(b"GATTACA", b"CATTACA"), 1);
    assert_eq!(myers_ed_single_scalar(b"GATTACA", b"GATCACA"), 1);
    assert_eq!(myers_ed_single_scalar(b"GATTACA", b"GATTACT"), 1);
    assert_eq!(myers_ed_single_scalar(b"GATTACA", b"AGATTACA"), 1);
    assert_eq!(myers_ed_single_scalar(b"GATTACA", b"GATTTACA"), 1);
    assert_eq!(myers_ed_single_scalar(b"GATTACA", b"GATTACAT"), 1);
    assert_eq!(myers_ed_single_scalar(b"GATTACA", b"ATTACA"), 1);
    assert_eq!(myers_ed_single_scalar(b"GATTACA", b"GATACA"), 1);
    assert_eq!(myers_ed_single_scalar(b"GATTACA", b"GATTAC"), 1);
}

#[test]
fn distinct_edits_accumulate() {
    // Edits at independent positions each contribute one.
    assert_eq!(myers_ed_single_scalar(b"AAAAAA", b"TAAAAT"), 2);
    assert_eq!(myers_ed_single_scalar(b"AAAAAA", b"TATATA"), 3);
    assert_eq!(myers_ed_single_avx512(b"AAAAAA", b"TAAAAT"), 2);
}

#[test]
fn length_difference_is_a_lower_bound() {
    for (a, b) in sample_pairs() {
        let d = myers_ed_single_scalar(a, b);
        let diff = a.len().abs_diff(b.len());
        assert!(d >= diff);
    }
}

#[test]
fn backends_agree_on_word_sized_patterns() {
    for (a, b) in sample_pairs() {
        if a.len() <= 64 {
            assert_eq!(myers_ed_single_scalar(a, b), myers_ed_single_avx512(a, b));
        }
    }
    let pattern = [b'T'; 64];
    let text = [b'T'; 200];
    assert_eq!(
        myers_ed_single_scalar(&pattern, &text),
        myers_ed_single_avx512(&pattern, &text)
    );
}
