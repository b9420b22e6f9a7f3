use myers_ed::avx512::{myers_ed_single_avx512, try_myers_ed_single_avx512};
use myers_ed::peq::SingleWordPeq;
use myers_ed::scalar::{
    myers_ed_single_scalar, myers_ed_single_scalar_with_peq, try_myers_ed_single_scalar,
};
use myers_ed::wide::Wide512;
use myers_ed::{NotAscii, PatternTooLong};

#[test]
fn test() {
    let d = myers_ed_single_avx512(b"AATTC", b"AATTCA");

    assert_eq!(d, 1);
}

#[test]
fn scalar_scenarios() {
    assert_eq!(myers_ed_single_scalar(b"ACCCT", b"ACCTT"), 1);
    assert_eq!(myers_ed_single_scalar(b"AATTC", b"AATTCA"), 1);
    assert_eq!(myers_ed_single_scalar(b"GATCAATGACTG", b"GATCAATAACTG"), 1);
    assert_eq!(myers_ed_single_scalar(b"", b"ABC"), 3);
    assert_eq!(myers_ed_single_scalar(b"ABC", b""), 3);
}

#[test]
fn avx512_scenarios() {
    assert_eq!(myers_ed_single_avx512(b"ACCCT", b"ACCTT"), 1);
    assert_eq!(myers_ed_single_avx512(b"AATTC", b"AATTCA"), 1);
    assert_eq!(myers_ed_single_avx512(b"GATCAATGACTG", b"GATCAATAACTG"), 1);
    assert_eq!(myers_ed_single_avx512(b"", b"ABC"), 3);
    assert_eq!(myers_ed_single_avx512(b"ABC", b""), 3);
}

#[test]
fn scalar_width_boundary() {
    // A pattern of exactly the register width succeeds.
    let full = [b'A'; 64];
    assert_eq!(myers_ed_single_scalar(&full, &full), 0);
    assert_eq!(try_myers_ed_single_scalar(&full, b"A"), Ok(63));
    // One byte longer fails with PatternTooLong on the fallible path.
    let over = [b'A'; 65];
    assert_eq!(try_myers_ed_single_scalar(&over, b"A"), Err(PatternTooLong));
}

#[test]
fn avx512_width_boundary() {
    let full = [b'C'; 512];
    assert_eq!(myers_ed_single_avx512(&full, &full), 0);
    assert_eq!(try_myers_ed_single_avx512(&full, b"C"), Ok(511));
    let over = [b'C'; 513];
    assert_eq!(try_myers_ed_single_avx512(&over, b"C"), Err(PatternTooLong));
}

#[test]
fn try_variants_agree_with_plain() {
    assert_eq!(try_myers_ed_single_scalar(b"ACCCT", b"ACCTT"), Ok(1));
    assert_eq!(try_myers_ed_single_avx512(b"AATTC", b"AATTCA"), Ok(1));
}

#[test]
fn peq_reuse_across_texts() {
    let peq = SingleWordPeq::<u64>::from_bytes(b"GATTACA");
    assert_eq!(peq.len(), 7);
    assert!(!peq.is_empty());
    assert_eq!(myers_ed_single_scalar_with_peq(&peq, b"GATTACA"), 0);
    assert_eq!(myers_ed_single_scalar_with_peq(&peq, b"GATTA"), 2);
    assert_eq!(myers_ed_single_scalar_with_peq(&peq, b""), 7);
}

#[test]
fn peq_empty_pattern() {
    let peq = SingleWordPeq::<u64>::from_bytes(b"");
    assert_eq!(peq.len(), 0);
    assert!(peq.is_empty());
    assert_eq!(myers_ed_single_scalar_with_peq(&peq, b"XYZ"), 3);
}

#[test]
fn wide_peq_reuse_across_texts() {
    let peq = SingleWordPeq::<Wide512>::from_bytes(b"GATTACA");
    assert_eq!(peq.len(), 7);
    assert!(!peq.is_empty());
    assert_eq!(
        myers_ed::avx512::myers_ed_single_avx512_with_peq(&peq, b"GATTACA"),
        0
    );
    assert_eq!(
        myers_ed::avx512::myers_ed_single_avx512_with_peq(&peq, b"CATTAGA"),
        2
    );
}

#[test]
fn peq_fallible_constructor() {
    assert!(SingleWordPeq::<u64>::try_from_bytes(&[b'A'; 64]).is_ok());
    assert_eq!(
        SingleWordPeq::<u64>::try_from_bytes(&[b'A'; 65]).err(),
        Some(PatternTooLong)
    );
    assert!(SingleWordPeq::<Wide512>::try_from_bytes(&[b'A'; 512]).is_ok());
    assert_eq!(
        SingleWordPeq::<Wide512>::try_from_bytes(&[b'A'; 513]).err(),
        Some(PatternTooLong)
    );
}

#[test]
fn peq_from_ascii_string() {
    let peq = SingleWordPeq::<u64>::from_ascii("GATTACA").unwrap();
    assert_eq!(myers_ed_single_scalar_with_peq(&peq, b"GATTACA"), 0);
    assert_eq!(myers_ed_single_scalar_with_peq(&peq, b"GAT"), 4);
    assert_eq!(
        SingleWordPeq::<u64>::from_ascii("na\u{ef}ve").err(),
        Some(NotAscii)
    );
}

#[test]
fn wide_pattern_across_lane_boundary() {
    // A 65-byte pattern spans two 64-bit lanes; the recurrence's addition
    // must carry from the first lane into the second.
    let mut pattern = [b'A'; 65];
    let text = [b'A'; 65];
    assert_eq!(myers_ed_single_avx512(&pattern, &text), 0);
    pattern[64] = b'T';
    assert_eq!(myers_ed_single_avx512(&pattern, &text), 1);
    pattern[63] = b'T';
    assert_eq!(myers_ed_single_avx512(&pattern, &text), 2);

    let century = [b'G'; 100];
    let short = [b'G'; 99];
    assert_eq!(myers_ed_single_avx512(&century, &short), 1);
}

#[test]
fn long_text_beyond_pattern_width() {
    // The text may be arbitrarily long; only the pattern is width-bound.
    let text: Vec<u8> = std::iter::repeat(*b"GATC")
        .take(500)
        .flatten()
        .collect();
    // Deleting everything but one GATC costs text.len() - 4.
    assert_eq!(myers_ed_single_scalar(b"GATC", &text), text.len() - 4);
    assert_eq!(myers_ed_single_avx512(b"GATC", &text), text.len() - 4);
}
