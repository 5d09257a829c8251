use ross::record::Record;
use ross::record::Thresholds;

fn rec(id: &[u8], sequence: &[u8], quality: &[u8]) -> Record {
    Record { id: id.to_vec(), sequence: sequence.to_vec(), quality: quality.to_vec() }
}

#[test]
fn default_thresholds() {
    let t = Thresholds::default();
    assert_eq!(t.min_avg_qual, 20);
    assert_eq!(t.min_length, 100);
    assert_eq!(t.min_trim_qual, 20);
}

#[test]
fn sanitize_id_strips_one_sentinel() {
    assert_eq!(Record::sanitize_id(&b"@read1".to_vec()), b"read1".to_vec());
    assert_eq!(Record::sanitize_id(&b"read1".to_vec()), b"read1".to_vec());
    // idempotent: a second pass removes nothing more
    let once = Record::sanitize_id(&b"@read1".to_vec());
    assert_eq!(Record::sanitize_id(&once), once);
    assert_eq!(Record::sanitize_id(&Vec::new()), Vec::new());
}

#[test]
fn new_sanitizes_the_identifier() {
    let r = Record::new(&b"@read7".to_vec(), &b"ACGT".to_vec(), &b"IIII".to_vec());
    assert_eq!(r.id, b"read7".to_vec());
    assert_eq!(r.sequence, b"ACGT".to_vec());
    assert_eq!(r.quality, b"IIII".to_vec());
}

#[test]
fn lower_ambiguity_masks_codes_and_low_scores() {
    // the third base's score is below min_trim_qual; the fourth is an
    // ambiguity code: both become N with the zero-score character
    let mut r = rec(b"@r\n", b"ACGN", b"II!I");
    r.lower_ambiguity_q(&Thresholds::default());
    assert_eq!(r.sequence, b"ACNN".to_vec());
    assert_eq!(r.quality, b"II!!".to_vec());
}

#[test]
fn lower_ambiguity_masks_lowercase_code() {
    let mut r = rec(b"@r\n", b"AnGT", b"IIII");
    r.lower_ambiguity_q(&Thresholds::default());
    assert_eq!(r.sequence, b"ANGT".to_vec());
    assert_eq!(r.quality, b"I!II".to_vec());
}

#[test]
fn trim_removes_low_quality_runs_from_both_ends() {
    // '!' scores 0, 'I' scores 40; both offsets come from the original
    let mut r = rec(b"@r\n", b"AACCGG", b"!!II!!");
    r.trim(&Thresholds::default());
    assert_eq!(r.sequence, b"CC".to_vec());
    assert_eq!(r.quality, b"II".to_vec());
}

#[test]
fn trim_of_all_low_quality_is_empty() {
    let mut r = rec(b"@r\n", b"ACGT", b"!!!!");
    r.trim(&Thresholds::default());
    assert_eq!(r.sequence, Vec::<u8>::new());
    assert_eq!(r.quality, Vec::<u8>::new());
}

#[test]
fn trim_is_idempotent() {
    let mut once = rec(b"@r\n", b"AACCGG", b"!IIII!");
    once.trim(&Thresholds::default());
    let mut twice = once.clone();
    twice.trim(&Thresholds::default());
    assert_eq!(once, twice);

    let mut empty_once = rec(b"@r\n", b"ACGT", b"!!!!");
    empty_once.trim(&Thresholds::default());
    let mut empty_twice = empty_once.clone();
    empty_twice.trim(&Thresholds::default());
    assert_eq!(empty_once, empty_twice);
}

#[test]
fn short_sequence_fails_regardless_of_quality() {
    // length 50 against a minimum of 100: the verdict is false however
    // good the scores are ('~' is the highest printable score)
    let r = rec(b"@r\n", &[b'A'; 50], &[b'~'; 50]);
    let t = Thresholds { min_avg_qual: 0, min_length: 100, min_trim_qual: 20 };
    assert!(!r.is_high_quality(&t));
}

#[test]
fn empty_record_fails_the_length_check() {
    let r = rec(b"@r\n", b"", b"");
    let t = Thresholds { min_avg_qual: 0, min_length: 0, min_trim_qual: 20 };
    assert!(!r.is_high_quality(&t));
}

#[test]
fn mean_quality_verdict_is_exact() {
    // 'I' scores 40: a mean of exactly the threshold passes
    let r = rec(b"@r\n", b"ACGT", b"IIII");
    let at = Thresholds { min_avg_qual: 40, min_length: 1, min_trim_qual: 20 };
    assert!(r.is_high_quality(&at));
    let above = Thresholds { min_avg_qual: 41, min_length: 1, min_trim_qual: 20 };
    assert!(!r.is_high_quality(&above));
}

#[test]
fn mixed_scores_average() {
    // scores 0 and 40 average to 20
    let r = rec(b"@r\n", b"AC", b"!I");
    let t = Thresholds { min_avg_qual: 20, min_length: 1, min_trim_qual: 20 };
    assert!(r.is_high_quality(&t));
    let t2 = Thresholds { min_avg_qual: 21, min_length: 1, min_trim_qual: 20 };
    assert!(!r.is_high_quality(&t2));
}

#[test]
fn serialize_is_the_canonical_four_line_form() {
    let r = rec(b"@r1\n", b"ACGT", b"IIII");
    assert_eq!(r.serialize(), b"@r1\nACGT\n+\nIIII".to_vec());
}

#[test]
fn serialize_restores_the_sentinel() {
    let r = rec(b"r1", b"ACGT", b"IIII");
    assert_eq!(r.serialize(), b"@r1\nACGT\n+\nIIII".to_vec());
}

#[test]
fn pipeline_masks_then_trims_then_judges() {
    // masking turns the trailing N into a low-quality position, which
    // trimming then removes; the verdict judges the final form
    let mut r = rec(b"@r\n", b"ACGTN", b"IIIII");
    let t = Thresholds { min_avg_qual: 20, min_length: 4, min_trim_qual: 20 };
    r.lower_ambiguity_q(&t);
    assert_eq!(r.sequence, b"ACGTN".to_vec());
    assert_eq!(r.quality, b"IIII!".to_vec());
    r.trim(&t);
    assert_eq!(r.sequence, b"ACGT".to_vec());
    assert_eq!(r.quality, b"IIII".to_vec());
    assert!(r.is_high_quality(&t));
}
