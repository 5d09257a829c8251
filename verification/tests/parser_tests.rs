use ross::fastq::ParseError;
use ross::fastq::Reader;

#[test]
fn empty_input_is_end_of_stream() {
    let mut r = Reader::new(Vec::new());
    assert_eq!(r.read_carefully(), Ok(None));
}

#[test]
fn one_plain_record() {
    let mut r = Reader::new(b"@r1\nACGT\n+\nIIII\n".to_vec());
    let rec = r.read_carefully().unwrap().unwrap();
    assert_eq!(rec.id, b"@r1\n".to_vec());
    assert_eq!(rec.sequence, b"ACGT".to_vec());
    assert_eq!(rec.quality, b"IIII".to_vec());
    assert_eq!(r.read_carefully(), Ok(None));
}

#[test]
fn wrapped_record_end_to_end() {
    // sequence wraps across two lines, quality across two lines
    let mut r = Reader::new(b"@r1\nACGTN\nACGT\n+\nIIIII\nIIII\n".to_vec());
    let rec = r.read_carefully().unwrap().unwrap();
    assert_eq!(rec.sequence, b"ACGTNACGT".to_vec());
    assert_eq!(rec.quality, b"IIIIIIIII".to_vec());
    assert_eq!(rec.sequence.len(), 9);
    assert_eq!(rec.quality.len(), 9);
    assert_eq!(r.read_carefully(), Ok(None));
}

#[test]
fn embedded_whitespace_never_survives() {
    let mut r = Reader::new(b"@r2\nAC G\tT\n+\nI I\tII\n".to_vec());
    let rec = r.read_carefully().unwrap().unwrap();
    assert_eq!(rec.sequence, b"ACGT".to_vec());
    assert_eq!(rec.quality, b"IIII".to_vec());
    assert!(!rec.sequence.iter().any(|b| b.is_ascii_whitespace()));
    assert!(!rec.quality.iter().any(|b| b.is_ascii_whitespace()));
}

#[test]
fn parsed_lengths_always_match() {
    let mut r = Reader::new(b"@a\nACGTACGT\n+\nIIIIIIIIII\n@b\nAC\n+\nII\n".to_vec());
    while let Ok(Some(rec)) = r.read_carefully() {
        assert_eq!(rec.sequence.len(), rec.quality.len());
    }
}

#[test]
fn quality_is_truncated_to_sequence_length() {
    // the one quality line supplies more bytes than the sequence has
    let mut r = Reader::new(b"@r\nACGT\n+\nIIIIII\n".to_vec());
    let rec = r.read_carefully().unwrap().unwrap();
    assert_eq!(rec.quality, b"IIII".to_vec());
}

#[test]
fn truncated_before_separator_names_id() {
    // stream ends mid-sequence, no separator line
    let mut r = Reader::new(b"@r1\nACGT\n".to_vec());
    assert_eq!(
        r.read_carefully(),
        Err(ParseError::TruncatedRecord { id: b"@r1\n".to_vec() })
    );
}

#[test]
fn truncated_in_quality_names_id() {
    let mut r = Reader::new(b"@r9\nACGT\n+\nII\n".to_vec());
    assert_eq!(
        r.read_carefully(),
        Err(ParseError::TruncatedRecord { id: b"@r9\n".to_vec() })
    );
}

#[test]
fn two_records_then_end_of_stream() {
    let mut r = Reader::new(b"@a\nAC\n+\nII\n@b\nGGTT\n+\nIIII\n".to_vec());
    let first = r.read_carefully().unwrap().unwrap();
    assert_eq!(first.id, b"@a\n".to_vec());
    assert_eq!(first.sequence, b"AC".to_vec());
    let second = r.read_carefully().unwrap().unwrap();
    assert_eq!(second.id, b"@b\n".to_vec());
    assert_eq!(second.sequence, b"GGTT".to_vec());
    assert_eq!(r.read_carefully(), Ok(None));
    assert_eq!(r.read_carefully(), Ok(None));
}

#[test]
fn read_all_yields_exactly_every_record() {
    let mut r = Reader::new(b"@a\nAC\n+\nII\n@b\nGG\nTT\n+\nII\nII\n@c\nA\n+\nI\n".to_vec());
    let recs = r.read_all().unwrap();
    assert_eq!(recs.len(), 3);
    assert_eq!(recs[0].sequence, b"AC".to_vec());
    assert_eq!(recs[1].sequence, b"GGTT".to_vec());
    assert_eq!(recs[2].sequence, b"A".to_vec());
    assert_eq!(r.read_carefully(), Ok(None));
}

#[test]
fn read_all_reports_truncation() {
    let mut r = Reader::new(b"@a\nAC\n+\nII\n@b\nGG\n".to_vec());
    assert_eq!(
        r.read_all(),
        Err(ParseError::TruncatedRecord { id: b"@b\n".to_vec() })
    );
}

#[test]
fn read_is_the_careful_mode() {
    let mut r = Reader::new(b"@r1\nAC GT\n+\nII II\n".to_vec());
    let rec = r.read().unwrap().unwrap();
    assert_eq!(rec.sequence, b"ACGT".to_vec());
    assert_eq!(r.read(), Ok(None));
}

#[test]
fn read_quickly_takes_four_raw_lines() {
    let mut r = Reader::new(b"@r\nAC\n+\nII\n".to_vec());
    let rec = r.read_quickly().unwrap();
    assert_eq!(rec.id, b"@r\n".to_vec());
    assert_eq!(rec.sequence, b"AC\n".to_vec());
    assert_eq!(rec.quality, b"II\n".to_vec());
    assert!(r.read_quickly().is_none());
}

#[test]
fn separator_payload_is_discarded() {
    // text after the + on the separator line carries no meaning
    let mut r = Reader::new(b"@r\nACGT\n+r repeated\nIIII\n".to_vec());
    let rec = r.read_carefully().unwrap().unwrap();
    assert_eq!(rec.sequence, b"ACGT".to_vec());
    assert_eq!(rec.quality, b"IIII".to_vec());
}

#[test]
fn whitespace_only_quality_lines_are_skipped_over() {
    let mut r = Reader::new(b"@r\nACGT\n+\n  \nII\nII\n".to_vec());
    let rec = r.read_carefully().unwrap().unwrap();
    assert_eq!(rec.quality, b"IIII".to_vec());
}
