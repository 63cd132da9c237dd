use fire_fasta::{parse_fasta, parse_fasta_str, FastaSequence, ParseError};

fn collect_view(seq: &FastaSequence<'_>) -> Vec<u8> {
    let mut out = Vec::new();
    let mut it = seq.iter();
    while let Some(b) = it.next() {
        out.push(b);
    }
    out
}

#[test]
fn single_record_scenario() {
    let input = ">example\nMSTIL\nAATIL\n\n";
    let fasta = parse_fasta_str(&input).unwrap();
    assert_eq!(fasta.sequences.len(), 1);
    assert_eq!(fasta.sequences[0].description, b"example");
    assert_eq!(collect_view(&fasta.sequences[0]), b"MSTILAATIL".to_vec());
}

#[test]
fn two_records_scenario() {
    let input = ">S1\nACGTCA\n>S2\nACGTCC";
    let fasta = parse_fasta_str(&input).unwrap();
    assert_eq!(fasta.sequences.len(), 2);
    assert_eq!(fasta.sequences[0].description, b"S1");
    assert_eq!(collect_view(&fasta.sequences[0]), b"ACGTCA".to_vec());
    assert_eq!(fasta.sequences[0].sequence, b"ACGTCA\n");
    assert_eq!(fasta.sequences[1].description, b"S2");
    assert_eq!(collect_view(&fasta.sequences[1]), b"ACGTCC".to_vec());
    assert_eq!(fasta.sequences[1].sequence, b"ACGTCC");
}

#[test]
fn malformed_start_scenario() {
    let err = parse_fasta_str("XYZ").unwrap_err();
    assert_eq!(err, ParseError::InvalidDescription { invalid: b'X' });
}

#[test]
fn trailing_description_without_body() {
    let err = parse_fasta_str(">only_header\n").unwrap_err();
    assert_eq!(err, ParseError::EmptySequence);
}

#[test]
fn description_without_newline() {
    let err = parse_fasta_str(">only_header").unwrap_err();
    assert_eq!(err, ParseError::EmptySequence);
}

#[test]
fn zero_length_body_between_records() {
    let err = parse_fasta_str(">a\n>b\nCC").unwrap_err();
    assert_eq!(err, ParseError::EmptySequence);
}

#[test]
fn round_trip_identity() {
    // The records of this input are adjacent and cover the whole buffer,
    // so re-adding each record's `>` and newline and concatenating must
    // reproduce the input exactly.
    let input = b">S1\nACGTCA\n>S2 extra words\nACG\nTCC\n";
    let fasta = parse_fasta(input).unwrap();
    let mut rebuilt: Vec<u8> = Vec::new();
    for record in &fasta.sequences {
        rebuilt.push(b'>');
        rebuilt.extend_from_slice(record.description);
        rebuilt.push(b'\n');
        rebuilt.extend_from_slice(record.sequence);
    }
    assert_eq!(rebuilt, input.to_vec());
}

#[test]
fn lazy_view_matches_compaction() {
    // Zero, one, and many embedded newlines, with leading and trailing
    // blank lines inside the span.
    let inputs: [&str; 4] = [">x\nAB", ">x\n\nAB\n\nC\nD\n", ">x\nABCDEF\n", ">x\n\n\nZ"];
    for input in inputs {
        let fasta = parse_fasta_str(input).unwrap();
        let record = &fasta.sequences[0];
        assert_eq!(collect_view(record), record.copy_sequential());
    }
}

#[test]
fn lazy_view_is_restartable() {
    let input = ">x\nAB\nCD\n";
    let fasta = parse_fasta_str(&input).unwrap();
    let record = &fasta.sequences[0];
    let first = collect_view(record);
    let second = collect_view(record);
    assert_eq!(first, b"ABCD".to_vec());
    assert_eq!(first, second);
}

#[test]
fn boundary_byte_exactness() {
    let input = ">S1\nACGTCA\n>S2\nACGTCC";
    let fasta = parse_fasta_str(&input).unwrap();
    for record in &fasta.sequences {
        assert!(!record.sequence.is_empty());
        assert!(!record.sequence.contains(&b'>'));
        assert!(!record.description.contains(&b'\n'));
    }
}

#[test]
fn parse_is_idempotent() {
    let input = ">S1\nACGTCA\n>S2\nACG\nTCC";
    let first = parse_fasta_str(&input).unwrap();
    let second = parse_fasta_str(&input).unwrap();
    assert_eq!(first.sequences.len(), second.sequences.len());
    for (a, b) in first.sequences.iter().zip(second.sequences.iter()) {
        assert_eq!(a.description, b.description);
        assert_eq!(a.sequence, b.sequence);
    }
}

#[test]
fn size_hint_is_raw_span_length() {
    let input = ">x\nAB\nC";
    let fasta = parse_fasta_str(&input).unwrap();
    let record = &fasta.sequences[0];
    assert_eq!(record.size_hint(), 4);
    assert_eq!(record.size_hint(), record.sequence.len());
    assert!(collect_view(record).len() <= record.size_hint());
}

#[test]
fn compaction_scenario() {
    let input = ">h\nATG\nGTA\nCCC\nCGC\nAT";
    let fasta = parse_fasta_str(&input).unwrap();
    let record = &fasta.sequences[0];
    assert_eq!(record.sequence, b"ATG\nGTA\nCCC\nCGC\nAT");
    let compacted = record.copy_sequential();
    assert_eq!(compacted, b"ATGGTACCCCGCAT".to_vec());
    // Output length is the raw length minus the number of line feeds.
    assert_eq!(compacted.len(), record.size_hint() - 4);
}

#[test]
fn empty_input_is_not_an_error() {
    let fasta = parse_fasta(b"").unwrap();
    assert_eq!(fasta.sequences.len(), 0);
}

#[test]
fn stray_marker_starts_a_record_anywhere() {
    // A `>` in the middle of a line still terminates the running sequence.
    let input = ">a\nAC>b\nGT";
    let fasta = parse_fasta_str(&input).unwrap();
    assert_eq!(fasta.sequences.len(), 2);
    assert_eq!(fasta.sequences[0].sequence, b"AC");
    assert_eq!(fasta.sequences[1].description, b"b");
    assert_eq!(fasta.sequences[1].sequence, b"GT");
}

#[test]
fn carriage_returns_are_sequence_content() {
    let input = ">a\r\nAC\r\nGT";
    let fasta = parse_fasta_str(&input).unwrap();
    assert_eq!(fasta.sequences.len(), 1);
    assert_eq!(fasta.sequences[0].description, b"a\r");
    assert_eq!(fasta.sequences[0].sequence, b"AC\r\nGT");
    assert_eq!(collect_view(&fasta.sequences[0]), b"AC\rGT".to_vec());
}
