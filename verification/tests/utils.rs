use iirs::utils::{
    check_sequences_found, contains_name, missing_sequences, sanitize_sequence, verify_format,
    wants_all_sequences, wants_record,
};
use iirs::{Error, OutputFormat};

#[test]
fn test_sanitize_sequence_ok() {
    let seq = b"acgturyswkmbdhvn*-".to_vec();
    assert!(sanitize_sequence(&seq).is_ok());
}

#[test]
fn test_sanitize_sequence_newlines_one() {
    let seq = "acgturyswkmbdhvn*-\nacgturyswkmbdhvn*-".as_bytes().to_vec();
    let sanitized = sanitize_sequence(&seq).unwrap();
    let expected = "acgturyswkmbdhvn*-acgturyswkmbdhvn*-".as_bytes().to_vec();
    assert_eq!(expected, sanitized);
}

#[test]
fn test_sanitize_sequence_newlines_two() {
    let seq = "acgturyswkmbdhvn*-\racgturyswkmbdhvn*-".as_bytes().to_vec();
    let sanitized = sanitize_sequence(&seq).unwrap();
    let expected = "acgturyswkmbdhvn*-acgturyswkmbdhvn*-".as_bytes().to_vec();
    assert_eq!(expected, sanitized);
}

#[test]
fn test_sanitize_sequence_not_in_iupac() {
    let seq = b"de".to_vec();
    assert!(sanitize_sequence(&seq).is_err());
}

#[test]
fn test_sanitize_sequence_lowers_case() {
    let sanitized = sanitize_sequence(b"ACGTU\r\nRYSWKMBDHVN*-").unwrap();
    assert_eq!(sanitized, b"acgturyswkmbdhvn*-".to_vec());
    assert_eq!(sanitize_sequence(b""), Ok(vec![]));
    assert_eq!(sanitize_sequence(b"\n\r"), Ok(vec![]));
}

#[test]
fn test_sanitize_sequence_reports_first_invalid_byte() {
    assert_eq!(
        sanitize_sequence(b"de"),
        Err(Error::InvalidCharacter(b'e'))
    );
    assert_eq!(
        sanitize_sequence(b"acEgJ"),
        Err(Error::InvalidCharacter(b'E'))
    );
    assert_eq!(
        sanitize_sequence(b"ac$gt"),
        Err(Error::InvalidCharacter(b'$'))
    );
    assert_eq!(
        sanitize_sequence(&[b'a', 200]),
        Err(Error::InvalidCharacter(200))
    );
}

#[test]
fn test_verify_format() {
    assert_eq!(verify_format("classic"), Ok(OutputFormat::Classic));
    assert_eq!(verify_format("csv"), Ok(OutputFormat::Csv));
    assert_eq!(verify_format("custom"), Ok(OutputFormat::Custom));
    assert_eq!(
        verify_format("custom_csv"),
        Err(Error::InvalidOutputFormat)
    );
    assert_eq!(verify_format("CSV"), Err(Error::InvalidOutputFormat));
    assert_eq!(verify_format(""), Err(Error::InvalidOutputFormat));
}

#[test]
fn test_requested_sequences() {
    let names = |list: &[&str]| list.iter().map(|s| s.to_string()).collect::<Vec<String>>();
    let all = names(&["ALL_SEQUENCES"]);
    let some = names(&["seq2", "seq0", "seq9", "seq2"]);
    let found = names(&["seq0", "seq1", "seq2"]);

    assert!(wants_all_sequences(&all));
    assert!(!wants_all_sequences(&some));
    assert!(!wants_all_sequences(&names(&["ALL_SEQUENCES", "seq0"])));
    assert!(!wants_all_sequences(&names(&[])));

    assert!(wants_record(&all, "anything"));
    assert!(wants_record(&some, "seq0"));
    assert!(!wants_record(&some, "seq1"));
    assert!(contains_name(&found, "seq1"));
    assert!(!contains_name(&found, "seq"));

    assert_eq!(missing_sequences(&some, &found), names(&["seq9"]));
    assert_eq!(
        missing_sequences(&names(&["b", "a", "b"]), &found),
        names(&["b", "a", "b"])
    );
    assert_eq!(missing_sequences(&found, &found), names(&[]));

    assert_eq!(
        check_sequences_found(&some, &found),
        Err(Error::SequenceNotFound)
    );
    assert_eq!(check_sequences_found(&found, &found), Ok(()));
    assert_eq!(check_sequences_found(&all, &found), Ok(()));
    assert_eq!(check_sequences_found(&all, &names(&[])), Ok(()));
}
