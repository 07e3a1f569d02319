use iirs::error::{LengthFault, ParameterFault};
use iirs::{find_irs, stringify_irs, Config, Error, SearchParams};

fn config_of(params: SearchParams, output_format: &str) -> Config {
    Config {
        input_file: String::from("f"),
        seq_name: String::from("f"),
        params,
        output_path: String::from("f"),
        output_format: String::from(output_format),
    }
}

#[test]
fn test_invalid_min_len_less_than_two() {
    assert!(SearchParams::new(0, 100, 0, 0).is_err());
}

#[test]
fn test_valid_output_format() {
    let config = Config::default();
    assert!(config.verify_format().is_ok())
}

#[test]
fn test_invalid_output_format() {
    let params = SearchParams {
        min_len: 0,
        max_len: 0,
        max_gap: 0,
        mismatches: 0,
    };
    let config = config_of(params, "wrong");
    assert!(config.verify_format().is_err())
}

#[test]
fn test_invalid_output_format_stringify() {
    let config = Config {
        output_format: String::from("inexistent"),
        ..Default::default()
    };
    assert!(stringify_irs(&config, &Vec::new(), &Vec::new(), 0).is_err());
    // An unknown format is refused whatever the repeats and the sequence.
    assert_eq!(
        stringify_irs(&config, &vec![(7, 3, 90), (0, 1000, 0)], b"acgt", 5),
        Err(Error::InvalidOutputFormat)
    );
    assert_eq!(
        stringify_irs(&config, &vec![(0, 5, 0)], &Vec::new(), 0),
        Err(Error::InvalidOutputFormat)
    );
}

#[test]
fn test_default_params() {
    let params = SearchParams::default();
    assert_eq!(
        params,
        SearchParams {
            min_len: 10,
            max_len: 100,
            max_gap: 100,
            mismatches: 0
        }
    );
    assert_eq!(SearchParams::new(10, 100, 100, 0), Ok(params));
    let config = Config::default();
    assert_eq!(config.input_file, "input.fasta");
    assert_eq!(config.seq_name, "seq0");
    assert_eq!(config.params, params);
    assert_eq!(config.output_path, "iirs.out");
    assert_eq!(config.output_format, "classic");
}

#[test]
fn test_parameter_faults() {
    assert_eq!(
        SearchParams::new(1, 100, 0, 0),
        Err(Error::InvalidParameter(ParameterFault::MinLenBelowTwo {
            min_len: 1
        }))
    );
    assert_eq!(
        SearchParams::new(5, 4, 0, 0),
        Err(Error::InvalidParameter(ParameterFault::MinLenAboveMaxLen {
            min_len: 5,
            max_len: 4
        }))
    );
    assert_eq!(
        SearchParams::new(5, 10, 0, 5),
        Err(Error::InvalidParameter(
            ParameterFault::MismatchesNotBelowMinLen {
                mismatches: 5,
                min_len: 5
            }
        ))
    );
    // The first rule that is broken is the one reported.
    assert_eq!(
        SearchParams::new(1, 0, 0, 7),
        Err(Error::InvalidParameter(ParameterFault::MinLenBelowTwo {
            min_len: 1
        }))
    );
    assert!(SearchParams::new(2, 2, 0, 1).is_ok());
    assert!(SearchParams::new(2, 2, usize::MAX, 0).is_ok());
}

#[test]
fn test_length_faults() {
    let params = SearchParams::new(5, 10, 3, 2).unwrap();
    assert_eq!(params.check_bounds(6), Ok(()));
    assert_eq!(
        params.check_bounds(5),
        Err(Error::SequenceTooShort(LengthFault::MinLenNotBelowLength {
            min_len: 5,
            length: 5
        }))
    );
    let loose = SearchParams {
        min_len: 2,
        max_len: 9,
        max_gap: 0,
        mismatches: 4,
    };
    assert_eq!(
        loose.check_bounds(4),
        Err(Error::SequenceTooShort(
            LengthFault::MismatchesNotBelowLength {
                mismatches: 4,
                length: 4
            }
        ))
    );
    assert_eq!(loose.check_bounds(5), Ok(()));
    // The gap is not held against the length.
    let wide = SearchParams::new(2, 9, 1000, 0).unwrap();
    assert_eq!(wide.check_bounds(3), Ok(()));
}

#[test]
fn test_config_new_and_verify() {
    let config = Config::new("in.fasta", "seq0", 3, 6, 2, 0, "out.txt", "csv").unwrap();
    assert_eq!(config.params, SearchParams::new(3, 6, 2, 0).unwrap());
    assert_eq!(config.input_file, "in.fasta");
    assert_eq!(config.output_format, "csv");
    assert_eq!(config.verify(6), Ok(()));
    assert!(matches!(config.verify(3), Err(Error::SequenceTooShort(_))));
    assert!(matches!(
        Config::new("f", "f", 0, 0, 0, 0, "f", "wrong"),
        Err(Error::InvalidParameter(_))
    ));
    let odd = config_of(SearchParams::new(3, 6, 2, 0).unwrap(), "custom_csv");
    assert_eq!(odd.verify(6), Err(Error::InvalidOutputFormat));
    assert_eq!(
        config.display(),
        "input_file:  in.fasta\nseq_name:    seq0\nmin_len:     3\nmax_len:     6\n\
         max_gap:     2\nmismatches:  0\noutput_path: out.txt\noutput_fmt:  csv\n"
    );
}

#[test]
fn test_messages() {
    let message = |r: Result<SearchParams, Error>| r.unwrap_err().message();
    assert_eq!(
        message(SearchParams::new(1, 100, 0, 0)),
        "min_len=1 must not be less than 2."
    );
    assert_eq!(
        message(SearchParams::new(12, 4, 0, 0)),
        "min_len=12 must be less than max_len=4."
    );
    assert_eq!(
        message(SearchParams::new(5, 10, 0, 105)),
        "mismatches=105 must be less than min_len=5."
    );
    let params = SearchParams::new(5, 10, 3, 2).unwrap();
    assert_eq!(
        params.check_bounds(5).unwrap_err().message(),
        "min_len=5 must be less than sequence length=5."
    );
    assert_eq!(
        Error::SequenceTooShort(LengthFault::MismatchesNotBelowLength {
            mismatches: 4,
            length: 4
        })
        .message(),
        "mismatches=4 must be less than sequence length=4."
    );
    assert_eq!(
        Error::InvalidCharacter(b'J').message(),
        "sequence contains 'J' which is not an IUPAC symbol."
    );
    assert_eq!(
        Error::InvalidOutputFormat.message(),
        "Invalid output format. Allowed formats are: classic, csv, custom."
    );
    assert_eq!(Error::SequenceNotFound.message(), "Sequence(s) not found.");
}

#[test]
fn test_find_irs_refusals() {
    let params = SearchParams::new(3, 6, 2, 0).unwrap();
    // The byte is reported as it stands in the input.
    assert_eq!(
        find_irs(&params, b"acgJt"),
        Err(Error::InvalidCharacter(b'J'))
    );
    assert_eq!(
        find_irs(&params, b"ac\ng t"),
        Err(Error::InvalidCharacter(b' '))
    );
    // An invalid byte comes before any other fault.
    let broken = SearchParams {
        min_len: 1,
        max_len: 0,
        max_gap: 0,
        mismatches: 0,
    };
    assert_eq!(find_irs(&broken, b"x"), Err(Error::InvalidCharacter(b'x')));
    assert_eq!(
        find_irs(&broken, b"acgt"),
        Err(Error::InvalidParameter(ParameterFault::MinLenBelowTwo {
            min_len: 1
        }))
    );
    // Newlines do not count towards the length.
    assert_eq!(
        find_irs(&params, b"ac\n\r\ng"),
        Err(Error::SequenceTooShort(LengthFault::MinLenNotBelowLength {
            min_len: 3,
            length: 3
        }))
    );
    assert_eq!(
        find_irs(&params, b""),
        Err(Error::SequenceTooShort(LengthFault::MinLenNotBelowLength {
            min_len: 3,
            length: 0
        }))
    );
    assert_eq!(find_irs(&params, b"acgt"), Ok(vec![]));
}
