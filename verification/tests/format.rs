use iirs::constants::build_complement_array;
use iirs::format::{
    check_all_fit, fmt_classic, fmt_classic_header, fmt_csv, fmt_csv_header, fmt_custom,
    fmt_custom_header,
};
use iirs::matrix::MatchMatrix;
use iirs::{find_irs, fits_search, stringify_irs, Config, Error, SearchParams};

#[test]
fn format_test_format_classic() {
    let string = "AGUCSGGTGTWKMMMKKBDDN-NN*HAGNNAGuGTA";
    let seq = string.to_ascii_lowercase().as_bytes().to_vec();
    let params = SearchParams::new(10, 100, 10, 1).unwrap();
    params.check_bounds(seq.len()).unwrap();
    let irs = find_irs(&params, &seq).unwrap();
    let matrix = MatchMatrix::new();
    let complement = build_complement_array();
    let received = fmt_classic(&irs, &seq, &matrix, &complement);
    let expected = r"2        gucsggtgtwkmmm       15
         ||| ||||||||||
30       nngah*nn-nddbk       17

3        ucsggtgtwkmm       14
         | ||||||||||
27       ah*nn-nddbkk       16

3        ucsggtgtwkmmm       15
         ||| |||||||||
30       nngah*nn-nddb       18

5        sggtgtwkmmmkk       17
         || ||||||||||
30       nngah*nn-nddb       18

5        sggtgtwkmmm       15
         |||||||||||
26       h*nn-nddbkk       16

7        gtgtwkmmmkkb       18
         || |||||||||
30       nngah*nn-ndd       19

8        tgtwkmmmkkbd       19
         ||| ||||||||
31       anngah*nn-nd       20

8        tgtwkmmmkkb       18
         || ||||||||
30       nngah*nn-nd       20

10       twkmmmkkbdd       20
         |||| ||||||
31       anngah*nn-n       21

11       wkmmmkkbdd       20
         |||| |||||
31       anngah*nn-       22

12       kmmmkkbddn       21
         ||||||||||
31       anngah*nn-       22

13       mmmkkbddn-n       23
         |||||| ||||
34       guganngah*n       24

13       mmmkkbddn-       22
         || |||||||
33       uganngah*n       24";
    let expected_lines = expected.split('\n');
    let received_lines = received.split('\n');
    for (idx, (e, r)) in expected_lines.zip(received_lines).enumerate() {
        assert_eq!(e, r, "Difference at line {idx}");
    }
}

#[test]
fn format_test_format_csv() {
    let string = "AGUCSGGTGTWKMMMKKBDDN-NN*HAGNNAGuGTA";
    let seq = string.to_ascii_lowercase().as_bytes().to_vec();
    let params = SearchParams::new(10, 100, 10, 1).unwrap();
    params.check_bounds(seq.len()).unwrap();
    let irs = find_irs(&params, &seq).unwrap();
    let matrix = MatchMatrix::new();
    let complement = build_complement_array();
    let received = format!(
        "{}\n{}",
        fmt_csv_header(),
        fmt_csv(&irs, &seq, &matrix, &complement)
    );
    let expected = r"start_n,end_n,nucleotide,start_ir,end_ir,reverse_complement,matching
2,15,gucsggtgtwkmmm,30,17,nngah*nn-nddbk,11101111111111
3,14,ucsggtgtwkmm,27,16,ah*nn-nddbkk,101111111111
3,15,ucsggtgtwkmmm,30,18,nngah*nn-nddb,1110111111111
5,17,sggtgtwkmmmkk,30,18,nngah*nn-nddb,1101111111111
5,15,sggtgtwkmmm,26,16,h*nn-nddbkk,11111111111
7,18,gtgtwkmmmkkb,30,19,nngah*nn-ndd,110111111111
8,19,tgtwkmmmkkbd,31,20,anngah*nn-nd,111011111111
8,18,tgtwkmmmkkb,30,20,nngah*nn-nd,11011111111
10,20,twkmmmkkbdd,31,21,anngah*nn-n,11110111111
11,20,wkmmmkkbdd,31,22,anngah*nn-,1111011111
12,21,kmmmkkbddn,31,22,anngah*nn-,1111111111
13,23,mmmkkbddn-n,34,24,guganngah*n,11111101111
13,22,mmmkkbddn-,33,24,uganngah*n,1101111111
";
    let expected_lines = expected.split('\n');
    let received_lines = received.split('\n');
    for (idx, (e, r)) in expected_lines.zip(received_lines).enumerate() {
        assert_eq!(e, r, "Difference at line {idx}");
    }
}

#[test]
fn test_format_custom_csv_mini() {
    let string = "AGUCSGGTGTWKMMMKKBDDN-NN*HAGNNAGuGTA";
    let seq = string.to_ascii_lowercase().as_bytes().to_vec();
    let params = SearchParams::new(10, 100, 10, 1).unwrap();
    params.check_bounds(seq.len()).unwrap();
    let irs = find_irs(&params, &seq).unwrap();
    let received = format!("{}\n{}", fmt_custom_header(), fmt_custom(&irs, &seq, 0));
    let expected = r"ir_start,motif,gap_motif,reverse_complement
2,gucsggtgtwkmmm,k,nngah*nn-nddbk
3,ucsggtgtwkmm,m,ah*nn-nddbkk
3,ucsggtgtwkmmm,kk,nngah*nn-nddb
5,sggtgtwkmmmkk,,nngah*nn-nddb
5,sggtgtwkmmm,,h*nn-nddbkk
7,gtgtwkmmmkkb,,nngah*nn-ndd
8,tgtwkmmmkkbd,,anngah*nn-nd
8,tgtwkmmmkkb,d,nngah*nn-nd
10,twkmmmkkbdd,,anngah*nn-n
11,wkmmmkkbdd,n,anngah*nn-
12,kmmmkkbddn,,anngah*nn-
13,mmmkkbddn-n,,guganngah*n
13,mmmkkbddn-,n,uganngah*n
";
    let expected_lines = expected.split('\n');
    let received_lines = received.split('\n');
    for (idx, (e, r)) in expected_lines.zip(received_lines).enumerate() {
        assert_eq!(e, r, "Difference at line {idx}");
    }
}

#[test]
fn test_reports_of_short_sequence() {
    let seq = "acbbgt".as_bytes();
    let irs = find_irs(&SearchParams::new(3, 6, 2, 0).unwrap(), seq).unwrap();
    let config = Config::new("in.fasta", "seq0", 3, 6, 2, 0, "out.txt", "csv").unwrap();
    let (header, irs_str) = stringify_irs(&config, &irs, seq, 0).unwrap();
    let expected = "\
        start_n,end_n,nucleotide,start_ir,end_ir,reverse_complement,matching\n\
        1,3,acb,6,4,tgb,111\n";
    assert_eq!(format!("{}\n{}", &header, &irs_str), expected);

    let config = Config::new("in.fasta", "seq0", 3, 6, 2, 0, "out.txt", "classic").unwrap();
    let (header, irs_str) = stringify_irs(&config, &irs, seq, 0).unwrap();
    let expected = "\
        Palindromes of: in.fasta\n\
        Sequence name: seq0\n\
        Sequence length is: 6\n\
        Start at position: 1\n\
        End at position: 6\n\
        Minimum length of Palindromes is: 3\n\
        Maximum length of Palindromes is: 6\n\
        Maximum gap between elements is: 2\n\
        Number of mismatches allowed in Palindrome: 0\n\n\n\n\
        Palindromes:";
    assert_eq!(header, expected);
    assert_eq!(
        irs_str,
        "1        acb        3\n         |||\n6        tgb        4\n\n"
    );
    assert_eq!(header, fmt_classic_header(&config, 6));

    let config = Config::new("in.fasta", "seq0", 3, 6, 2, 0, "out.txt", "custom").unwrap();
    let (header, irs_str) = stringify_irs(&config, &irs, seq, 0).unwrap();
    assert_eq!(header, "ir_start,motif,gap_motif,reverse_complement");
    assert_eq!(irs_str, "1,acb,,tgb\n");
    // The offset shifts the position that the custom report gives.
    let (_, shifted) = stringify_irs(&config, &irs, seq, 1000).unwrap();
    assert_eq!(shifted, "1001,acb,,tgb\n");
    assert_eq!(fmt_custom(&irs, seq, usize::MAX), "18446744073709551616,acb,,tgb\n".replace(
        "18446744073709551616",
        &(usize::MAX as u128 + 1).to_string()
    ));

    let config = Config::new("in.fasta", "seq0", 3, 6, 2, 0, "out.txt", "json").unwrap();
    assert_eq!(
        stringify_irs(&config, &irs, seq, 0),
        Err(Error::InvalidOutputFormat)
    );
}

#[test]
fn test_reports_mark_mismatches_and_gaps() {
    let matrix = MatchMatrix::new();
    let complement = build_complement_array();
    let seq = b"atatattaaaaaaa";
    let irs = vec![(3, 10, 0), (1, 12, 6), (3, 7, 1)];
    assert_eq!(
        fmt_csv(&irs, seq, &matrix, &complement),
        "4,7,tatt,11,8,aaaa,1011\n\
         2,4,tat,13,11,aaa,101\n\
         4,5,ta,8,7,at,11\n"
    );
    assert_eq!(
        fmt_custom(&irs, seq, 0),
        "4,tatt,,aaaa\n2,tat,attaaa,aaa\n4,ta,t,at\n"
    );
    assert_eq!(
        fmt_classic(&irs, seq, &matrix, &complement),
        "4        tatt        7\n         | ||\n11       aaaa        8\n\n\
         2        tat        4\n         | |\n13       aaa       11\n\n\
         4        ta        5\n         ||\n8        at        7\n\n"
    );
    assert_eq!(fmt_csv(&[], seq, &matrix, &complement), "");
    assert_eq!(fmt_classic(&[], seq, &matrix, &complement), "");
    assert_eq!(fmt_custom(&[], seq, 0), "");
}

#[test]
fn test_check_all_fit() {
    assert!(check_all_fit(&[], 0));
    assert!(check_all_fit(&[(0, 5, 0), (1, 4, 2), (0, 1, 0)], 6));
    // The last position lies in the sequence.
    assert!(!check_all_fit(&[(0, 5, 0), (0, 6, 0)], 6));
    // Each arm holds a letter.
    assert!(!check_all_fit(&[(1, 4, 3)], 6));
    assert!(!check_all_fit(&[(4, 4, 0)], 6));
    assert!(!check_all_fit(&[(0, 5, usize::MAX)], 6));
    assert!(!check_all_fit(&[(usize::MAX, 5, 0)], 6));
    let params = SearchParams::new(3, 6, 2, 0).unwrap();
    assert!(check_all_fit(&find_irs(&params, b"acbbgt").unwrap(), 6));
}

#[test]
fn test_fits_search() {
    assert!(fits_search(0));
    assert!(fits_search(1_000_000));
    assert!(fits_search((i32::MAX as usize - 3) / 2));
    assert!(!fits_search((i32::MAX as usize - 1) / 2));
    assert!(!fits_search(usize::MAX));
}
