use iirs::constants::{build_complement_array, ALL_SYMBOLS, ALL_SYMBOLS_COUNT, IUPAC_SYMBOLS};
use iirs::matrix::MatchMatrix;

#[test]
fn matrix_test_constants() {
    assert_eq!(ALL_SYMBOLS.len(), ALL_SYMBOLS_COUNT);
}

#[test]
fn matrix_test_display() {
    let expected_output = "Match Matrix:\n  \
          a c g t u r y s w k m b d h v n * - $ #\n\
        a 0 0 0 1 1 0 1 0 1 1 0 1 1 1 0 1 1 1 0 0 \n\
        c 0 0 1 0 0 1 0 1 0 1 0 1 1 0 1 1 1 1 0 0 \n\
        g 0 1 0 0 0 0 1 1 0 0 1 1 0 1 1 1 1 1 0 0 \n\
        t 1 0 0 0 0 1 0 0 1 0 1 0 1 1 1 1 1 1 0 0 \n\
        u 1 0 0 0 0 1 0 0 1 0 1 0 1 1 1 1 1 1 0 0 \n\
        r 0 1 0 1 1 0 1 1 1 1 1 1 1 1 1 1 1 1 0 0 \n\
        y 1 0 1 0 0 1 0 1 1 1 1 1 1 1 1 1 1 1 0 0 \n\
        s 0 1 1 0 0 1 1 1 0 1 1 1 1 1 1 1 1 1 0 0 \n\
        w 1 0 0 1 1 1 1 0 1 1 1 1 1 1 1 1 1 1 0 0 \n\
        k 1 1 0 0 0 1 1 1 1 0 1 1 1 1 1 1 1 1 0 0 \n\
        m 0 0 1 1 1 1 1 1 1 1 0 1 1 1 1 1 1 1 0 0 \n\
        b 1 1 1 0 0 1 1 1 1 1 1 1 1 1 1 1 1 1 0 0 \n\
        d 1 1 0 1 1 1 1 1 1 1 1 1 1 1 1 1 1 1 0 0 \n\
        h 1 0 1 1 1 1 1 1 1 1 1 1 1 1 1 1 1 1 0 0 \n\
        v 0 1 1 1 1 1 1 1 1 1 1 1 1 1 1 1 1 1 0 0 \n\
        n 1 1 1 1 1 1 1 1 1 1 1 1 1 1 1 1 1 1 0 0 \n\
        * 1 1 1 1 1 1 1 1 1 1 1 1 1 1 1 1 1 1 0 0 \n\
        - 1 1 1 1 1 1 1 1 1 1 1 1 1 1 1 1 1 1 0 0 \n\
        $ 0 0 0 0 0 0 0 0 0 0 0 0 0 0 0 0 0 0 0 0 \n\
        # 0 0 0 0 0 0 0 0 0 0 0 0 0 0 0 0 0 0 0 0";

    let matrix = MatchMatrix::new();
    let complement = build_complement_array();
    let output = matrix.display(&complement);

    assert_eq!(output.trim(), expected_output.trim());
}

#[test]
fn matrix_test_matches() {
    let matrix = MatchMatrix::new();
    assert!(matrix.match_u8(b'a', b'a'));
    assert!(matrix.match_u8(b'k', b'u'));
    assert!(matrix.match_u8(b'k', b'g'));
}

#[test]
fn matrix_test_matches_special_chars() {
    let matrix = MatchMatrix::new();
    assert!(matrix.match_u8(b'$', b'$'));
    assert!(matrix.match_u8(b'#', b'#'));
}

#[test]
fn matrix_test_matches_not() {
    let matrix = MatchMatrix::new();
    assert!(!matrix.match_u8(b'a', b't'));
}

#[test]
fn matrix_test_matches_complementary() {
    let matrix = MatchMatrix::new();
    let complement = build_complement_array();
    assert!(!matrix.match_u8(b'k', complement['u' as usize]));
}

#[test]
fn test_match_chars() {
    let matrix = MatchMatrix::new();
    assert!(matrix.match_chars('a', 'a'));
    assert!(matrix.match_chars('k', 'u'));
    assert!(matrix.match_chars('n', '-'));
    assert!(!matrix.match_chars('a', 't'));
    assert!(!matrix.match_chars('a', 'z'));
    assert!(!matrix.match_chars('\u{e9}', 'a'));
}

#[test]
fn test_match_is_symmetric_and_total() {
    let matrix = MatchMatrix::new();
    for x in 0..=255u8 {
        for y in 0..=255u8 {
            assert_eq!(matrix.match_u8(x, y), matrix.match_u8(y, x));
        }
    }
    // A byte outside the alphabet matches nothing, not even itself.
    assert!(!matrix.match_u8(b'z', b'z'));
    assert!(!matrix.match_u8(b'A', b'a'));
    assert!(!matrix.match_u8(200, 200));
    assert!(!matrix.match_u8(0, b'a'));
}

#[test]
fn test_sentinels_match_only_themselves() {
    let matrix = MatchMatrix::new();
    for &x in ALL_SYMBOLS.as_bytes() {
        assert_eq!(matrix.match_u8(b'$', x), x == b'$');
        assert_eq!(matrix.match_u8(b'#', x), x == b'#');
    }
}

#[test]
fn test_match_swaps_with_complement() {
    let matrix = MatchMatrix::new();
    let complement = build_complement_array();
    for &x in IUPAC_SYMBOLS.as_bytes() {
        for &y in IUPAC_SYMBOLS.as_bytes() {
            assert_eq!(
                matrix.match_u8(x, complement[y as usize]),
                matrix.match_u8(complement[x as usize], y)
            );
        }
    }
}
