use iirs::constants::{
    build_complement_array, build_iupac_rules, is_iupac_symbol, ALL_SYMBOLS, ALL_SYMBOLS_COUNT,
    IUPAC_SYMBOLS,
};
use iirs::OutputFormat;

#[test]
fn constants_test_constants() {
    assert_eq!(ALL_SYMBOLS.len(), ALL_SYMBOLS_COUNT);
}

#[test]
fn test_complement_table() {
    let complement = build_complement_array();
    let pairs = [
        ('a', 't'),
        ('c', 'g'),
        ('g', 'c'),
        ('t', 'a'),
        ('u', 'a'),
        ('r', 'y'),
        ('y', 'r'),
        ('s', 's'),
        ('w', 'w'),
        ('k', 'm'),
        ('m', 'k'),
        ('b', 'v'),
        ('d', 'h'),
        ('h', 'd'),
        ('v', 'b'),
        ('n', 'n'),
        ('*', 'n'),
        ('-', 'n'),
    ];
    for (from, to) in pairs {
        assert_eq!(complement[from as usize], to as u8);
    }
    let defined = complement.iter().filter(|&&b| b != 0).count();
    assert_eq!(defined, 18);
    assert_eq!(complement['$' as usize], 0);
    assert_eq!(complement['A' as usize], 0);
}

#[test]
fn test_iupac_rules() {
    let rules = build_iupac_rules();
    assert_eq!(rules.len(), ALL_SYMBOLS_COUNT);
    for (rule, symbol) in rules.iter().zip(ALL_SYMBOLS.bytes()) {
        assert_eq!(rule.0, symbol);
    }
    assert_eq!(rules[0].1, b"a".to_vec());
    assert_eq!(rules[4].1, b"t".to_vec());
    assert_eq!(rules[7].1, b"cg".to_vec());
    assert_eq!(rules[12].1, b"agt".to_vec());
    assert_eq!(rules[15].1, b"acgt".to_vec());
    assert_eq!(rules[16].1, b"acgt".to_vec());
    assert_eq!(rules[18].1, b"$".to_vec());
    assert_eq!(rules[19].1, b"#".to_vec());
}

#[test]
fn test_is_iupac_symbol() {
    for b in 0..=255u8 {
        assert_eq!(is_iupac_symbol(b), IUPAC_SYMBOLS.as_bytes().contains(&b));
    }
}

#[test]
fn test_output_format_names() {
    assert_eq!(OutputFormat::default(), OutputFormat::Classic);
    assert_eq!(OutputFormat::Classic.name(), "classic");
    assert_eq!(OutputFormat::Csv.name(), "csv");
    assert_eq!(OutputFormat::Custom.name(), "custom");
}
