//! The IUPAC nucleotide alphabet: its letters, the concrete bases each letter
//! stands for, the complement map, and the default search settings.

use vstd::prelude::*;

verus! {

/// The shortest arm that a search looks for unless told otherwise.
pub const DEFAULT_MIN_LEN: usize = 10;

/// The longest arm that a search reports unless told otherwise.
pub const DEFAULT_MAX_LEN: usize = 100;

/// The widest gap between the arms unless told otherwise.
pub const DEFAULT_MAX_GAP: usize = 100;

/// The number of mismatches allowed unless told otherwise.
pub const DEFAULT_MISMATCHES: usize = 0;

/// The FASTA file that is read unless another is named.
pub const DEFAULT_INPUT_FILE: &'static str = "input.fasta";

/// The sequence that is searched unless another is named.
pub const DEFAULT_SEQ_NAME: &'static str = "seq0";

/// The file that the report is written to unless another is named.
pub const DEFAULT_OUTPUT_FILE: &'static str = "iirs.out";

/// The letters a sequence may hold.
pub const IUPAC_SYMBOLS: &'static str = "acgturyswkmbdhvn*-";

/// The letters of a sequence followed by the two sentinels of the doubled text.
pub const ALL_SYMBOLS: &'static str = "acgturyswkmbdhvn*-$#";

/// The number of letters of the doubled text.
pub const ALL_SYMBOLS_COUNT: usize = 20;

/// Separates the sequence from its reverse complement in the doubled text.
pub const SENTINEL_MID: u8 = 36;

/// Closes the doubled text.
pub const SENTINEL_END: u8 = 35;

/// The `i`-th letter of [`ALL_SYMBOLS`]; 0 outside the alphabet.
pub open spec fn symbol_at(i: int) -> u8 {
    if i == 0 {
        'a' as u8
    } else if i == 1 {
        'c' as u8
    } else if i == 2 {
        'g' as u8
    } else if i == 3 {
        't' as u8
    } else if i == 4 {
        'u' as u8
    } else if i == 5 {
        'r' as u8
    } else if i == 6 {
        'y' as u8
    } else if i == 7 {
        's' as u8
    } else if i == 8 {
        'w' as u8
    } else if i == 9 {
        'k' as u8
    } else if i == 10 {
        'm' as u8
    } else if i == 11 {
        'b' as u8
    } else if i == 12 {
        'd' as u8
    } else if i == 13 {
        'h' as u8
    } else if i == 14 {
        'v' as u8
    } else if i == 15 {
        'n' as u8
    } else if i == 16 {
        '*' as u8
    } else if i == 17 {
        '-' as u8
    } else if i == 18 {
        SENTINEL_MID
    } else if i == 19 {
        SENTINEL_END
    } else {
        0u8
    }
}

/// The place of `b` in [`ALL_SYMBOLS`]; [`ALL_SYMBOLS_COUNT`] for any other byte.
pub open spec fn symbol_index(b: u8) -> int {
    if b == 'a' as u8 {
        0
    } else if b == 'c' as u8 {
        1
    } else if b == 'g' as u8 {
        2
    } else if b == 't' as u8 {
        3
    } else if b == 'u' as u8 {
        4
    } else if b == 'r' as u8 {
        5
    } else if b == 'y' as u8 {
        6
    } else if b == 's' as u8 {
        7
    } else if b == 'w' as u8 {
        8
    } else if b == 'k' as u8 {
        9
    } else if b == 'm' as u8 {
        10
    } else if b == 'b' as u8 {
        11
    } else if b == 'd' as u8 {
        12
    } else if b == 'h' as u8 {
        13
    } else if b == 'v' as u8 {
        14
    } else if b == 'n' as u8 {
        15
    } else if b == '*' as u8 {
        16
    } else if b == '-' as u8 {
        17
    } else if b == SENTINEL_MID {
        18
    } else if b == SENTINEL_END {
        19
    } else {
        20
    }
}

/// `b` is one of the 18 letters a sequence may hold.
pub open spec fn is_iupac(b: u8) -> bool {
    symbol_index(b) < 18
}

/// `b` is a letter of the doubled text: an IUPAC letter or a sentinel.
pub open spec fn is_symbol(b: u8) -> bool {
    symbol_index(b) < 20
}

/// Every byte of `s` is an IUPAC letter.
pub open spec fn is_iupac_seq(s: Seq<u8>) -> bool {
    forall|i: int| 0 <= i < s.len() ==> is_iupac(#[trigger] s[i])
}

/// The complement of an IUPAC letter; 0 for any other byte.
pub open spec fn complement(b: u8) -> u8 {
    if b == 'a' as u8 {
        't' as u8
    } else if b == 'c' as u8 {
        'g' as u8
    } else if b == 'g' as u8 {
        'c' as u8
    } else if b == 't' as u8 {
        'a' as u8
    } else if b == 'u' as u8 {
        'a' as u8
    } else if b == 'r' as u8 {
        'y' as u8
    } else if b == 'y' as u8 {
        'r' as u8
    } else if b == 's' as u8 {
        's' as u8
    } else if b == 'w' as u8 {
        'w' as u8
    } else if b == 'k' as u8 {
        'm' as u8
    } else if b == 'm' as u8 {
        'k' as u8
    } else if b == 'b' as u8 {
        'v' as u8
    } else if b == 'd' as u8 {
        'h' as u8
    } else if b == 'h' as u8 {
        'd' as u8
    } else if b == 'v' as u8 {
        'b' as u8
    } else if b == 'n' as u8 {
        'n' as u8
    } else if b == '*' as u8 {
        'n' as u8
    } else if b == '-' as u8 {
        'n' as u8
    } else {
        0u8
    }
}

/// The concrete bases that a letter stands for, in ascending byte order.
/// Each sentinel stands for itself alone; a byte outside the alphabet for nothing.
pub open spec fn bases(b: u8) -> Seq<u8> {
    if b == 'a' as u8 {
        seq!['a' as u8]
    } else if b == 'c' as u8 {
        seq!['c' as u8]
    } else if b == 'g' as u8 {
        seq!['g' as u8]
    } else if b == 't' as u8 {
        seq!['t' as u8]
    } else if b == 'u' as u8 {
        seq!['t' as u8]
    } else if b == 'r' as u8 {
        seq!['a' as u8, 'g' as u8]
    } else if b == 'y' as u8 {
        seq!['c' as u8, 't' as u8]
    } else if b == 's' as u8 {
        seq!['c' as u8, 'g' as u8]
    } else if b == 'w' as u8 {
        seq!['a' as u8, 't' as u8]
    } else if b == 'k' as u8 {
        seq!['g' as u8, 't' as u8]
    } else if b == 'm' as u8 {
        seq!['a' as u8, 'c' as u8]
    } else if b == 'b' as u8 {
        seq!['c' as u8, 'g' as u8, 't' as u8]
    } else if b == 'd' as u8 {
        seq!['a' as u8, 'g' as u8, 't' as u8]
    } else if b == 'h' as u8 {
        seq!['a' as u8, 'c' as u8, 't' as u8]
    } else if b == 'v' as u8 {
        seq!['a' as u8, 'c' as u8, 'g' as u8]
    } else if b == 'n' as u8 || b == '*' as u8 || b == '-' as u8 {
        seq!['a' as u8, 'c' as u8, 'g' as u8, 't' as u8]
    } else if b == SENTINEL_MID {
        seq![SENTINEL_MID]
    } else if b == SENTINEL_END {
        seq![SENTINEL_END]
    } else {
        Seq::empty()
    }
}

/// The letter `b` can stand for the concrete base `base`.
pub open spec fn stands_for(b: u8, base: u8) -> bool {
    bases(b).contains(base)
}

/// Two letters match when some concrete base is common to both.
pub open spec fn symbols_match(x: u8, y: u8) -> bool {
    exists|base: u8| stands_for(x, base) && stands_for(y, base)
}

/// Whether `b` is one of the 18 letters a sequence may hold.
pub fn is_iupac_symbol(b: u8) -> (r: bool)
    ensures
        r == is_iupac(b),
{
    b == 'a' as u8 || b == 'c' as u8 || b == 'g' as u8 || b == 't' as u8 || b == 'u' as u8 || b
        == 'r' as u8 || b == 'y' as u8 || b == 's' as u8 || b == 'w' as u8 || b == 'k' as u8 || b
        == 'm' as u8 || b == 'b' as u8 || b == 'd' as u8 || b == 'h' as u8 || b == 'v' as u8 || b
        == 'n' as u8 || b == '*' as u8 || b == '-' as u8
}

/// The complement map as a table indexed by byte value.
pub fn build_complement_array() -> (table: [u8; 128])
    ensures
        forall|b: u8| b < 128 ==> table[b as int] == complement(b),
{
    let mut table: [u8; 128] = [0u8; 128];
    table['a' as usize] = 't' as u8;
    table['c' as usize] = 'g' as u8;
    table['g' as usize] = 'c' as u8;
    table['t' as usize] = 'a' as u8;
    table['u' as usize] = 'a' as u8;
    table['r' as usize] = 'y' as u8;
    table['y' as usize] = 'r' as u8;
    table['s' as usize] = 's' as u8;
    table['w' as usize] = 'w' as u8;
    table['k' as usize] = 'm' as u8;
    table['m' as usize] = 'k' as u8;
    table['b' as usize] = 'v' as u8;
    table['d' as usize] = 'h' as u8;
    table['h' as usize] = 'd' as u8;
    table['v' as usize] = 'b' as u8;
    table['n' as usize] = 'n' as u8;
    table['*' as usize] = 'n' as u8;
    table['-' as usize] = 'n' as u8;
    table
}

/// Each letter of [`ALL_SYMBOLS`], in that order, with the bases it stands for.
pub fn build_iupac_rules() -> (rules: Vec<(u8, Vec<u8>)>)
    ensures
        rules.len() == ALL_SYMBOLS_COUNT,
        forall|i: int|
            0 <= i < ALL_SYMBOLS_COUNT ==> (#[trigger] rules[i]).0 == symbol_at(i) && rules[i].1@
                == bases(symbol_at(i)),
{
    let a: u8 = 'a' as u8;
    let c: u8 = 'c' as u8;
    let g: u8 = 'g' as u8;
    let t: u8 = 't' as u8;
    let mut rules: Vec<(u8, Vec<u8>)> = Vec::new();
    rules.push((a, vec![a]));
    rules.push((c, vec![c]));
    rules.push((g, vec![g]));
    rules.push((t, vec![t]));
    rules.push(('u' as u8, vec![t]));
    rules.push(('r' as u8, vec![a, g]));
    rules.push(('y' as u8, vec![c, t]));
    rules.push(('s' as u8, vec![c, g]));
    rules.push(('w' as u8, vec![a, t]));
    rules.push(('k' as u8, vec![g, t]));
    rules.push(('m' as u8, vec![a, c]));
    rules.push(('b' as u8, vec![c, g, t]));
    rules.push(('d' as u8, vec![a, g, t]));
    rules.push(('h' as u8, vec![a, c, t]));
    rules.push(('v' as u8, vec![a, c, g]));
    rules.push(('n' as u8, vec![a, c, g, t]));
    rules.push(('*' as u8, vec![a, c, g, t]));
    rules.push(('-' as u8, vec![a, c, g, t]));
    rules.push((SENTINEL_MID, vec![SENTINEL_MID]));
    rules.push((SENTINEL_END, vec![SENTINEL_END]));
    proof {
        assert forall|i: int| 0 <= i < ALL_SYMBOLS_COUNT implies (#[trigger] rules[i]).0
            == symbol_at(i) && rules[i].1@ == bases(symbol_at(i)) by {
            assert(rules[i].1@ =~= bases(symbol_at(i)));
        }
    }
    rules
}

/// The complement map turns the bases of a letter into their complements, so a
/// letter matches the complement of another exactly when the roles can be swapped.
pub proof fn lemma_match_complement_swap(x: u8, y: u8)
    requires
        is_iupac(x),
        is_iupac(y),
    ensures
        symbols_match(x, complement(y)) == symbols_match(complement(x), y),
{
    lemma_match_closed_form(x, complement(y));
    lemma_match_closed_form(complement(x), y);
}

/// Matching is symmetric.
pub proof fn lemma_match_symmetric(x: u8, y: u8)
    ensures
        symbols_match(x, y) == symbols_match(y, x),
{
    if symbols_match(x, y) {
        let base = choose|base: u8| stands_for(x, base) && stands_for(y, base);
        assert(stands_for(y, base) && stands_for(x, base));
    }
    if symbols_match(y, x) {
        let base = choose|base: u8| stands_for(y, base) && stands_for(x, base);
        assert(stands_for(x, base) && stands_for(y, base));
    }
}

/// Every letter of the doubled text matches itself.
pub proof fn lemma_match_reflexive(x: u8)
    requires
        is_symbol(x),
    ensures
        symbols_match(x, x),
{
    assert(bases(x).len() > 0);
    let base = bases(x)[0];
    assert(stands_for(x, base));
}

/// The six concrete bases, as a test on each: `b` stands for `base`.
pub open spec fn has_base(b: u8, base: u8) -> bool {
    if base == 'a' as u8 {
        b == 'a' as u8 || b == 'r' as u8 || b == 'w' as u8 || b == 'm' as u8 || b == 'd' as u8
            || b == 'h' as u8 || b == 'v' as u8 || b == 'n' as u8 || b == '*' as u8 || b
            == '-' as u8
    } else if base == 'c' as u8 {
        b == 'c' as u8 || b == 'y' as u8 || b == 's' as u8 || b == 'm' as u8 || b == 'b' as u8
            || b == 'h' as u8 || b == 'v' as u8 || b == 'n' as u8 || b == '*' as u8 || b
            == '-' as u8
    } else if base == 'g' as u8 {
        b == 'g' as u8 || b == 'r' as u8 || b == 's' as u8 || b == 'k' as u8 || b == 'b' as u8
            || b == 'd' as u8 || b == 'v' as u8 || b == 'n' as u8 || b == '*' as u8 || b
            == '-' as u8
    } else if base == 't' as u8 {
        b == 't' as u8 || b == 'u' as u8 || b == 'y' as u8 || b == 'w' as u8 || b == 'k' as u8
            || b == 'b' as u8 || b == 'd' as u8 || b == 'h' as u8 || b == 'n' as u8 || b
            == '*' as u8 || b == '-' as u8
    } else if base == SENTINEL_MID {
        b == SENTINEL_MID
    } else if base == SENTINEL_END {
        b == SENTINEL_END
    } else {
        false
    }
}

/// [`stands_for`] letter by letter.
pub proof fn lemma_stands_for(b: u8, base: u8)
    ensures
        stands_for(b, base) == has_base(b, base),
{
    let s = bases(b);
    if has_base(b, base) {
        if s.len() >= 1 && s[0] == base {
        } else if s.len() >= 2 && s[1] == base {
        } else if s.len() >= 3 && s[2] == base {
        } else if s.len() >= 4 && s[3] == base {
        }
        assert(exists|i: int| 0 <= i < s.len() && s[i] == base);
    }
}

/// [`symbols_match`] without a quantifier.
pub proof fn lemma_match_closed_form(x: u8, y: u8)
    ensures
        symbols_match(x, y) == (has_base(x, 'a' as u8) && has_base(y, 'a' as u8) || has_base(
            x,
            'c' as u8,
        ) && has_base(y, 'c' as u8) || has_base(x, 'g' as u8) && has_base(y, 'g' as u8)
            || has_base(x, 't' as u8) && has_base(y, 't' as u8) || has_base(x, SENTINEL_MID)
            && has_base(y, SENTINEL_MID) || has_base(x, SENTINEL_END) && has_base(
            y,
            SENTINEL_END,
        )),
{
    lemma_stands_for(x, 'a' as u8);
    lemma_stands_for(y, 'a' as u8);
    lemma_stands_for(x, 'c' as u8);
    lemma_stands_for(y, 'c' as u8);
    lemma_stands_for(x, 'g' as u8);
    lemma_stands_for(y, 'g' as u8);
    lemma_stands_for(x, 't' as u8);
    lemma_stands_for(y, 't' as u8);
    lemma_stands_for(x, SENTINEL_MID);
    lemma_stands_for(y, SENTINEL_MID);
    lemma_stands_for(x, SENTINEL_END);
    lemma_stands_for(y, SENTINEL_END);
    if symbols_match(x, y) {
        let base = choose|base: u8| stands_for(x, base) && stands_for(y, base);
        lemma_stands_for(x, base);
        lemma_stands_for(y, base);
    }
}

/// The shape of a report.
#[derive(Debug, Clone, Copy, PartialEq, Eq, Structural)]
pub enum OutputFormat {
    /// Three lines for each repeat: the two arms and the pairs that match.
    Classic,
    /// One line of seven fields for each repeat.
    Csv,
    /// One line of four fields for each repeat, for reading by other programs.
    Custom,
}

impl Default for OutputFormat {
    fn default() -> (format: Self)
        ensures
            format == OutputFormat::Classic,
    {
        OutputFormat::Classic
    }
}

impl OutputFormat {
    /// The name by which the format is chosen.
    pub open spec fn spec_name(self) -> Seq<char> {
        match self {
            OutputFormat::Classic => "classic"@,
            OutputFormat::Csv => "csv"@,
            OutputFormat::Custom => "custom"@,
        }
    }

    /// The name by which the format is chosen.
    pub fn name(&self) -> (text: &'static str)
        ensures
            text@ == self.spec_name(),
    {
        match self {
            OutputFormat::Classic => "classic",
            OutputFormat::Csv => "csv",
            OutputFormat::Custom => "custom",
        }
    }
}

/// The format of that name, if there is one.
pub open spec fn format_named(name: Seq<char>) -> Option<OutputFormat> {
    if name == "classic"@ {
        Some(OutputFormat::Classic)
    } else if name == "csv"@ {
        Some(OutputFormat::Csv)
    } else if name == "custom"@ {
        Some(OutputFormat::Custom)
    } else {
        None
    }
}

} // verus!
