//! The degenerate match relation as a lookup table.

use crate::constants::{
    bases, build_iupac_rules, complement, lemma_match_closed_form, stands_for, symbol_at,
    symbol_index, symbols_match, ALL_SYMBOLS_COUNT,
};
use crate::strings::{push_char, push_text};
use vstd::prelude::*;

verus! {

/// Answers whether two letters of the doubled text match.
pub struct MatchMatrix {
    /// Row-major table over the places of two letters in the alphabet.
    match_matrix: [bool; 400],
    /// The place of each byte below 128 in the alphabet, `ALL_SYMBOLS_COUNT` for
    /// a byte that is no letter.
    iupac_char_to_index: [usize; 128],
}

/// Whether two lists of bases share an element.
fn intersects(a: &Vec<u8>, b: &Vec<u8>) -> (r: bool)
    ensures
        r == exists|base: u8| a@.contains(base) && b@.contains(base),
{
    let mut i: usize = 0;
    while i < a.len()
        invariant
            i <= a.len(),
            forall|k: int, l: int| 0 <= k < i && 0 <= l < b.len() ==> a[k] != b[l],
        decreases a.len() - i,
    {
        let mut j: usize = 0;
        while j < b.len()
            invariant
                i < a.len(),
                j <= b.len(),
                forall|l: int| 0 <= l < j ==> a[i as int] != b[l],
            decreases b.len() - j,
        {
            if a[i] == b[j] {
                proof {
                    let base = a[i as int];
                    assert(a@.contains(base) && b@.contains(base));
                }
                return true;
            }
            j += 1;
        }
        i += 1;
    }
    false
}

impl MatchMatrix {
    /// The table of matches, row by row.
    pub closed spec fn table(self) -> Seq<bool> {
        self.match_matrix@
    }

    /// The place in the alphabet of each byte below 128.
    pub closed spec fn places(self) -> Seq<usize> {
        self.iupac_char_to_index@
    }

    /// The tables hold the match relation: the place of every byte in the
    /// alphabet, and for every two places whether their letters match.
    #[verifier::type_invariant]
    pub open spec fn wf(self) -> bool {
        &&& self.table().len() == 400
        &&& self.places().len() == 128
        &&& forall|b: u8| b < 128 ==> (#[trigger] self.places()[b as int]) == symbol_index(b)
        &&& forall|i: int, j: int|
            0 <= i < 20 && 0 <= j < 20 ==> (#[trigger] self.table()[i * 20 + j]) == symbols_match(
                symbol_at(i),
                symbol_at(j),
            )
    }

    /// Tabulates the match relation over the 20 letters of the doubled text.
    pub fn new() -> (matrix: Self)
        ensures
            matrix.wf(),
    {
        let iupac_rules = build_iupac_rules();
        let mut iupac_char_to_index: [usize; 128] = [ALL_SYMBOLS_COUNT; 128];
        let mut match_matrix: [bool; 400] = [false; 400];
        let mut i: usize = 0;
        while i < ALL_SYMBOLS_COUNT
            invariant
                i <= ALL_SYMBOLS_COUNT,
                iupac_rules.len() == ALL_SYMBOLS_COUNT,
                forall|k: int|
                    0 <= k < ALL_SYMBOLS_COUNT ==> (#[trigger] iupac_rules[k]).0 == symbol_at(k)
                        && iupac_rules[k].1@ == bases(symbol_at(k)),
                forall|b: u8|
                    b < 128 ==> (#[trigger] iupac_char_to_index[b as int]) == (if symbol_index(b)
                        < i {
                        symbol_index(b)
                    } else {
                        20
                    }),
                forall|k: int, l: int|
                    0 <= k < i && 0 <= l < 20 ==> (#[trigger] match_matrix[k * 20 + l])
                        == symbols_match(symbol_at(k), symbol_at(l)),
            decreases ALL_SYMBOLS_COUNT - i,
        {
            let symbol = iupac_rules[i].0;
            iupac_char_to_index[symbol as usize] = i;
            let mut j: usize = 0;
            while j < ALL_SYMBOLS_COUNT
                invariant
                    i < ALL_SYMBOLS_COUNT,
                    j <= ALL_SYMBOLS_COUNT,
                    iupac_rules.len() == ALL_SYMBOLS_COUNT,
                    forall|k: int|
                        0 <= k < ALL_SYMBOLS_COUNT ==> (#[trigger] iupac_rules[k]).0 == symbol_at(
                            k,
                        ) && iupac_rules[k].1@ == bases(symbol_at(k)),
                    forall|k: int, l: int|
                        0 <= k < i && 0 <= l < 20 ==> (#[trigger] match_matrix[k * 20 + l])
                            == symbols_match(symbol_at(k), symbol_at(l)),
                    forall|l: int|
                        0 <= l < j ==> (#[trigger] match_matrix[i * 20 + l]) == symbols_match(
                            symbol_at(i as int),
                            symbol_at(l),
                        ),
                decreases ALL_SYMBOLS_COUNT - j,
            {
                let matching = intersects(&iupac_rules[i].1, &iupac_rules[j].1);
                proof {
                    let x = symbol_at(i as int);
                    let y = symbol_at(j as int);
                    assert(iupac_rules[i as int].1@ == bases(x));
                    assert(iupac_rules[j as int].1@ == bases(y));
                    if matching {
                        let base = choose|base: u8|
                            bases(x).contains(base) && bases(y).contains(base);
                        assert(stands_for(x, base) && stands_for(y, base));
                    }
                    if symbols_match(x, y) {
                        let base = choose|base: u8| stands_for(x, base) && stands_for(y, base);
                        assert(bases(x).contains(base) && bases(y).contains(base));
                    }
                }
                match_matrix[i * ALL_SYMBOLS_COUNT + j] = matching;
                j += 1;
            }
            i += 1;
        }
        Self { match_matrix, iupac_char_to_index }
    }

    /// Whether the letters `b1` and `b2` match. A byte that is no letter of the
    /// doubled text matches nothing.
    pub fn match_u8(&self, b1: u8, b2: u8) -> (r: bool)
        ensures
            r == symbols_match(b1, b2),
    {
        proof {
            use_type_invariant(self);
            lemma_match_closed_form(b1, b2);
        }
        if b1 >= 128 || b2 >= 128 {
            return false;
        }
        let i = self.iupac_char_to_index[b1 as usize];
        let j = self.iupac_char_to_index[b2 as usize];
        if i >= ALL_SYMBOLS_COUNT || j >= ALL_SYMBOLS_COUNT {
            return false;
        }
        self.match_matrix[i * ALL_SYMBOLS_COUNT + j]
    }
}

/// The mark of the table that [`MatchMatrix::display`] draws for the letters
/// at the places `i` and `j` of the alphabet: whether the first matches the
/// complement of the second. A sentinel has no complement and gets a 0.
pub open spec fn table_mark(i: int, j: int) -> char {
    if i < 18 && j < 18 && symbols_match(symbol_at(i), complement(symbol_at(j))) {
        '1'
    } else {
        '0'
    }
}

/// The first `upto` marks of row `i` of the table, a blank after each.
pub open spec fn table_row_marks(i: int, upto: int) -> Seq<char>
    decreases upto,
{
    if upto <= 0 {
        Seq::empty()
    } else {
        table_row_marks(i, upto - 1) + seq![table_mark(i, upto - 1), ' ']
    }
}

/// The first `upto` rows of the table: the letter of the row, a blank, and its marks.
pub open spec fn table_rows(upto: int) -> Seq<char>
    decreases upto,
{
    if upto <= 0 {
        Seq::empty()
    } else {
        table_rows(upto - 1) + seq![symbol_at(upto - 1) as char, ' '] + table_row_marks(
            upto - 1,
            ALL_SYMBOLS_COUNT as int,
        ) + seq!['\n']
    }
}

/// The table that [`MatchMatrix::display`] draws.
pub open spec fn match_table() -> Seq<char> {
    "Match Matrix:\n  a c g t u r y s w k m b d h v n * - $ #\n"@ + table_rows(
        ALL_SYMBOLS_COUNT as int,
    ) + "\n\n"@
}

impl MatchMatrix {
    /// Whether the letters `ch1` and `ch2` match. A character that is no
    /// letter of the doubled text matches nothing.
    pub fn match_chars(&self, ch1: char, ch2: char) -> (r: bool)
        ensures
            r == (ch1 as u32 <= 127 && ch2 as u32 <= 127 && symbols_match(ch1 as u8, ch2 as u8)),
    {
        if ch1 as u32 > 127 || ch2 as u32 > 127 {
            return false;
        }
        self.match_u8(ch1 as u8, ch2 as u8)
    }

    /// The match relation between each letter and the complement of each
    /// letter, as a table of 0 and 1 under a line of column titles.
    pub fn display(&self, complement_table: &[u8; 128]) -> (text: String)
        requires
            forall|b: u8| b < 128 ==> complement_table[b as int] == complement(b),
        ensures
            text@ == match_table(),
    {
        let rules = build_iupac_rules();
        let mut out = String::new();
        push_text(&mut out, "Match Matrix:\n  a c g t u r y s w k m b d h v n * - $ #\n");
        let ghost head = out@;
        let mut i: usize = 0;
        assert(head + table_rows(0) =~= head);
        while i < ALL_SYMBOLS_COUNT
            invariant
                i <= ALL_SYMBOLS_COUNT,
                rules.len() == ALL_SYMBOLS_COUNT,
                forall|k: int|
                    0 <= k < ALL_SYMBOLS_COUNT ==> (#[trigger] rules[k]).0 == symbol_at(k),
                forall|b: u8| b < 128 ==> complement_table[b as int] == complement(b),
                out@ == head + table_rows(i as int),
            decreases ALL_SYMBOLS_COUNT - i,
        {
            let si = rules[i].0;
            let ghost row_start = out@;
            push_char(&mut out, si as char);
            push_char(&mut out, ' ');
            let ghost marks_start = out@;
            let mut j: usize = 0;
            assert(marks_start + table_row_marks(i as int, 0) =~= marks_start);
            while j < ALL_SYMBOLS_COUNT
                invariant
                    i < ALL_SYMBOLS_COUNT,
                    j <= ALL_SYMBOLS_COUNT,
                    rules.len() == ALL_SYMBOLS_COUNT,
                    si == symbol_at(i as int),
                    forall|k: int|
                        0 <= k < ALL_SYMBOLS_COUNT ==> (#[trigger] rules[k]).0 == symbol_at(k),
                    forall|b: u8| b < 128 ==> complement_table[b as int] == complement(b),
                    out@ == marks_start + table_row_marks(i as int, j as int),
                decreases ALL_SYMBOLS_COUNT - j,
            {
                let sj = rules[j].0;
                let matched = if i >= 18 || j >= 18 {
                    false
                } else {
                    self.match_u8(si, complement_table[sj as usize])
                };
                let mark = if matched {
                    '1'
                } else {
                    '0'
                };
                push_char(&mut out, mark);
                push_char(&mut out, ' ');
                proof {
                    assert(mark == table_mark(i as int, j as int));
                    assert(out@ =~= marks_start + (table_row_marks(i as int, j as int) + seq![
                        mark,
                        ' ',
                    ]));
                }
                j += 1;
            }
            push_char(&mut out, '\n');
            proof {
                assert(out@ =~= head + (table_rows(i as int) + seq![si as char, ' ']
                    + table_row_marks(i as int, ALL_SYMBOLS_COUNT as int) + seq!['\n']));
            }
            i += 1;
        }
        push_text(&mut out, "\n\n");
        assert(out@ =~= match_table());
        out
    }
}

} // verus!
