//! Rendering a list of inverted repeats as text.

use crate::config::Config;
use crate::constants::{complement, symbols_match};
use crate::matrix::MatchMatrix;
use crate::strings::{
    decimal, int_size, letters, letters_reversed, push_char, push_decimal, push_letters,
    push_letters_reversed, push_padding, push_text, spaces,
};
use vstd::prelude::*;
use vstd::string::StringExecFns;

verus! {

/// The width of the column that holds a position in the classic report.
pub const PAD_LENGTH: usize = 9;

/// The repeat lies inside a sequence of `n` letters and each of its arms holds
/// at least one letter.
pub open spec fn fits_sequence(ir: (usize, usize, usize), n: int) -> bool {
    ir.1 < n && ir.0 + ir.2 + 1 <= ir.1
}

/// Every repeat of the list lies inside a sequence of `n` letters.
pub open spec fn all_fit(irs: Seq<(usize, usize, usize)>, n: int) -> bool {
    forall|k: int| 0 <= k < irs.len() ==> fits_sequence(#[trigger] irs[k], n)
}

/// Whether every repeat of the list lies inside a sequence of `n` letters.
pub fn check_all_fit(irs: &[(usize, usize, usize)], n: usize) -> (r: bool)
    ensures
        r == all_fit(irs@, n as int),
{
    let mut k: usize = 0;
    while k < irs.len()
        invariant
            k <= irs.len(),
            forall|x: int| 0 <= x < k ==> fits_sequence(#[trigger] irs@[x], n as int),
        decreases irs.len() - k,
    {
        let (left, right, gap) = irs[k];
        let fits = right < n && gap < right && left < right - gap;
        if !fits {
            assert(!fits_sequence(irs@[k as int], n as int));
            return false;
        }
        k += 1;
    }
    true
}

/// The last position of the left arm, counted from 1.
pub open spec fn inner_left(ir: (usize, usize, usize)) -> int {
    (ir.0 + 1 + ir.1 + 1 - 1 - ir.2) / 2
}

/// The first position of the right arm, counted from 1.
pub open spec fn inner_right(ir: (usize, usize, usize)) -> int {
    (ir.1 + 1 + ir.0 + 1 + 1 + ir.2) / 2
}

/// One mark for each pair of the arms, from the outermost pair inwards: `hit`
/// where the left letter matches the complement of the right one, `miss`
/// where it does not.
pub open spec fn match_marks(seq: Seq<u8>, ir: (usize, usize, usize), hit: char, miss: char) -> Seq<
    char,
> {
    Seq::new(
        (inner_left(ir) - ir.0) as nat,
        |i: int|
            if symbols_match(seq[ir.0 + i], complement(seq[ir.1 - i])) {
                hit
            } else {
                miss
            },
    )
}

/// A position in its column of the classic report: the number, then blanks.
pub open spec fn left_column(x: int) -> Seq<char> {
    decimal(x as nat) + spaces(PAD_LENGTH - decimal(x as nat).len())
}

/// A position at the end of a line of the classic report: blanks, then the number.
pub open spec fn right_column(x: int) -> Seq<char> {
    spaces(PAD_LENGTH - decimal(x as nat).len()) + decimal(x as nat)
}

/// The three lines of one repeat in the classic report, and a blank line.
pub open spec fn classic_block(seq: Seq<u8>, ir: (usize, usize, usize)) -> Seq<char> {
    left_column(ir.0 + 1) + letters(seq, ir.0 as int, inner_left(ir)) + right_column(
        inner_left(ir),
    ) + seq!['\n'] + spaces(PAD_LENGTH as int) + match_marks(seq, ir, '|', ' ') + seq!['\n']
        + left_column(ir.1 + 1) + letters_reversed(seq, inner_right(ir) - 1, ir.1 + 1)
        + right_column(inner_right(ir)) + seq!['\n', '\n']
}

/// The line of one repeat in the CSV report.
pub open spec fn csv_line(seq: Seq<u8>, ir: (usize, usize, usize)) -> Seq<char> {
    decimal((ir.0 + 1) as nat) + seq![','] + decimal(inner_left(ir) as nat) + seq![','] + letters(
        seq,
        ir.0 as int,
        inner_left(ir),
    ) + seq![','] + decimal((ir.1 + 1) as nat) + seq![','] + decimal(inner_right(ir) as nat)
        + seq![','] + letters_reversed(seq, inner_right(ir) - 1, ir.1 + 1) + seq![',']
        + match_marks(seq, ir, '1', '0') + seq!['\n']
}

/// The line of one repeat in the custom report: its first position, counted
/// from 1 and shifted by `offset`, the left arm, the gap and the right arm.
pub open spec fn custom_line(seq: Seq<u8>, ir: (usize, usize, usize), offset: int) -> Seq<char> {
    decimal((ir.0 + 1 + offset) as nat) + seq![','] + letters(seq, ir.0 as int, inner_left(ir))
        + seq![','] + letters(seq, inner_left(ir), inner_right(ir) - 1) + seq![',']
        + letters_reversed(seq, inner_right(ir) - 1, ir.1 + 1) + seq!['\n']
}

/// The classic report of the first `upto` repeats.
pub open spec fn classic_report(seq: Seq<u8>, irs: Seq<(usize, usize, usize)>, upto: int) -> Seq<
    char,
>
    decreases upto,
{
    if upto <= 0 {
        Seq::empty()
    } else {
        classic_report(seq, irs, upto - 1) + classic_block(seq, irs[upto - 1])
    }
}

/// The CSV report of the first `upto` repeats.
pub open spec fn csv_report(seq: Seq<u8>, irs: Seq<(usize, usize, usize)>, upto: int) -> Seq<char>
    decreases upto,
{
    if upto <= 0 {
        Seq::empty()
    } else {
        csv_report(seq, irs, upto - 1) + csv_line(seq, irs[upto - 1])
    }
}

/// The custom report of the first `upto` repeats.
pub open spec fn custom_report(
    seq: Seq<u8>,
    irs: Seq<(usize, usize, usize)>,
    offset: int,
    upto: int,
) -> Seq<char>
    decreases upto,
{
    if upto <= 0 {
        Seq::empty()
    } else {
        custom_report(seq, irs, offset, upto - 1) + custom_line(seq, irs[upto - 1], offset)
    }
}

/// Appending piece by piece is appending the whole.
proof fn lemma_append_assoc(a: Seq<char>, b: Seq<char>, c: Seq<char>)
    ensures
        (a + b) + c == a + (b + c),
{
    assert((a + b) + c =~= a + (b + c));
}

/// The last position of the left arm and the first of the right arm, both
/// counted from 1.
fn inner_positions(ir: (usize, usize, usize), Ghost(n): Ghost<int>) -> (r: (usize, usize))
    requires
        fits_sequence(ir, n),
        n <= usize::MAX,
    ensures
        r.0 == inner_left(ir),
        r.1 == inner_right(ir),
        ir.0 < r.0 <= ir.1,
        2 <= r.1 <= ir.1 + 2,
{
    let (left, right, gap) = ir;
    let span = right - left + 1 - gap;
    let half = span / 2;
    let inner_left = left + half;
    let inner_right = right + 1 - half + 1 - span % 2;
    (inner_left, inner_right)
}

/// Appends a position in its column: the number, then blanks.
fn push_left_column(out: &mut String, x: usize)
    ensures
        final(out)@ == old(out)@ + left_column(x as int),
{
    push_decimal(out, x as u128);
    push_padding(out, PAD_LENGTH, int_size(x));
    assert(out@ =~= old(out)@ + left_column(x as int));
}

/// Appends a position at the end of a line: blanks, then the number.
fn push_right_column(out: &mut String, x: usize)
    ensures
        final(out)@ == old(out)@ + right_column(x as int),
{
    push_padding(out, PAD_LENGTH, int_size(x));
    push_decimal(out, x as u128);
    assert(out@ =~= old(out)@ + right_column(x as int));
}

/// Appends one mark for each pair of the arms, from the outermost pair inwards.
fn push_match_marks(
    out: &mut String,
    ir: (usize, usize, usize),
    seq: &[u8],
    matrix: &MatchMatrix,
    complement_table: &[u8; 128],
    hit: char,
    miss: char,
)
    requires
        fits_sequence(ir, seq.len() as int),
        forall|b: u8| b < 128 ==> complement_table[b as int] == complement(b),
    ensures
        final(out)@ == old(out)@ + match_marks(seq@, ir, hit, miss),
{
    let (left, right, _) = ir;
    let (inner_left, _) = inner_positions(ir, Ghost(seq.len() as int));
    let count = inner_left - left;
    let ghost marks = match_marks(seq@, ir, hit, miss);
    let mut i: usize = 0;
    assert(out@ + marks.take(0) =~= out@);
    while i < count
        invariant
            i <= count,
            count == inner_left - left,
            inner_left == self::inner_left(ir),
            left == ir.0,
            right == ir.1,
            left < inner_left <= right,
            right < seq.len(),
            marks == match_marks(seq@, ir, hit, miss),
            forall|b: u8| b < 128 ==> complement_table[b as int] == complement(b),
            out@ == old(out)@ + marks.take(i as int),
        decreases count - i,
    {
        let l = seq[left + i];
        let r = seq[right - i];
        let other = if r < 128 {
            complement_table[r as usize]
        } else {
            0
        };
        let matching = matrix.match_u8(l, other);
        let mark = if matching {
            hit
        } else {
            miss
        };
        push_char(out, mark);
        proof {
            assert(marks[i as int] == mark);
            assert(marks.take(i + 1) =~= marks.take(i as int).push(mark));
            assert((old(out)@ + marks.take(i as int)).push(mark) =~= old(out)@ + marks.take(i + 1));
        }
        i += 1;
    }
    assert(marks.take(count as int) =~= marks);
}

/// The head of the classic report.
pub fn fmt_classic_header(config: &Config, n: usize) -> (header: String)
    ensures
        header@ == classic_header(*config, n),
{
    let mut out = String::new();
    push_text(&mut out, "Palindromes of: ");
    push_text(&mut out, config.input_file.as_str());
    push_text(&mut out, "\nSequence name: ");
    push_text(&mut out, config.seq_name.as_str());
    push_text(&mut out, "\nSequence length is: ");
    push_decimal(&mut out, n as u128);
    push_text(&mut out, "\nStart at position: ");
    push_decimal(&mut out, 1);
    push_text(&mut out, "\nEnd at position: ");
    push_decimal(&mut out, n as u128);
    push_text(&mut out, "\nMinimum length of Palindromes is: ");
    push_decimal(&mut out, config.params.min_len as u128);
    push_text(&mut out, "\nMaximum length of Palindromes is: ");
    push_decimal(&mut out, config.params.max_len as u128);
    push_text(&mut out, "\nMaximum gap between elements is: ");
    push_decimal(&mut out, config.params.max_gap as u128);
    push_text(&mut out, "\nNumber of mismatches allowed in Palindrome: ");
    push_decimal(&mut out, config.params.mismatches as u128);
    push_text(&mut out, "\n\n\n\nPalindromes:");
    assert(out@ =~= classic_header(*config, n));
    out
}

/// The head of the classic report: the settings of the run and the length of
/// the sequence.
pub open spec fn classic_header(config: Config, n: usize) -> Seq<char> {
    "Palindromes of: "@ + config.input_file@ + "\nSequence name: "@ + config.seq_name@
        + "\nSequence length is: "@ + decimal(n as nat) + "\nStart at position: "@ + decimal(1)
        + "\nEnd at position: "@ + decimal(n as nat) + "\nMinimum length of Palindromes is: "@
        + decimal(config.params.min_len as nat) + "\nMaximum length of Palindromes is: "@
        + decimal(config.params.max_len as nat) + "\nMaximum gap between elements is: "@ + decimal(
        config.params.max_gap as nat,
    ) + "\nNumber of mismatches allowed in Palindrome: "@ + decimal(
        config.params.mismatches as nat,
    ) + "\n\n\n\nPalindromes:"@
}

/// Appends the three lines of one repeat in the classic report, and a blank line.
fn push_classic_block(
    out: &mut String,
    ir: (usize, usize, usize),
    seq: &[u8],
    matrix: &MatchMatrix,
    complement_table: &[u8; 128],
)
    requires
        fits_sequence(ir, seq.len() as int),
        forall|b: u8| b < 128 ==> complement_table[b as int] == complement(b),
    ensures
        final(out)@ == old(out)@ + classic_block(seq@, ir),
{
    let (left, right, _) = ir;
    let (inner_left, inner_right) = inner_positions(ir, Ghost(seq.len() as int));
    let ghost start = out@;
    push_left_column(out, left + 1);
    let ghost done = left_column(ir.0 + 1);
    let ghost piece = letters(seq@, ir.0 as int, self::inner_left(ir));
    push_letters(out, seq, left, inner_left);
    proof {
        lemma_append_assoc(start, done, piece);
        done = done + piece;
        piece = right_column(self::inner_left(ir));
    }
    push_right_column(out, inner_left);
    proof {
        lemma_append_assoc(start, done, piece);
        done = done + piece;
        piece = seq!['\n'];
    }
    push_char(out, '\n');
    proof {
        assert(out@ =~= (start + done) + piece);
        lemma_append_assoc(start, done, piece);
        done = done + piece;
        piece = spaces(PAD_LENGTH as int);
    }
    push_padding(out, PAD_LENGTH, 0);
    proof {
        lemma_append_assoc(start, done, piece);
        done = done + piece;
        piece = match_marks(seq@, ir, '|', ' ');
    }
    push_match_marks(out, ir, seq, matrix, complement_table, '|', ' ');
    proof {
        lemma_append_assoc(start, done, piece);
        done = done + piece;
        piece = seq!['\n'];
    }
    push_char(out, '\n');
    proof {
        assert(out@ =~= (start + done) + piece);
        lemma_append_assoc(start, done, piece);
        done = done + piece;
        piece = left_column(ir.1 + 1);
    }
    push_left_column(out, right + 1);
    proof {
        lemma_append_assoc(start, done, piece);
        done = done + piece;
        piece = letters_reversed(seq@, self::inner_right(ir) - 1, ir.1 + 1);
    }
    push_letters_reversed(out, seq, inner_right - 1, right + 1);
    proof {
        lemma_append_assoc(start, done, piece);
        done = done + piece;
        piece = right_column(self::inner_right(ir));
    }
    push_right_column(out, inner_right);
    proof {
        lemma_append_assoc(start, done, piece);
        done = done + piece;
        piece = seq!['\n', '\n'];
    }
    push_char(out, '\n');
    push_char(out, '\n');
    proof {
        assert(out@ =~= (start + done) + piece);
        lemma_append_assoc(start, done, piece);
    }
}

/// The classic report: for each repeat its left arm between its first and last
/// position, a line of bars under the pairs that match, and its right arm read
/// backwards between its last and first position. Positions count from 1.
pub fn fmt_classic(
    irs: &[(usize, usize, usize)],
    seq: &[u8],
    matrix: &MatchMatrix,
    complement: &[u8; 128],
) -> (out: String)
    requires
        all_fit(irs@, seq.len() as int),
        forall|b: u8| b < 128 ==> complement[b as int] == crate::constants::complement(b),
    ensures
        out@ == classic_report(seq@, irs@, irs.len() as int),
{
    let mut out = String::new();
    let mut k: usize = 0;
    while k < irs.len()
        invariant
            k <= irs.len(),
            all_fit(irs@, seq.len() as int),
            forall|b: u8| b < 128 ==> complement[b as int] == crate::constants::complement(b),
            out@ == classic_report(seq@, irs@, k as int),
        decreases irs.len() - k,
    {
        push_classic_block(&mut out, irs[k], seq, matrix, complement);
        k += 1;
    }
    out
}

/// The head of the CSV report.
pub fn fmt_csv_header() -> (header: String)
    ensures
        header@ == "start_n,end_n,nucleotide,start_ir,end_ir,reverse_complement,matching"@,
{
    String::from_str("start_n,end_n,nucleotide,start_ir,end_ir,reverse_complement,matching")
}

/// Appends the line of one repeat in the CSV report.
fn push_csv_line(
    out: &mut String,
    ir: (usize, usize, usize),
    seq: &[u8],
    matrix: &MatchMatrix,
    complement_table: &[u8; 128],
)
    requires
        fits_sequence(ir, seq.len() as int),
        forall|b: u8| b < 128 ==> complement_table[b as int] == complement(b),
    ensures
        final(out)@ == old(out)@ + csv_line(seq@, ir),
{
    let (left, right, _) = ir;
    let (inner_left, inner_right) = inner_positions(ir, Ghost(seq.len() as int));
    let ghost start = out@;
    push_decimal(out, (left + 1) as u128);
    let ghost done = decimal((ir.0 + 1) as nat);
    let ghost piece = seq![','];
    push_char(out, ',');
    proof {
        assert(out@ =~= (start + done) + piece);
        lemma_append_assoc(start, done, piece);
        done = done + piece;
        piece = decimal(self::inner_left(ir) as nat);
    }
    push_decimal(out, inner_left as u128);
    proof {
        lemma_append_assoc(start, done, piece);
        done = done + piece;
        piece = seq![','];
    }
    push_char(out, ',');
    proof {
        assert(out@ =~= (start + done) + piece);
        lemma_append_assoc(start, done, piece);
        done = done + piece;
        piece = letters(seq@, ir.0 as int, self::inner_left(ir));
    }
    push_letters(out, seq, left, inner_left);
    proof {
        lemma_append_assoc(start, done, piece);
        done = done + piece;
        piece = seq![','];
    }
    push_char(out, ',');
    proof {
        assert(out@ =~= (start + done) + piece);
        lemma_append_assoc(start, done, piece);
        done = done + piece;
        piece = decimal((ir.1 + 1) as nat);
    }
    push_decimal(out, (right + 1) as u128);
    proof {
        lemma_append_assoc(start, done, piece);
        done = done + piece;
        piece = seq![','];
    }
    push_char(out, ',');
    proof {
        assert(out@ =~= (start + done) + piece);
        lemma_append_assoc(start, done, piece);
        done = done + piece;
        piece = decimal(self::inner_right(ir) as nat);
    }
    push_decimal(out, inner_right as u128);
    proof {
        lemma_append_assoc(start, done, piece);
        done = done + piece;
        piece = seq![','];
    }
    push_char(out, ',');
    proof {
        assert(out@ =~= (start + done) + piece);
        lemma_append_assoc(start, done, piece);
        done = done + piece;
        piece = letters_reversed(seq@, self::inner_right(ir) - 1, ir.1 + 1);
    }
    push_letters_reversed(out, seq, inner_right - 1, right + 1);
    proof {
        lemma_append_assoc(start, done, piece);
        done = done + piece;
        piece = seq![','];
    }
    push_char(out, ',');
    proof {
        assert(out@ =~= (start + done) + piece);
        lemma_append_assoc(start, done, piece);
        done = done + piece;
        piece = match_marks(seq@, ir, '1', '0');
    }
    push_match_marks(out, ir, seq, matrix, complement_table, '1', '0');
    proof {
        lemma_append_assoc(start, done, piece);
        done = done + piece;
        piece = seq!['\n'];
    }
    push_char(out, '\n');
    proof {
        assert(out@ =~= (start + done) + piece);
        lemma_append_assoc(start, done, piece);
    }
}

/// The CSV report: for each repeat the first and last position of its left
/// arm, that arm, the last and first position of its right arm, that arm read
/// backwards, and a 1 or a 0 for each pair that matches or does not.
pub fn fmt_csv(
    irs: &[(usize, usize, usize)],
    seq: &[u8],
    matrix: &MatchMatrix,
    complement: &[u8; 128],
) -> (out: String)
    requires
        all_fit(irs@, seq.len() as int),
        forall|b: u8| b < 128 ==> complement[b as int] == crate::constants::complement(b),
    ensures
        out@ == csv_report(seq@, irs@, irs.len() as int),
{
    let mut out = String::new();
    let mut k: usize = 0;
    while k < irs.len()
        invariant
            k <= irs.len(),
            all_fit(irs@, seq.len() as int),
            forall|b: u8| b < 128 ==> complement[b as int] == crate::constants::complement(b),
            out@ == csv_report(seq@, irs@, k as int),
        decreases irs.len() - k,
    {
        push_csv_line(&mut out, irs[k], seq, matrix, complement);
        k += 1;
    }
    out
}

/// The head of the custom report.
pub fn fmt_custom_header() -> (header: String)
    ensures
        header@ == "ir_start,motif,gap_motif,reverse_complement"@,
{
    String::from_str("ir_start,motif,gap_motif,reverse_complement")
}

/// Appends the line of one repeat in the custom report.
fn push_custom_line(out: &mut String, ir: (usize, usize, usize), seq: &[u8], offset: usize)
    requires
        fits_sequence(ir, seq.len() as int),
    ensures
        final(out)@ == old(out)@ + custom_line(seq@, ir, offset as int),
{
    let (left, right, _) = ir;
    let (inner_left, inner_right) = inner_positions(ir, Ghost(seq.len() as int));
    let ghost start = out@;
    push_decimal(out, left as u128 + 1 + offset as u128);
    let ghost done = decimal((ir.0 + 1 + offset) as nat);
    let ghost piece = seq![','];
    push_char(out, ',');
    proof {
        assert(out@ =~= (start + done) + piece);
        lemma_append_assoc(start, done, piece);
        done = done + piece;
        piece = letters(seq@, ir.0 as int, self::inner_left(ir));
    }
    push_letters(out, seq, left, inner_left);
    proof {
        lemma_append_assoc(start, done, piece);
        done = done + piece;
        piece = seq![','];
    }
    push_char(out, ',');
    proof {
        assert(out@ =~= (start + done) + piece);
        lemma_append_assoc(start, done, piece);
        done = done + piece;
        piece = letters(seq@, self::inner_left(ir), self::inner_right(ir) - 1);
    }
    push_letters(out, seq, inner_left, inner_right - 1);
    proof {
        lemma_append_assoc(start, done, piece);
        done = done + piece;
        piece = seq![','];
    }
    push_char(out, ',');
    proof {
        assert(out@ =~= (start + done) + piece);
        lemma_append_assoc(start, done, piece);
        done = done + piece;
        piece = letters_reversed(seq@, self::inner_right(ir) - 1, ir.1 + 1);
    }
    push_letters_reversed(out, seq, inner_right - 1, right + 1);
    proof {
        lemma_append_assoc(start, done, piece);
        done = done + piece;
        piece = seq!['\n'];
    }
    push_char(out, '\n');
    proof {
        assert(out@ =~= (start + done) + piece);
        lemma_append_assoc(start, done, piece);
    }
}

/// The custom report: for each repeat its first position, its left arm, the
/// letters of its gap and its right arm read backwards. The position counts
/// from 1 and is shifted by `offset`, the place of the sequence in a longer one.
pub fn fmt_custom(irs: &[(usize, usize, usize)], seq: &[u8], offset: usize) -> (out: String)
    requires
        all_fit(irs@, seq.len() as int),
    ensures
        out@ == custom_report(seq@, irs@, offset as int, irs.len() as int),
{
    let mut out = String::new();
    let mut k: usize = 0;
    while k < irs.len()
        invariant
            k <= irs.len(),
            all_fit(irs@, seq.len() as int),
            out@ == custom_report(seq@, irs@, offset as int, k as int),
        decreases irs.len() - k,
    {
        push_custom_line(&mut out, irs[k], seq, offset);
        k += 1;
    }
    out
}

} // verus!
