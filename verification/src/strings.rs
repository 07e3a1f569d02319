//! Building the text of a report: letters, decimal numbers and padding.

use vstd::prelude::*;
use vstd::string::StringExecFns;

verus! {

/// The character of a decimal digit.
pub open spec fn digit_char(d: nat) -> char {
    ((48 + d) as u8) as char
}

/// The decimal digits of `x`, without leading zeros.
pub open spec fn decimal(x: nat) -> Seq<char>
    decreases x,
{
    if x < 10 {
        seq![digit_char(x)]
    } else {
        decimal(x / 10).push(digit_char(x % 10))
    }
}

/// `k` blanks; none for a negative `k`.
pub open spec fn spaces(k: int) -> Seq<char> {
    Seq::new(
        if k > 0 {
            k as nat
        } else {
            0
        },
        |i: int| ' ',
    )
}

/// The bytes of `seq` from `from` up to `to`, as characters.
pub open spec fn letters(seq: Seq<u8>, from: int, to: int) -> Seq<char> {
    Seq::new(
        if to > from {
            (to - from) as nat
        } else {
            0
        },
        |i: int| seq[from + i] as char,
    )
}

/// The bytes of `seq` from `to - 1` down to `from`, as characters.
pub open spec fn letters_reversed(seq: Seq<u8>, from: int, to: int) -> Seq<char> {
    Seq::new(
        if to > from {
            (to - from) as nat
        } else {
            0
        },
        |i: int| seq[to - 1 - i] as char,
    )
}

/// A number has at least one digit.
pub proof fn lemma_decimal_len(x: nat)
    ensures
        decimal(x).len() >= 1,
    decreases x,
{
    if x >= 10 {
        lemma_decimal_len(x / 10);
    }
}

/// Appends one character, by `String::push` of the standard library.
///
/// Trusted: `push` puts the character at the end of the string and leaves the
/// rest as it was.
#[verifier::external_body]
pub(crate) fn push_char(out: &mut String, c: char)
    ensures
        final(out)@ == old(out)@.push(c),
{
    out.push(c);
}

/// Appends the decimal digits of `x`.
pub fn push_decimal(out: &mut String, x: u128)
    ensures
        final(out)@ == old(out)@ + decimal(x as nat),
    decreases x,
{
    if x >= 10 {
        push_decimal(out, x / 10);
    }
    let d = (x % 10) as u8;
    push_char(out, (48 + d) as char);
    proof {
        if x >= 10 {
            assert(old(out)@ + decimal((x / 10) as nat).push(digit_char((x % 10) as nat)) =~= (
            old(out)@ + decimal((x / 10) as nat)).push(digit_char((x % 10) as nat)));
        } else {
            assert(old(out)@ + seq![digit_char(x as nat)] =~= old(out)@.push(digit_char(x as nat)));
        }
    }
}

/// The number of decimal digits of `x`.
pub fn int_size(x: usize) -> (r: usize)
    ensures
        r == decimal(x as nat).len(),
{
    let mut rest = x;
    let mut r: usize = 1;
    while rest >= 10
        invariant
            r >= 1,
            r + decimal(rest as nat).len() == decimal(x as nat).len() + 1,
            rest <= x,
            r <= x - rest + 1,
        decreases rest,
    {
        proof {
            lemma_decimal_len((rest / 10) as nat);
        }
        rest = rest / 10;
        r = r + 1;
    }
    r
}

/// Appends `k` blanks.
pub fn push_spaces(out: &mut String, k: usize)
    ensures
        final(out)@ == old(out)@ + spaces(k as int),
{
    let mut i: usize = 0;
    assert(out@ + spaces(0) =~= out@);
    while i < k
        invariant
            i <= k,
            out@ == old(out)@ + spaces(i as int),
        decreases k - i,
    {
        push_char(out, ' ');
        assert(spaces(i + 1) =~= spaces(i as int).push(' '));
        assert((old(out)@ + spaces(i as int)).push(' ') =~= old(out)@ + spaces(i + 1));
        i += 1;
    }
}

/// Appends what is left of a column of `width` characters after a number of
/// `used` digits; nothing where the number fills the column or runs over it.
pub fn push_padding(out: &mut String, width: usize, used: usize)
    ensures
        final(out)@ == old(out)@ + spaces(width - used),
{
    if used < width {
        push_spaces(out, width - used);
    } else {
        assert(out@ + spaces(width - used) =~= out@);
    }
}

/// Appends the bytes of `seq` from `from` up to `to`, as characters.
pub fn push_letters(out: &mut String, seq: &[u8], from: usize, to: usize)
    requires
        to <= seq.len(),
    ensures
        final(out)@ == old(out)@ + letters(seq@, from as int, to as int),
{
    let mut i: usize = from;
    assert(out@ + letters(seq@, from as int, from as int) =~= out@);
    while i < to
        invariant
            from <= i,
            i <= to || i == from,
            to <= seq.len(),
            out@ == old(out)@ + letters(seq@, from as int, i as int),
        decreases to - i,
    {
        push_char(out, seq[i] as char);
        assert(letters(seq@, from as int, i + 1) =~= letters(seq@, from as int, i as int).push(
            seq@[i as int] as char,
        ));
        assert((old(out)@ + letters(seq@, from as int, i as int)).push(seq@[i as int] as char)
            =~= old(out)@ + letters(seq@, from as int, i + 1));
        i += 1;
    }
    proof {
        if to < from {
            assert(letters(seq@, from as int, to as int) =~= letters(seq@, from as int, from as int));
        }
    }
}

/// Appends the bytes of `seq` from `to - 1` down to `from`, as characters.
pub fn push_letters_reversed(out: &mut String, seq: &[u8], from: usize, to: usize)
    requires
        to <= seq.len(),
    ensures
        final(out)@ == old(out)@ + letters_reversed(seq@, from as int, to as int),
{
    let mut i: usize = to;
    assert(out@ + Seq::<char>::empty() =~= out@);
    while i > from
        invariant
            i <= to,
            from <= i || i == to,
            to <= seq.len(),
            out@ == old(out)@ + letters_reversed(seq@, from as int, to as int).take(to - i),
        decreases i,
    {
        push_char(out, seq[i - 1] as char);
        assert(letters_reversed(seq@, from as int, to as int).take(to - i + 1)
            =~= letters_reversed(seq@, from as int, to as int).take(to - i).push(
            seq@[i - 1] as char,
        ));
        assert((old(out)@ + letters_reversed(seq@, from as int, to as int).take(to - i)).push(
            seq@[i - 1] as char,
        ) =~= old(out)@ + letters_reversed(seq@, from as int, to as int).take(to - i + 1));
        i -= 1;
    }
    proof {
        let whole = letters_reversed(seq@, from as int, to as int);
        if to < from {
            assert(whole.take(0) =~= whole);
        } else {
            assert(whole.take(to - from) =~= whole);
        }
    }
}

/// Appends a piece of text.
pub fn push_text(out: &mut String, text: &str)
    ensures
        final(out)@ == old(out)@ + text@,
{
    out.append(text);
}

} // verus!
