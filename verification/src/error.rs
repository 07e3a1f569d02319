//! What can go wrong with the input of a search.

use crate::strings::{decimal, push_char, push_decimal, push_text};
use vstd::prelude::*;

verus! {

/// The rule that a set of search parameters breaks.
#[derive(Debug, Clone, Copy, PartialEq, Eq, Structural)]
pub enum ParameterFault {
    /// The minimum arm length is below 2.
    MinLenBelowTwo { min_len: usize },
    /// The minimum arm length exceeds the maximum.
    MinLenAboveMaxLen { min_len: usize, max_len: usize },
    /// The number of mismatches is not below the minimum arm length.
    MismatchesNotBelowMinLen { mismatches: usize, min_len: usize },
}

/// The bound that a sequence is too short for.
#[derive(Debug, Clone, Copy, PartialEq, Eq, Structural)]
pub enum LengthFault {
    /// The minimum arm length is not below the length of the sequence.
    MinLenNotBelowLength { min_len: usize, length: usize },
    /// The number of mismatches is not below the length of the sequence.
    MismatchesNotBelowLength { mismatches: usize, length: usize },
}

/// Why a search or a rendering was refused.
#[derive(Debug, Clone, Copy, PartialEq, Eq, Structural)]
pub enum Error {
    /// The search parameters break one of their rules.
    InvalidParameter(ParameterFault),
    /// The sequence is too short for the search parameters.
    SequenceTooShort(LengthFault),
    /// The sequence holds this byte, which is no IUPAC letter.
    InvalidCharacter(u8),
    /// A sequence that was asked for by name is not in the input.
    SequenceNotFound,
    /// The name of the output format is not known.
    InvalidOutputFormat,
}

impl Error {
    /// The fault in one line.
    pub open spec fn spec_message(self) -> Seq<char> {
        match self {
            Error::InvalidParameter(ParameterFault::MinLenBelowTwo { min_len }) => "min_len="@
                + decimal(min_len as nat) + " must not be less than 2."@,
            Error::InvalidParameter(ParameterFault::MinLenAboveMaxLen { min_len, max_len }) => {
                "min_len="@ + decimal(min_len as nat) + " must be less than max_len="@ + decimal(
                    max_len as nat,
                ) + "."@
            },
            Error::InvalidParameter(
                ParameterFault::MismatchesNotBelowMinLen { mismatches, min_len },
            ) => "mismatches="@ + decimal(mismatches as nat) + " must be less than min_len="@
                + decimal(min_len as nat) + "."@,
            Error::SequenceTooShort(LengthFault::MinLenNotBelowLength { min_len, length }) => {
                "min_len="@ + decimal(min_len as nat) + " must be less than sequence length="@
                    + decimal(length as nat) + "."@
            },
            Error::SequenceTooShort(
                LengthFault::MismatchesNotBelowLength { mismatches, length },
            ) => "mismatches="@ + decimal(mismatches as nat)
                + " must be less than sequence length="@ + decimal(length as nat) + "."@,
            Error::InvalidCharacter(byte) => "sequence contains '"@ + seq![byte as char]
                + "' which is not an IUPAC symbol."@,
            Error::SequenceNotFound => "Sequence(s) not found."@,
            Error::InvalidOutputFormat => {
                "Invalid output format. Allowed formats are: classic, csv, custom."@
            },
        }
    }

    /// The fault in one line.
    pub fn message(&self) -> (text: String)
        ensures
            text@ == self.spec_message(),
    {
        let mut out = String::new();
        match *self {
            Error::InvalidParameter(ParameterFault::MinLenBelowTwo { min_len }) => {
                push_text(&mut out, "min_len=");
                push_decimal(&mut out, min_len as u128);
                push_text(&mut out, " must not be less than 2.");
            },
            Error::InvalidParameter(ParameterFault::MinLenAboveMaxLen { min_len, max_len }) => {
                push_text(&mut out, "min_len=");
                push_decimal(&mut out, min_len as u128);
                push_text(&mut out, " must be less than max_len=");
                push_decimal(&mut out, max_len as u128);
                push_text(&mut out, ".");
            },
            Error::InvalidParameter(
                ParameterFault::MismatchesNotBelowMinLen { mismatches, min_len },
            ) => {
                push_text(&mut out, "mismatches=");
                push_decimal(&mut out, mismatches as u128);
                push_text(&mut out, " must be less than min_len=");
                push_decimal(&mut out, min_len as u128);
                push_text(&mut out, ".");
            },
            Error::SequenceTooShort(LengthFault::MinLenNotBelowLength { min_len, length }) => {
                push_text(&mut out, "min_len=");
                push_decimal(&mut out, min_len as u128);
                push_text(&mut out, " must be less than sequence length=");
                push_decimal(&mut out, length as u128);
                push_text(&mut out, ".");
            },
            Error::SequenceTooShort(
                LengthFault::MismatchesNotBelowLength { mismatches, length },
            ) => {
                push_text(&mut out, "mismatches=");
                push_decimal(&mut out, mismatches as u128);
                push_text(&mut out, " must be less than sequence length=");
                push_decimal(&mut out, length as u128);
                push_text(&mut out, ".");
            },
            Error::InvalidCharacter(byte) => {
                push_text(&mut out, "sequence contains '");
                push_char(&mut out, byte as char);
                push_text(&mut out, "' which is not an IUPAC symbol.");
            },
            Error::SequenceNotFound => {
                push_text(&mut out, "Sequence(s) not found.");
            },
            Error::InvalidOutputFormat => {
                push_text(
                    &mut out,
                    "Invalid output format. Allowed formats are: classic, csv, custom.",
                );
            },
        }
        assert(out@ =~= self.spec_message());
        out
    }
}

} // verus!
