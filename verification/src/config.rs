//! The parameters of a search and the settings of a run.

use crate::constants::{
    DEFAULT_INPUT_FILE, DEFAULT_MAX_GAP, DEFAULT_MAX_LEN, DEFAULT_MIN_LEN, DEFAULT_MISMATCHES,
    DEFAULT_OUTPUT_FILE, DEFAULT_SEQ_NAME,
};
use crate::constants::format_named;
use crate::error::{Error, LengthFault, ParameterFault};
use crate::strings::{decimal, push_decimal, push_text};
use crate::utils::verify_format;
use vstd::prelude::*;
use vstd::string::StringExecFns;

verus! {

/// What to look for: arms of `min_len` to `max_len` letters, at most `max_gap`
/// letters between them, and at most `mismatches` pairs that do not match.
#[derive(Debug, Clone, Copy, PartialEq, Eq, Structural)]
pub struct SearchParams {
    pub min_len: usize,
    pub max_len: usize,
    pub max_gap: usize,
    pub mismatches: usize,
}

/// The first rule that the three numbers break, if any.
pub open spec fn parameter_fault(min_len: usize, max_len: usize, mismatches: usize) -> Option<
    ParameterFault,
> {
    if min_len < 2 {
        Some(ParameterFault::MinLenBelowTwo { min_len })
    } else if min_len > max_len {
        Some(ParameterFault::MinLenAboveMaxLen { min_len, max_len })
    } else if mismatches >= min_len {
        Some(ParameterFault::MismatchesNotBelowMinLen { mismatches, min_len })
    } else {
        None
    }
}

/// The first bound that a sequence of `n` letters is too short for, if any.
pub open spec fn length_fault(min_len: usize, mismatches: usize, n: usize) -> Option<LengthFault> {
    if min_len >= n {
        Some(LengthFault::MinLenNotBelowLength { min_len, length: n })
    } else if mismatches >= n {
        Some(LengthFault::MismatchesNotBelowLength { mismatches, length: n })
    } else {
        None
    }
}

impl SearchParams {
    /// The parameters keep their rules: `2 <= min_len <= max_len` and
    /// `mismatches < min_len`.
    pub open spec fn valid(self) -> bool {
        parameter_fault(self.min_len, self.max_len, self.mismatches) is None
    }

    /// The parameters suit a sequence of `n` letters.
    pub open spec fn fits(self, n: usize) -> bool {
        length_fault(self.min_len, self.mismatches, n) is None
    }

    /// Search parameters from four numbers, refused where they break a rule.
    pub fn new(min_len: usize, max_len: usize, max_gap: usize, mismatches: usize) -> (r: Result<
        Self,
        Error,
    >)
        ensures
            match r {
                Ok(params) => parameter_fault(min_len, max_len, mismatches) is None && params == (
                SearchParams { min_len, max_len, max_gap, mismatches }),
                Err(e) => parameter_fault(min_len, max_len, mismatches) == Some(
                    e->InvalidParameter_0,
                ) && e is InvalidParameter,
            },
    {
        if min_len < 2 {
            return Err(Error::InvalidParameter(ParameterFault::MinLenBelowTwo { min_len }));
        }
        if min_len > max_len {
            return Err(
                Error::InvalidParameter(ParameterFault::MinLenAboveMaxLen { min_len, max_len }),
            );
        }
        if mismatches >= min_len {
            return Err(
                Error::InvalidParameter(
                    ParameterFault::MismatchesNotBelowMinLen { mismatches, min_len },
                ),
            );
        }
        Ok(Self { min_len, max_len, max_gap, mismatches })
    }

    /// Whether the parameters keep their rules; the fault found first otherwise.
    pub fn check(&self) -> (r: Result<(), Error>)
        ensures
            match r {
                Ok(_) => self.valid(),
                Err(e) => e is InvalidParameter && parameter_fault(
                    self.min_len,
                    self.max_len,
                    self.mismatches,
                ) == Some(e->InvalidParameter_0),
            },
    {
        match Self::new(self.min_len, self.max_len, self.max_gap, self.mismatches) {
            Ok(_) => Ok(()),
            Err(e) => Err(e),
        }
    }

    /// Whether the parameters suit a sequence of `n` letters. The gap is not
    /// held against `n`: a gap beyond the sequence finds what a gap of `n` finds.
    pub fn check_bounds(&self, n: usize) -> (r: Result<(), Error>)
        ensures
            match r {
                Ok(_) => self.fits(n),
                Err(e) => e is SequenceTooShort && length_fault(self.min_len, self.mismatches, n)
                    == Some(e->SequenceTooShort_0),
            },
    {
        if self.min_len >= n {
            return Err(
                Error::SequenceTooShort(
                    LengthFault::MinLenNotBelowLength { min_len: self.min_len, length: n },
                ),
            );
        }
        if self.mismatches >= n {
            return Err(
                Error::SequenceTooShort(
                    LengthFault::MismatchesNotBelowLength {
                        mismatches: self.mismatches,
                        length: n,
                    },
                ),
            );
        }
        Ok(())
    }
}

impl Default for SearchParams {
    fn default() -> (params: Self)
        ensures
            params == (SearchParams {
                min_len: DEFAULT_MIN_LEN,
                max_len: DEFAULT_MAX_LEN,
                max_gap: DEFAULT_MAX_GAP,
                mismatches: DEFAULT_MISMATCHES,
            }),
            params.valid(),
    {
        Self {
            min_len: DEFAULT_MIN_LEN,
            max_len: DEFAULT_MAX_LEN,
            max_gap: DEFAULT_MAX_GAP,
            mismatches: DEFAULT_MISMATCHES,
        }
    }
}

/// The settings of one run: where the sequence comes from, what to look for,
/// and where and how to write what was found.
#[derive(Debug, Clone)]
pub struct Config {
    pub input_file: String,
    pub seq_name: String,
    pub params: SearchParams,
    pub output_path: String,
    pub output_format: String,
}

impl Config {
    /// The settings of a run, refused where the search parameters break a rule.
    pub fn new(
        input_file: &str,
        seq_name: &str,
        min_len: usize,
        max_len: usize,
        max_gap: usize,
        mismatches: usize,
        output_path: &str,
        output_format: &str,
    ) -> (r: Result<Self, Error>)
        ensures
            match r {
                Ok(config) => parameter_fault(min_len, max_len, mismatches) is None
                    && config.params == (SearchParams { min_len, max_len, max_gap, mismatches })
                    && config.input_file@ == input_file@ && config.seq_name@ == seq_name@
                    && config.output_path@ == output_path@ && config.output_format@
                    == output_format@,
                Err(e) => e is InvalidParameter && parameter_fault(min_len, max_len, mismatches)
                    == Some(e->InvalidParameter_0),
            },
    {
        let params = match SearchParams::new(min_len, max_len, max_gap, mismatches) {
            Ok(params) => params,
            Err(e) => {
                return Err(e);
            },
        };
        Ok(
            Self {
                input_file: String::from_str(input_file),
                seq_name: String::from_str(seq_name),
                params,
                output_path: String::from_str(output_path),
                output_format: String::from_str(output_format),
            },
        )
    }
}

impl Config {
    /// The first fault of the settings for a sequence of `n` letters: a rule
    /// of the search parameters, then a bound of the sequence, then the name
    /// of the output format.
    pub open spec fn fault(self, n: usize) -> Option<Error> {
        if parameter_fault(self.params.min_len, self.params.max_len, self.params.mismatches)
            is Some {
            Some(
                Error::InvalidParameter(
                    parameter_fault(
                        self.params.min_len,
                        self.params.max_len,
                        self.params.mismatches,
                    )->Some_0,
                ),
            )
        } else if length_fault(self.params.min_len, self.params.mismatches, n) is Some {
            Some(
                Error::SequenceTooShort(
                    length_fault(self.params.min_len, self.params.mismatches, n)->Some_0,
                ),
            )
        } else if format_named(self.output_format@) is None {
            Some(Error::InvalidOutputFormat)
        } else {
            None
        }
    }

    /// Whether the name of the output format is known.
    pub fn verify_format(&self) -> (r: Result<(), Error>)
        ensures
            match r {
                Ok(_) => format_named(self.output_format@) is Some,
                Err(e) => format_named(self.output_format@) is None && e
                    == Error::InvalidOutputFormat,
            },
    {
        match verify_format(self.output_format.as_str()) {
            Ok(_) => Ok(()),
            Err(e) => Err(e),
        }
    }

    /// Whether the settings suit a sequence of `n` letters.
    pub fn verify(&self, n: usize) -> (r: Result<(), Error>)
        ensures
            match r {
                Ok(_) => self.fault(n) is None,
                Err(e) => self.fault(n) == Some(e),
            },
    {
        match self.params.check() {
            Ok(_) => {},
            Err(e) => {
                return Err(e);
            },
        }
        match self.params.check_bounds(n) {
            Ok(_) => {},
            Err(e) => {
                return Err(e);
            },
        }
        self.verify_format()
    }

    /// The settings, one to a line.
    pub open spec fn spec_display(self) -> Seq<char> {
        "input_file:  "@ + self.input_file@ + "\nseq_name:    "@ + self.seq_name@
            + "\nmin_len:     "@ + decimal(self.params.min_len as nat) + "\nmax_len:     "@
            + decimal(self.params.max_len as nat) + "\nmax_gap:     "@ + decimal(
            self.params.max_gap as nat,
        ) + "\nmismatches:  "@ + decimal(self.params.mismatches as nat) + "\noutput_path: "@
            + self.output_path@ + "\noutput_fmt:  "@ + self.output_format@ + "\n"@
    }

    /// The settings, one to a line.
    pub fn display(&self) -> (text: String)
        ensures
            text@ == self.spec_display(),
    {
        let mut out = String::new();
        push_text(&mut out, "input_file:  ");
        push_text(&mut out, self.input_file.as_str());
        push_text(&mut out, "\nseq_name:    ");
        push_text(&mut out, self.seq_name.as_str());
        push_text(&mut out, "\nmin_len:     ");
        push_decimal(&mut out, self.params.min_len as u128);
        push_text(&mut out, "\nmax_len:     ");
        push_decimal(&mut out, self.params.max_len as u128);
        push_text(&mut out, "\nmax_gap:     ");
        push_decimal(&mut out, self.params.max_gap as u128);
        push_text(&mut out, "\nmismatches:  ");
        push_decimal(&mut out, self.params.mismatches as u128);
        push_text(&mut out, "\noutput_path: ");
        push_text(&mut out, self.output_path.as_str());
        push_text(&mut out, "\noutput_fmt:  ");
        push_text(&mut out, self.output_format.as_str());
        push_text(&mut out, "\n");
        assert(out@ =~= self.spec_display());
        out
    }
}

impl Default for Config {
    fn default() -> (config: Self)
        ensures
            config.input_file@ == DEFAULT_INPUT_FILE@,
            config.seq_name@ == DEFAULT_SEQ_NAME@,
            config.params == (SearchParams {
                min_len: DEFAULT_MIN_LEN,
                max_len: DEFAULT_MAX_LEN,
                max_gap: DEFAULT_MAX_GAP,
                mismatches: DEFAULT_MISMATCHES,
            }),
            config.output_path@ == DEFAULT_OUTPUT_FILE@,
            config.output_format@ == "classic"@,
    {
        Config {
            input_file: String::from_str(DEFAULT_INPUT_FILE),
            seq_name: String::from_str(DEFAULT_SEQ_NAME),
            params: SearchParams::default(),
            output_path: String::from_str(DEFAULT_OUTPUT_FILE),
            output_format: String::from_str("classic"),
        }
    }
}

} // verus!
