//! Inverted-repeat search over IUPAC nucleotide sequences.
//!
//! An inverted repeat is a stretch of a sequence that is followed, after a gap,
//! by its own reverse complement. [`find_irs`] lists the inverted repeats of a
//! sequence, allowing for degenerate letters and for a number of mismatches.

pub mod algo;
pub mod config;
pub mod constants;
pub mod error;
pub mod format;
pub mod laws;
pub mod matrix;
pub mod rmq;
pub mod sort;
pub mod strings;
pub mod suffix;
pub mod text;
pub mod utils;

pub use config::{Config, SearchParams};
pub use constants::OutputFormat;
pub use error::Error;

use vstd::prelude::*;

verus! {

/// The inverted repeats of the letters `s`, centre by centre, before sorting.
pub open spec fn found_irs(params: SearchParams, s: Seq<u8>) -> Seq<(usize, usize, usize)> {
    algo::irs_in_centers(
        text::double_text(s),
        s.len() as int,
        params,
        params.min_len as int,
        2 * s.len() + 1 - params.min_len,
    )
}

/// The inverted repeats of the letters `s`, in the order of the report.
pub open spec fn inverted_repeats(params: SearchParams, s: Seq<u8>) -> Seq<(usize, usize, usize)> {
    found_irs(params, s).sort_by(sort::ir_order())
}

/// What a search returns: an invalid byte is reported first, then a fault of
/// the parameters, then a sequence that is too short for them.
pub open spec fn find_irs_result(params: SearchParams, seq: Seq<u8>) -> Result<
    Seq<(usize, usize, usize)>,
    Error,
> {
    let s = utils::sanitize(seq);
    if utils::first_invalid(seq) is Some {
        Err(Error::InvalidCharacter(utils::first_invalid(seq)->Some_0))
    } else if config::parameter_fault(params.min_len, params.max_len, params.mismatches) is Some {
        Err(
            Error::InvalidParameter(
                config::parameter_fault(params.min_len, params.max_len, params.mismatches)->Some_0,
            ),
        )
    } else if config::length_fault(params.min_len, params.mismatches, s.len() as usize) is Some {
        Err(
            Error::SequenceTooShort(
                config::length_fault(params.min_len, params.mismatches, s.len() as usize)->Some_0,
            ),
        )
    } else {
        Ok(inverted_repeats(params, s))
    }
}

/// A sequence of `len` bytes is within the limits of a search: the positions
/// of its doubled text fit in 32 bits with a sign, and the sparse table over
/// that text can be counted.
pub open spec fn within_limits(len: usize) -> bool {
    2 * len + 2 < i32::MAX && rmq::table_len(2 * len + 2) <= usize::MAX
}

/// Whether a sequence of `len` bytes is within the limits of a search.
pub fn fits_search(len: usize) -> (r: bool)
    ensures
        r == within_limits(len),
{
    if len >= 0x3fff_ffff {
        return false;
    }
    let s_n = 2 * len + 2;
    proof {
        rmq::lemma_floor_log2_bounds(s_n as int);
    }
    let columns = rmq::flog2(s_n) + 1;
    match s_n.checked_mul(columns) {
        Some(_) => true,
        None => false,
    }
}

/// Find all the inverted repeats in a sequence based on the provided parameters.
///
/// Each repeat is a triple: the position of its first letter, the position of
/// its last letter, both counted from 0, and the number of letters between its
/// arms. Newlines in the sequence are skipped and capitals are read as
/// lower-case letters.
///
/// The suffix array holds 32-bit positions and the sparse table must fit in
/// memory, which bounds the length of the sequence.
pub fn find_irs(params: &SearchParams, seq: &[u8]) -> (r: Result<Vec<(usize, usize, usize)>, Error>)
    requires
        within_limits(seq.len()),
    ensures
        match r {
            Ok(irs) => find_irs_result(*params, seq@) == Ok::<Seq<(usize, usize, usize)>, Error>(
                irs@,
            ),
            Err(e) => find_irs_result(*params, seq@) == Err::<Seq<(usize, usize, usize)>, Error>(e),
        },
        r matches Ok(irs) ==> format::all_fit(irs@, utils::sanitize(seq@).len() as int),
{
    let sanitized_seq = match utils::sanitize_sequence(seq) {
        Ok(sanitized_seq) => sanitized_seq,
        Err(e) => {
            return Err(e);
        },
    };
    let n = sanitized_seq.len();
    match params.check() {
        Ok(_) => {},
        Err(e) => {
            return Err(e);
        },
    }
    match params.check_bounds(n) {
        Ok(_) => {},
        Err(e) => {
            return Err(e);
        },
    }
    proof {
        utils::lemma_sanitize_is_iupac(seq@);
        text::lemma_double_text(sanitized_seq@);
        rmq::lemma_table_len_monotonic(2 * n + 2, 2 * seq.len() + 2);
    }
    let matrix = matrix::MatchMatrix::new();
    let complement = constants::build_complement_array();
    let s = text::build_long_sequence(sanitized_seq.as_slice(), n, &complement);
    let s_n = s.len();
    let sa = suffix::suffix_sort(s.as_slice());
    let inv_sa = suffix::inverse_suffix_array(s.as_slice(), sa.as_slice());
    let lcp = suffix::lcp_array(s.as_slice(), s_n, sa.as_slice(), inv_sa.as_slice());
    let rmq_prep = rmq::rmq_preprocess(lcp.as_slice(), s_n);
    proof {
        algo::lemma_lce_index(s@, sa@, inv_sa@, lcp@, rmq_prep@);
    }
    let mut irs = algo::add_irs(
        s.as_slice(),
        inv_sa.as_slice(),
        lcp.as_slice(),
        rmq_prep.as_slice(),
        params,
        &matrix,
    );
    let ghost found = irs@;
    sort::sort_irs(&mut irs);
    proof {
        assert(found == found_irs(*params, sanitized_seq@));
        laws::law_report_fits_sequence(*params, sanitized_seq@);
    }
    Ok(irs)
}

/// What [`stringify_irs`] returns for a format: the head of the report and its body.
pub open spec fn report(
    format: OutputFormat,
    config: Config,
    irs: Seq<(usize, usize, usize)>,
    seq: Seq<u8>,
    offset: usize,
) -> (Seq<char>, Seq<char>) {
    match format {
        OutputFormat::Classic => (
            format::classic_header(config, seq.len() as usize),
            format::classic_report(seq, irs, irs.len() as int),
        ),
        OutputFormat::Csv => (
            "start_n,end_n,nucleotide,start_ir,end_ir,reverse_complement,matching"@,
            format::csv_report(seq, irs, irs.len() as int),
        ),
        OutputFormat::Custom => (
            "ir_start,motif,gap_motif,reverse_complement"@,
            format::custom_report(seq, irs, offset as int, irs.len() as int),
        ),
    }
}

/// Stringify the given inverted repeats in the output format that the settings
/// name: `classic`, `csv` or `custom`. Any other name is refused, whatever the
/// repeats and the sequence; for a known format the repeats must lie inside
/// the sequence.
///
/// The result is the head of the report and its body. `offset` is the place of
/// the sequence in a longer one; the custom format adds it to the positions
/// that it reports.
pub fn stringify_irs(
    config: &Config,
    irs: &Vec<(usize, usize, usize)>,
    seq: &[u8],
    offset: usize,
) -> (r: Result<(String, String), Error>)
    requires
        constants::format_named(config.output_format@) is Some ==> format::all_fit(
            irs@,
            seq.len() as int,
        ),
    ensures
        match r {
            Ok((header, body)) => constants::format_named(config.output_format@) is Some && (
            header@,
            body@,
            ) == report(
                constants::format_named(config.output_format@)->Some_0,
                *config,
                irs@,
                seq@,
                offset,
            ),
            Err(e) => constants::format_named(config.output_format@) is None && e
                == Error::InvalidOutputFormat,
        },
{
    let output_format = match utils::verify_format(config.output_format.as_str()) {
        Ok(output_format) => output_format,
        Err(e) => {
            return Err(e);
        },
    };
    let matrix = matrix::MatchMatrix::new();
    let complement = constants::build_complement_array();
    match output_format {
        OutputFormat::Classic => Ok(
            (
                format::fmt_classic_header(config, seq.len()),
                format::fmt_classic(irs.as_slice(), seq, &matrix, &complement),
            ),
        ),
        OutputFormat::Csv => Ok(
            (
                format::fmt_csv_header(),
                format::fmt_csv(irs.as_slice(), seq, &matrix, &complement),
            ),
        ),
        OutputFormat::Custom => Ok(
            (format::fmt_custom_header(), format::fmt_custom(irs.as_slice(), seq, offset)),
        ),
    }
}

} // verus!
