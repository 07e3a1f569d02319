//! Bringing a raw sequence into the form that the search works on.

use crate::constants::{format_named, is_iupac, is_iupac_seq, is_iupac_symbol, OutputFormat};
use crate::error::Error;
use vstd::prelude::*;
use vstd::string::StringExecFns;

verus! {

/// A line feed or a carriage return.
pub open spec fn is_newline(b: u8) -> bool {
    b == 10 || b == 13
}

/// The lower-case form of an ASCII capital, any other byte unchanged.
pub open spec fn to_lower(b: u8) -> u8 {
    if 65 <= b <= 90 {
        (b + 32) as u8
    } else {
        b
    }
}

/// Neither a newline nor, in lower case, an IUPAC letter.
pub open spec fn is_invalid(b: u8) -> bool {
    !is_newline(b) && !is_iupac(to_lower(b))
}

/// The sequence without its newlines and in lower case.
pub open spec fn sanitize(seq: Seq<u8>) -> Seq<u8>
    decreases seq.len(),
{
    if seq.len() == 0 {
        Seq::empty()
    } else if is_newline(seq.last()) {
        sanitize(seq.drop_last())
    } else {
        sanitize(seq.drop_last()).push(to_lower(seq.last()))
    }
}

/// The first byte of the sequence that is neither a newline nor an IUPAC letter
/// in either case, if there is one.
pub open spec fn first_invalid(seq: Seq<u8>) -> Option<u8>
    decreases seq.len(),
{
    if seq.len() == 0 {
        None
    } else if first_invalid(seq.drop_last()) is Some {
        first_invalid(seq.drop_last())
    } else if is_invalid(seq.last()) {
        Some(seq.last())
    } else {
        None
    }
}

/// A sequence without an invalid byte becomes a sequence of IUPAC letters, no
/// longer than it was.
pub proof fn lemma_sanitize_is_iupac(seq: Seq<u8>)
    requires
        first_invalid(seq) is None,
    ensures
        is_iupac_seq(sanitize(seq)),
        sanitize(seq).len() <= seq.len(),
    decreases seq.len(),
{
    if seq.len() > 0 {
        lemma_sanitize_is_iupac(seq.drop_last());
    }
}

/// A sequence of IUPAC letters is in the form that the search works on already.
pub proof fn lemma_sanitize_fixes_iupac(seq: Seq<u8>)
    requires
        is_iupac_seq(seq),
    ensures
        first_invalid(seq) is None,
        sanitize(seq) == seq,
    decreases seq.len(),
{
    if seq.len() > 0 {
        let front = seq.drop_last();
        assert forall|i: int| 0 <= i < front.len() implies is_iupac(#[trigger] front[i]) by {
            assert(front[i] == seq[i]);
        }
        lemma_sanitize_fixes_iupac(front);
        assert(is_iupac(seq[seq.len() - 1]));
        assert(front.push(seq.last()) =~= seq);
    }
}

/// The lower-case form of `b`.
pub fn to_ascii_lower(b: u8) -> (r: u8)
    ensures
        r == to_lower(b),
{
    if b >= 65 && b <= 90 {
        b + 32
    } else {
        b
    }
}

/// Remove newlines, cast to lowercase and check that all the letters are in
/// the IUPAC alphabet. The first byte that is not is reported as it stands in
/// the input.
pub fn sanitize_sequence(seq: &[u8]) -> (r: Result<Vec<u8>, Error>)
    ensures
        match r {
            Ok(sanitized) => first_invalid(seq@) is None && sanitized@ == sanitize(seq@),
            Err(e) => first_invalid(seq@) is Some && e == Error::InvalidCharacter(
                first_invalid(seq@)->Some_0,
            ),
        },
{
    let mut sanitized_seq: Vec<u8> = Vec::new();
    let mut i: usize = 0;
    assert(seq@.take(0) =~= Seq::<u8>::empty());
    while i < seq.len()
        invariant
            i <= seq.len(),
            first_invalid(seq@.take(i as int)) is None,
            sanitized_seq@ == sanitize(seq@.take(i as int)),
        decreases seq.len() - i,
    {
        let byte = seq[i];
        proof {
            assert(seq@.take(i + 1).drop_last() =~= seq@.take(i as int));
            assert(seq@.take(i + 1).last() == byte);
        }
        if byte != 10 && byte != 13 {
            let lower = to_ascii_lower(byte);
            if !is_iupac_symbol(lower) {
                proof {
                    lemma_first_invalid_extends(seq@, i + 1);
                }
                return Err(Error::InvalidCharacter(byte));
            }
            sanitized_seq.push(lower);
        }
        i += 1;
    }
    assert(seq@.take(seq.len() as int) =~= seq@);
    Ok(sanitized_seq)
}

/// An invalid byte found in a prefix is the first invalid byte of the whole.
pub proof fn lemma_first_invalid_extends(seq: Seq<u8>, k: int)
    requires
        0 <= k <= seq.len(),
        first_invalid(seq.take(k)) is Some,
    ensures
        first_invalid(seq) == first_invalid(seq.take(k)),
    decreases seq.len() - k,
{
    if k < seq.len() {
        assert(seq.take(k + 1).drop_last() =~= seq.take(k));
        lemma_first_invalid_extends(seq, k + 1);
    } else {
        assert(seq.take(k) =~= seq);
    }
}

/// The format that a name stands for: `classic`, `csv` or `custom`.
pub fn verify_format(output_format: &str) -> (r: Result<OutputFormat, Error>)
    ensures
        match r {
            Ok(format) => format_named(output_format@) == Some(format),
            Err(e) => format_named(output_format@) is None && e == Error::InvalidOutputFormat,
        },
{
    let name = String::from_str(output_format);
    if name == String::from_str("classic") {
        Ok(OutputFormat::Classic)
    } else if name == String::from_str("csv") {
        Ok(OutputFormat::Csv)
    } else if name == String::from_str("custom") {
        Ok(OutputFormat::Custom)
    } else {
        Err(Error::InvalidOutputFormat)
    }
}

/// The name that asks for every sequence of the input.
pub const ALL_SEQUENCES: &'static str = "ALL_SEQUENCES";

/// The request is for every sequence of the input: it holds the one name
/// [`ALL_SEQUENCES`].
pub open spec fn asks_for_all(seq_ids: Seq<String>) -> bool {
    seq_ids.len() == 1 && seq_ids[0]@ == ALL_SEQUENCES@
}

/// The name `id` is among the first `upto` of `names`.
pub open spec fn is_named(names: Seq<String>, id: Seq<char>, upto: int) -> bool {
    exists|k: int| 0 <= k < upto && k < names.len() && (#[trigger] names[k])@ == id
}

/// The names among the first `upto` of the request that no sequence of the
/// input bears, in the order of the request.
pub open spec fn missing_of(seq_ids: Seq<String>, found_ids: Seq<String>, upto: int) -> Seq<
    Seq<char>,
>
    decreases upto,
{
    if upto <= 0 {
        Seq::empty()
    } else if is_named(found_ids, seq_ids[upto - 1]@, found_ids.len() as int) {
        missing_of(seq_ids, found_ids, upto - 1)
    } else {
        missing_of(seq_ids, found_ids, upto - 1).push(seq_ids[upto - 1]@)
    }
}

/// Whether `id` is among `names`.
pub fn contains_name(names: &Vec<String>, id: &str) -> (r: bool)
    ensures
        r == is_named(names@, id@, names.len() as int),
{
    let wanted = String::from_str(id);
    let mut k: usize = 0;
    while k < names.len()
        invariant
            k <= names.len(),
            wanted@ == id@,
            !is_named(names@, id@, k as int),
        decreases names.len() - k,
    {
        if names[k] == wanted {
            assert(names@[k as int]@ == id@);
            return true;
        }
        k += 1;
    }
    false
}

/// Whether the request is for every sequence of the input.
pub fn wants_all_sequences(seq_ids: &Vec<String>) -> (r: bool)
    ensures
        r == asks_for_all(seq_ids@),
{
    seq_ids.len() == 1 && seq_ids[0] == String::from_str(ALL_SEQUENCES)
}

/// Whether the sequence named `record_id` is asked for: by its name, or
/// because every sequence is.
pub fn wants_record(seq_ids: &Vec<String>, record_id: &str) -> (r: bool)
    ensures
        r == (asks_for_all(seq_ids@) || is_named(seq_ids@, record_id@, seq_ids.len() as int)),
{
    wants_all_sequences(seq_ids) || contains_name(seq_ids, record_id)
}

/// The names of the request that no sequence of the input bears, in the
/// order of the request. `found_ids` are the names of the sequences of the input.
pub fn missing_sequences(seq_ids: &Vec<String>, found_ids: &Vec<String>) -> (missing: Vec<String>)
    ensures
        missing.len() == missing_of(seq_ids@, found_ids@, seq_ids.len() as int).len(),
        forall|k: int|
            0 <= k < missing.len() ==> (#[trigger] missing[k])@ == missing_of(
                seq_ids@,
                found_ids@,
                seq_ids.len() as int,
            )[k],
{
    let mut missing: Vec<String> = Vec::new();
    let mut i: usize = 0;
    while i < seq_ids.len()
        invariant
            i <= seq_ids.len(),
            missing.len() == missing_of(seq_ids@, found_ids@, i as int).len(),
            forall|k: int|
                0 <= k < missing.len() ==> (#[trigger] missing[k])@ == missing_of(
                    seq_ids@,
                    found_ids@,
                    i as int,
                )[k],
        decreases seq_ids.len() - i,
    {
        if !contains_name(found_ids, seq_ids[i].as_str()) {
            let ghost before = missing@;
            missing.push(seq_ids[i].clone());
            proof {
                assert forall|k: int| 0 <= k < missing.len() implies (#[trigger] missing[k])@
                    == missing_of(seq_ids@, found_ids@, i + 1)[k] by {
                    if k < before.len() {
                        assert(missing[k] == before[k]);
                    }
                }
            }
        }
        i += 1;
    }
    missing
}

/// Whether the input holds what was asked for: every sequence that the
/// request names, unless the request is for all of them.
pub fn check_sequences_found(seq_ids: &Vec<String>, found_ids: &Vec<String>) -> (r: Result<
    (),
    Error,
>)
    ensures
        match r {
            Ok(_) => asks_for_all(seq_ids@) || missing_of(
                seq_ids@,
                found_ids@,
                seq_ids.len() as int,
            ).len() == 0,
            Err(e) => e == Error::SequenceNotFound && !asks_for_all(seq_ids@) && missing_of(
                seq_ids@,
                found_ids@,
                seq_ids.len() as int,
            ).len() > 0,
        },
{
    if wants_all_sequences(seq_ids) {
        return Ok(());
    }
    let missing = missing_sequences(seq_ids, found_ids);
    if missing.len() == 0 {
        Ok(())
    } else {
        Err(Error::SequenceNotFound)
    }
}

} // verus!
