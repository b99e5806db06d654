//! One sampling step: from raw file text to the formatted reading.

use vstd::prelude::*;

verus! {

use crate::pow10;
use crate::digits::digits_val;
use crate::reading::spec_trim;
use crate::reading::spec_parse;
use crate::reading::above_threshold;
use crate::reading::parse_and_normalize;
use crate::reading::ParseError;
use crate::format::spec_format;
use crate::format::format_to_string;
use crate::format::is_formatted_decimal;
use crate::format::lemma_format_shape;

/// What sampling yields on given file text: the formatted reading, or
/// nothing where the trimmed text is no decimal numeral.
pub open spec fn spec_sample(s: Seq<char>) -> Option<Seq<char>> {
    match spec_parse(spec_trim(s)) {
        Some(p) => {
            let mag = digits_val(p.1 + p.2);
            if above_threshold(p.0, mag, p.2.len()) {
                Some(spec_format(p.0, mag, p.2.len() + 3))
            } else {
                Some(spec_format(p.0, mag, p.2.len()))
            }
        },
        None => None,
    }
}

/// Reads one sample out of the file text: trims it, parses it as a
/// decimal numeral, divides a magnitude above a thousand by a
/// thousand, and formats the result with two decimal digits.
pub fn get_temperature(contents: &str) -> (r: Result<String, ParseError>)
    ensures
        match r {
            Ok(out) => spec_sample(contents@) == Some(out@),
            Err(_) => spec_sample(contents@) is None,
        },
{
    let d = match parse_and_normalize(contents) {
        Ok(d) => d,
        Err(e) => {
            return Err(e);
        },
    };
    let out = format_to_string(&d);
    Ok(out)
}

/// Sampling is a function of the file text alone: unchanged text
/// yields the identical formatted reading on every sampling.
pub proof fn lemma_sample_idempotent(s: Seq<char>, out1: Seq<char>, out2: Seq<char>)
    requires
        spec_sample(s) == Some(out1),
        spec_sample(s) == Some(out2),
    ensures
        out1 == out2,
{
}

/// Every reading that sampling yields is a minus sign at most, then
/// integer digits, one point, and exactly two fraction digits.
pub proof fn lemma_sample_shape(s: Seq<char>, out: Seq<char>)
    requires
        spec_sample(s) == Some(out),
    ensures
        is_formatted_decimal(out),
{
    match spec_parse(spec_trim(s)) {
        Some(p) => {
            let mag = digits_val(p.1 + p.2);
            if above_threshold(p.0, mag, p.2.len()) {
                lemma_format_shape(p.0, mag, p.2.len() + 3);
            } else {
                lemma_format_shape(p.0, mag, p.2.len());
            }
        },
        None => {},
    }
}

/// A reading at or below a thousand is formatted exactly as parsed:
/// no rescale happens.
pub proof fn lemma_sample_no_rescale(s: Seq<char>, neg: bool, ints: Seq<u8>, fracs: Seq<u8>)
    requires
        spec_parse(spec_trim(s)) == Some((neg, ints, fracs)),
        neg || digits_val(ints + fracs) <= 1000 * pow10(fracs.len()),
    ensures
        spec_sample(s) == Some(spec_format(neg, digits_val(ints + fracs), fracs.len())),
{
}

/// A reading above a thousand is divided by a thousand before
/// formatting: the digits stay, the scale grows by three.
pub proof fn lemma_sample_rescale(s: Seq<char>, neg: bool, ints: Seq<u8>, fracs: Seq<u8>)
    requires
        spec_parse(spec_trim(s)) == Some((neg, ints, fracs)),
        !neg,
        digits_val(ints + fracs) > 1000 * pow10(fracs.len()),
    ensures
        spec_sample(s) == Some(spec_format(neg, digits_val(ints + fracs), fracs.len() + 3)),
{
}

} // verus!
