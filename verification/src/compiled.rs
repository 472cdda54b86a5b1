//! Compiled regular expressions from the `regex` crate, each kept with the
//! pattern and case folding it was compiled from. Only `build` makes one, so
//! a value always matches as its pattern says.
use vstd::prelude::*;
use vstd::string::StringSliceAdditionalSpecFns;
use std::ops::Range;
use regex::{Regex, RegexBuilder, Error as PatternError};
use crate::search::matches_in;

verus! {

#[verifier::external_type_specification]
#[verifier::external_body]
pub struct ExRegex(Regex);

#[verifier::external_type_specification]
#[verifier::external_body]
pub struct ExPatternError(PatternError);

/// Whether `regex` compiles `pattern` with the given case folding: a pattern
/// it accepts that also fits its default size limits.
pub uninterp spec fn compiles(pattern: Seq<char>, case_insensitive: bool) -> bool;

/// The successive non-overlapping matches, as byte ranges, of the expression
/// that `regex` compiles from `pattern` with the given case folding, in `text`.
pub uninterp spec fn regex_matches(pattern: Seq<char>, case_insensitive: bool, text: Seq<char>) -> Seq<Range<usize>>;

/// The message `regex::Error`'s `Display` writes for the refusal of `pattern`
/// under the given case folding.
pub uninterp spec fn build_error_text(pattern: Seq<char>, case_insensitive: bool) -> Seq<char>;

/// A refused compilation with the pattern and case folding it was asked for.
pub struct Refused {
    error: PatternError,
    pattern: String,
    case_insensitive: bool,
}

impl View for Refused {
    type V = (Seq<char>, bool);

    closed spec fn view(&self) -> (Seq<char>, bool) {
        (self.pattern@, self.case_insensitive)
    }
}

/// A compiled expression with the pattern and case folding it came from.
pub struct Compiled {
    expression: Regex,
    pattern: String,
    case_insensitive: bool,
}

impl View for Compiled {
    type V = (Seq<char>, bool);

    closed spec fn view(&self) -> (Seq<char>, bool) {
        (self.pattern@, self.case_insensitive)
    }
}

/// `RegexBuilder::new(pattern).case_insensitive(..).build()`: succeeds exactly
/// when the pattern compiles under that case folding; the expression, or the
/// error, is kept with the pattern and folding it was built from.
#[verifier::external_body]
pub(crate) fn build(pattern: &str, case_insensitive: bool) -> (r: Result<Compiled, Refused>)
    ensures
        r is Ok <==> compiles(pattern@, case_insensitive),
        r matches Ok(c) ==> c@ == (pattern@, case_insensitive),
        r matches Err(e) ==> e@ == (pattern@, case_insensitive),
{
    match RegexBuilder::new(pattern).case_insensitive(case_insensitive).build() {
        Ok(expression) => Ok(Compiled { expression, pattern: pattern.to_string(), case_insensitive }),
        Err(error) => Err(Refused { error, pattern: pattern.to_string(), case_insensitive }),
    }
}

/// `regex::Error`'s message, as its `Display` writes it: a function of the
/// pattern and case folding that were refused.
#[verifier::external_body]
pub(crate) fn refusal_message(refused: &Refused) -> (r: String)
    ensures
        r@ == build_error_text(refused@.0, refused@.1),
{
    refused.error.to_string()
}

/// `Regex::find_iter` with `Match::range`: the successive non-overlapping
/// matches of the expression, as byte ranges. The documentation also promises
/// that each range lies in the text on character boundaries, and that each
/// ends at or before the next begins.
#[verifier::external_body]
pub(crate) fn find_ranges(compiled: &Compiled, text: &str) -> (r: Vec<Range<usize>>)
    ensures
        r@ == regex_matches(compiled@.0, compiled@.1, text@),
        matches_in(text.spec_bytes(), r@),
{
    compiled.expression.find_iter(text).map(|m| m.range()).collect()
}

} // verus!
