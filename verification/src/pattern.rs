//! The pattern that finds versions in a text, and the matcher that runs it.

use crate::encoding::span_fits;
use crate::error::Error;
use regex::Regex;
use vstd::prelude::*;
use vstd::utf8::*;

verus! {

/// Three runs of one or more decimal digits, with a dot between neighbours.
pub const VERSION_PATTERN: &'static str = r"\d+\.\d+\.\d+";

/// Whether `regex::Regex::new` accepts `pattern`.
pub uninterp spec fn regex_compiles(pattern: Seq<char>) -> bool;

/// The matches of `pattern` that `regex::Regex::find_iter` yields on
/// `haystack`, each as the byte offsets `(start, end)` of the match in the
/// haystack, in the order in which the iterator yields them.
pub uninterp spec fn regex_spans(pattern: Seq<char>, haystack: Seq<char>) -> Seq<(usize, usize)>;

/// Whether the spans lie in `text` on character boundaries, one after
/// another without overlap. `text` is the UTF-8 encoding of a string.
pub open spec fn spans_in_order(text: Seq<u8>, spans: Seq<(usize, usize)>) -> bool {
    &&& forall|i: int|
        0 <= i < spans.len() ==> span_fits(text, (#[trigger] spans[i]).0 as int, spans[i].1 as int)
    &&& forall|i: int, j: int|
        0 <= i < j < spans.len() ==> (#[trigger] spans[i]).1 <= (#[trigger] spans[j]).0
}

/// Compiles `pattern` with `regex::Regex::new` and collects the bounds of
/// the matches that `regex::Regex::find_iter` yields on `haystack`.
///
/// `None` stands for a pattern that did not compile.
///
/// Believed, not proved: whether the pattern compiles, and which matches
/// come out, depend on pattern and haystack alone; each match has
/// `start <= end`, lies inside the haystack and falls on character
/// boundaries; and the matches come one after another without overlap.
#[verifier::external_body]
fn find_spans(pattern: &str, haystack: &str) -> (r: Option<Vec<(usize, usize)>>)
    ensures
        r is Some <==> regex_compiles(pattern@),
        r matches Some(spans) ==> spans@ == regex_spans(pattern@, haystack@),
        r matches Some(spans) ==> spans_in_order(encode_utf8(haystack@), spans@),
{
    match Regex::new(pattern) {
        Ok(re) => Some(re.find_iter(haystack).map(|m| (m.start(), m.end())).collect()),
        Err(_) => None,
    }
}

/// Finds every match of `pattern` in `text`, from left to right, as byte
/// offsets `(start, end)` into `text`. A pattern that does not compile is
/// answered with `InvalidPattern`.
pub fn find_matches(pattern: &str, text: &str) -> (r: Result<Vec<(usize, usize)>, Error>)
    ensures
        match r {
            Ok(spans) => regex_compiles(pattern@) && spans@ == regex_spans(pattern@, text@)
                && spans_in_order(encode_utf8(text@), spans@),
            Err(e) => !regex_compiles(pattern@) && e == Error::InvalidPattern,
        },
{
    match find_spans(pattern, text) {
        Some(spans) => Ok(spans),
        None => Err(Error::InvalidPattern),
    }
}

/// The version patterns in `text`, where the pattern compiles. `text` is the
/// UTF-8 encoding of the searched string.
pub open spec fn version_spans(text: Seq<u8>) -> Seq<(usize, usize)> {
    regex_spans(VERSION_PATTERN@, decode_utf8(text))
}

/// Finds every version pattern in `text`, from left to right.
pub fn find_versions(text: &str) -> (r: Result<Vec<(usize, usize)>, Error>)
    ensures
        match r {
            Ok(spans) => regex_compiles(VERSION_PATTERN@) && spans@ == version_spans(
                encode_utf8(text@),
            ) && spans_in_order(encode_utf8(text@), spans@),
            Err(e) => !regex_compiles(VERSION_PATTERN@) && e == Error::InvalidPattern,
        },
{
    proof {
        encode_utf8_decode_utf8(text@);
    }
    find_matches(VERSION_PATTERN, text)
}

} // verus!
