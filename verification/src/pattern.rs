//! Regular-expression matching through the `regex` crate, and other text
//! services of outside code (Unicode lower-casing, calendar dates).
//!
//! Positions are character indices into the searched text.
use std::fmt::Write;
use vstd::prelude::*;

verus! {

/// Whether the `regex` crate finds a match of `pattern` in `text`
/// (`false` when the pattern does not compile).
pub uninterp spec fn regex_matches(pattern: Seq<char>, text: Seq<char>) -> bool;

/// The successive non-overlapping matches of `pattern` in `text`
/// (`Regex::captures_iter`), each as the spans of its capture groups
/// (group 0 is the whole match; `None` for a group that did not take part).
/// Empty when the pattern does not compile.
pub uninterp spec fn regex_captures(pattern: Seq<char>, text: Seq<char>) -> Seq<
    Seq<Option<(usize, usize)>>,
>;

/// `regex::escape`: `s` with every regex meta character backslash-escaped.
pub uninterp spec fn regex_escaped(s: Seq<char>) -> Seq<char>;

/// Whether `regex::Regex::new(pattern)` compiles and `is_match(text)` holds.
#[verifier::external_body]
pub(crate) fn regex_is_match(pattern: &str, text: &str) -> (r: bool)
    ensures
        r == regex_matches(pattern@, text@),
{
    regex::Regex::new(pattern).map(|re| re.is_match(text)).unwrap_or(false)
}

/// `regex::Regex::captures_iter`, every group's byte span turned into a span
/// of character indices. Claimed: [`regex_captures`] of the arguments, and
/// every span lies within the text, start before end.
#[verifier::external_body]
pub(crate) fn regex_captures_all(pattern: &str, text: &str) -> (r: Vec<Vec<Option<(usize, usize)>>>)
    ensures
        r@.map_values(|m: Vec<Option<(usize, usize)>>| m@) == regex_captures(pattern@, text@),
        forall|i: int, g: int|
            0 <= i < r@.len() && 0 <= g < r@[i]@.len() ==> (#[trigger] r@[i]@[g] matches Some(
                sp,
            ) ==> sp.0 <= sp.1 <= text@.len()),
{
    let Ok(re) = regex::Regex::new(pattern) else { return Vec::new() };
    let at = |b: usize| text[..b].chars().count();
    re.captures_iter(text).map(|c| c.iter().map(|g| g.map(|m| (at(m.start()), at(m.end())))).collect()).collect()
}

/// `regex::escape` of `s`.
#[verifier::external_body]
pub(crate) fn regex_escape(s: &str) -> (r: String)
    ensures
        r@ == regex_escaped(s@),
{
    regex::escape(s)
}

/// Unicode lower-case mapping of a string (`str::to_lowercase`).
pub uninterp spec fn lowercase(s: Seq<char>) -> Seq<char>;

/// `str::to_lowercase`. Claimed: [`lowercase`] of the argument.
#[verifier::external_body]
pub(crate) fn to_lowercase(s: &str) -> (r: String)
    ensures
        r@ == lowercase(s@),
{
    s.to_lowercase()
}

/// Unicode upper-case mapping of a string (`str::to_uppercase`).
pub uninterp spec fn uppercase(s: Seq<char>) -> Seq<char>;

/// `str::to_uppercase`. Claimed: [`uppercase`] of the argument.
#[verifier::external_body]
pub(crate) fn to_uppercase(s: &str) -> (r: String)
    ensures
        r@ == uppercase(s@),
{
    s.to_uppercase()
}

/// Whether `chrono::NaiveDate::parse_from_str(s, format)` accepts `s` as a
/// calendar date in the given format.
pub uninterp spec fn date_parses(s: Seq<char>, format: Seq<char>) -> bool;

/// `chrono::NaiveDate::parse_from_str(s, format).is_ok()`.
#[verifier::external_body]
pub(crate) fn parses_as_date(s: &str, format: &str) -> (r: bool)
    ensures
        r == date_parses(s@, format@),
{
    chrono::NaiveDate::parse_from_str(s, format).is_ok()
}

/// What `chrono` writes for the date `date`, read as `%Y-%m-%d`, in the
/// strftime format `fmt`: `None` when the date does not parse or the
/// format is not a valid strftime format. A function of its arguments
/// alone (no locale is involved).
pub uninterp spec fn date_text(date: Seq<char>, fmt: Seq<char>) -> Option<Seq<char>>;

/// `chrono::NaiveDate::parse_from_str(date, "%Y-%m-%d")`, then the date's
/// `format(fmt)` written into a string. Claimed: [`date_text`] of the
/// arguments.
#[verifier::external_body]
pub(crate) fn strftime_text(date: &str, fmt: &str) -> (r: Option<String>)
    ensures
        match r {
            Some(t) => date_text(date@, fmt@) == Some(t@),
            None => date_text(date@, fmt@) is None,
        },
{
    let d = chrono::NaiveDate::parse_from_str(date, "%Y-%m-%d").ok()?;
    let mut out = String::new();
    write!(out, "{}", d.format(fmt)).ok()?;
    Some(out)
}

} // verus!
