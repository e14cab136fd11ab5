//! Regular expressions, as far as the jobs use them.
//!
//! The expressions are compiled and run by the `regex` crate. What it
//! answers is a function of the pattern and the text alone, and stands in
//! the contracts under a name.

use vstd::prelude::*;

verus! {

/// Whether the regular expression `pattern` matches somewhere in `text`;
/// `None` where `pattern` is no regular expression that the `regex` crate
/// compiles.
pub uninterp spec fn regex_match(pattern: Seq<char>, text: Seq<char>) -> Option<bool>;

/// `text` with every match of the regular expression `pattern` replaced by
/// the expansion of `replacement`; `None` where `pattern` is no regular
/// expression that the `regex` crate compiles.
pub uninterp spec fn regex_replace_all(
    pattern: Seq<char>,
    text: Seq<char>,
    replacement: Seq<char>,
) -> Option<Seq<char>>;

/// `regex::Regex::new` and, on what it compiled, `Regex::is_match`:
/// whether `pattern` matches somewhere in `text`. The answer depends on
/// the two texts alone.
#[verifier::external_body]
pub(crate) fn is_match(pattern: &str, text: &str) -> (r: Option<bool>)
    ensures
        r == regex_match(pattern@, text@),
{
    match regex::Regex::new(pattern) {
        Ok(compiled) => Some(compiled.is_match(text)),
        Err(_) => None,
    }
}

/// `regex::Regex::new` and, on what it compiled, `Regex::replace_all`:
/// `text` with every match of `pattern` replaced. The answer depends on
/// the three texts alone.
#[verifier::external_body]
pub(crate) fn replace_all(pattern: &str, text: &str, replacement: &str) -> (r: Option<String>)
    ensures
        match r {
            Some(replaced) => regex_replace_all(pattern@, text@, replacement@) == Some(replaced@),
            None => regex_replace_all(pattern@, text@, replacement@) is None,
        },
{
    match regex::Regex::new(pattern) {
        Ok(compiled) => Some(compiled.replace_all(text, replacement).into_owned()),
        Err(_) => None,
    }
}

} // verus!
