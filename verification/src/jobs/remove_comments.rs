//! Removes comments, but for those that a pattern preserves.

use vstd::prelude::*;
use crate::jobs::PrepareOutcome;
use crate::pattern::is_match;
use crate::pattern::regex_match;

verus! {

/// The pattern that preserves a comment where the job is given none: the
/// comment starts with `!`.
pub const DEFAULT_PRESERVE_PATTERN: &'static str = "^!";

/// A regular expression; a comment that it matches is preserved.
#[derive(Debug)]
pub struct PreservePattern(pub String);

/// Why a value is no pattern.
#[derive(Clone, Copy, Debug, PartialEq, Eq, Structural)]
pub enum DeserializePreservePatternError {
    /// The value is no text.
    InvalidType,
    /// The text is no regular expression.
    InvalidRegex,
}

impl DeserializePreservePatternError {
    /// What the error tells the user.
    pub fn to_string(&self) -> (r: String)
        ensures
            r@ == match self {
                DeserializePreservePatternError::InvalidType => "expected a string"@,
                DeserializePreservePatternError::InvalidRegex => "expected valid regex string"@,
            },
    {
        match self {
            DeserializePreservePatternError::InvalidType => "expected a string".to_owned(),
            DeserializePreservePatternError::InvalidRegex => "expected valid regex string".to_owned(),
        }
    }
}

impl PreservePattern {
    /// The pattern `text`, if it is a regular expression.
    pub fn new(text: &str) -> (r: Result<PreservePattern, DeserializePreservePatternError>)
        ensures
            match r {
                Ok(pattern) => pattern.0@ == text@ && regex_match(text@, Seq::empty()) is Some,
                Err(e) => e == DeserializePreservePatternError::InvalidRegex && regex_match(
                    text@,
                    Seq::empty(),
                ) is None,
            },
    {
        let empty = String::new();
        match is_match(text, empty.as_str()) {
            Some(_) => Ok(PreservePattern(text.to_owned())),
            None => Err(DeserializePreservePatternError::InvalidRegex),
        }
    }

    /// The pattern that a value of a configuration stands for: `text` is
    /// the value if it is a text.
    pub fn deserialize(text: Option<&str>) -> (r: Result<
        PreservePattern,
        DeserializePreservePatternError,
    >)
        ensures
            match r {
                Ok(pattern) => text is Some && pattern.0@ == text.unwrap()@ && regex_match(
                    text.unwrap()@,
                    Seq::empty(),
                ) is Some,
                Err(e) => match text {
                    None => e == DeserializePreservePatternError::InvalidType,
                    Some(t) => e == DeserializePreservePatternError::InvalidRegex && regex_match(
                        t@,
                        Seq::empty(),
                    ) is None,
                },
            },
    {
        match text {
            None => Err(DeserializePreservePatternError::InvalidType),
            Some(t) => PreservePattern::new(t),
        }
    }
}

/// The job that removes comments.
#[derive(Debug)]
pub struct RemoveComments {
    /// The patterns that preserve a comment; `None` for the default.
    pub preserve_patterns: Option<Vec<PreservePattern>>,
}

impl Default for RemoveComments {
    fn default() -> (r: RemoveComments)
        ensures
            r.preserve_patterns is None,
    {
        RemoveComments { preserve_patterns: None }
    }
}

/// Whether one of the first `n` patterns matches `value`.
pub open spec fn any_matches(patterns: Seq<PreservePattern>, value: Seq<char>, n: int) -> bool
    decreases n,
{
    if n <= 0 {
        false
    } else {
        any_matches(patterns, value, n - 1) || regex_match(patterns[n - 1].0@, value) == Some(true)
    }
}

/// Whether a comment of the text `value` is preserved: one of the
/// patterns matches it, or the default pattern where none is given.
pub open spec fn is_preserved(patterns: Option<Vec<PreservePattern>>, value: Seq<char>) -> bool {
    match patterns {
        Some(given) => any_matches(given@, value, given@.len() as int),
        None => regex_match(DEFAULT_PRESERVE_PATTERN@, value) == Some(true),
    }
}

/// Whether the outcome `found` of matching a pattern preserves a comment.
pub fn preserves(found: Option<bool>) -> (r: bool)
    ensures
        r == (found == Some(true)),
{
    match found {
        Some(matched) => matched,
        None => false,
    }
}

impl RemoveComments {
    /// The job always runs. The comments directly below the document are
    /// judged by [`RemoveComments::remove_comment`] like the others.
    pub fn prepare(&mut self) -> (r: PrepareOutcome)
        ensures
            r == PrepareOutcome::Proceed,
            final(self).preserve_patterns == old(self).preserve_patterns,
    {
        PrepareOutcome::Proceed
    }

    /// Whether the comment of the text `value` is to be removed: no
    /// pattern preserves it.
    pub fn comment(&mut self, value: &str) -> (remove: bool)
        ensures
            remove == !is_preserved(old(self).preserve_patterns, value@),
            final(self).preserve_patterns == old(self).preserve_patterns,
    {
        self.remove_comment(value)
    }

    /// Whether the comment of the text `value` is to be removed: no
    /// pattern preserves it.
    pub fn remove_comment(&self, value: &str) -> (remove: bool)
        ensures
            remove == !is_preserved(self.preserve_patterns, value@),
    {
        match &self.preserve_patterns {
            None => !preserves(is_match(DEFAULT_PRESERVE_PATTERN, value)),
            Some(patterns) => {
                let mut i: usize = 0;
                while i < patterns.len()
                    invariant
                        i <= patterns@.len(),
                        self.preserve_patterns == Some(*patterns),
                        !any_matches(patterns@, value@, i as int),
                    decreases patterns@.len() - i,
                {
                    if preserves(is_match(patterns[i].0.as_str(), value)) {
                        assert(any_matches(patterns@, value@, i as int + 1));
                        proof {
                            lemma_any_matches_grows(
                                patterns@,
                                value@,
                                i as int + 1,
                                patterns@.len() as int,
                            );
                        }
                        return false;
                    }
                    i = i + 1;
                }
                true
            },
        }
    }
}

/// A match among fewer patterns is a match among more.
pub proof fn lemma_any_matches_grows(
    patterns: Seq<PreservePattern>,
    value: Seq<char>,
    n: int,
    m: int,
)
    requires
        n <= m,
        any_matches(patterns, value, n),
    ensures
        any_matches(patterns, value, m),
    decreases m - n,
{
    if n < m {
        lemma_any_matches_grows(patterns, value, n, m - 1);
    }
}

} // verus!
