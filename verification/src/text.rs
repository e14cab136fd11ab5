//! Text helpers on top of the standard library's strings.

use vstd::prelude::*;

verus! {

/// What `str::to_lowercase` of the standard library makes of a text: its
/// lower-case form in Unicode. It is a function of the whole text: what a
/// character becomes may be more than one character and may depend on
/// where in a word it stands.
pub uninterp spec fn lowercase(text: Seq<char>) -> Seq<char>;

/// `str::to_lowercase` of the standard library: the lower-case form of
/// `text`, a function of the text alone.
#[verifier::external_body]
pub(crate) fn to_lowercase(text: &str) -> (r: String)
    ensures
        r@ == lowercase(text@),
{
    text.to_lowercase()
}

/// What `str::to_uppercase` of the standard library makes of a text: its
/// upper-case form in Unicode. It is a function of the whole text: what a
/// character becomes may be more than one character.
pub uninterp spec fn uppercase(text: Seq<char>) -> Seq<char>;

/// `str::to_uppercase` of the standard library: the upper-case form of
/// `text`, a function of the text alone.
#[verifier::external_body]
pub(crate) fn to_uppercase(text: &str) -> (r: String)
    ensures
        r@ == uppercase(text@),
{
    text.to_uppercase()
}

/// `String::push` of the standard library: appends the character `c` to
/// `s`.
#[verifier::external_body]
pub(crate) fn push_char(s: &mut String, c: char)
    ensures
        final(s)@ == old(s)@.push(c),
{
    s.push(c)
}

/// The text of `s`, which is left empty.
pub fn take(s: &mut String) -> (r: String)
    ensures
        r@ == old(s)@,
        final(s)@ == Seq::<char>::empty(),
{
    let mut taken = String::new();
    std::mem::swap(s, &mut taken);
    taken
}

/// Whether `a` and `b` are the same text.
pub fn same(a: &str, b: &str) -> (r: bool)
    ensures
        r == (a@ == b@),
{
    a.to_owned() == b.to_owned()
}

/// Whether the lower-case form of `text` is `word`.
pub fn is_word(text: &str, word: &str) -> (r: bool)
    ensures
        r == (lowercase(text@) == word@),
{
    let lowered = to_lowercase(text);
    same(lowered.as_str(), word)
}

/// Whether the upper-case form of `text` is `word`.
pub fn is_upper_word(text: &str, word: &str) -> (r: bool)
    ensures
        r == (uppercase(text@) == word@),
{
    let raised = to_uppercase(text);
    same(raised.as_str(), word)
}

/// The string of the characters of `chars`.
pub fn string_of(chars: &Vec<char>) -> (r: String)
    ensures
        r@ == chars@,
{
    let mut r = String::new();
    let mut i: usize = 0;
    while i < chars.len()
        invariant
            i <= chars@.len(),
            r@ == chars@.take(i as int),
        decreases chars@.len() - i,
    {
        push_char(&mut r, chars[i]);
        assert(chars@.take(i as int + 1) =~= chars@.take(i as int).push(chars@[i as int]));
        i = i + 1;
    }
    assert(chars@.take(chars@.len() as int) =~= chars@);
    r
}

/// The characters of `text` in order.
pub fn chars_of(text: &str) -> (r: Vec<char>)
    ensures
        r@ == text@,
{
    let mut r: Vec<char> = Vec::new();
    for c in it: text.chars()
        invariant
            r@ == it.seq().take(it.index()),
    {
        r.push(c);
    }
    r
}

} // verus!
