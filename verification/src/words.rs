//! Splitting a text into words at white space.

use vstd::prelude::*;

verus! {

/// Whether `c` has the Unicode property `White_Space`.
pub open spec fn is_space(c: char) -> bool {
    let n = c as u32;
    ||| 0x09 <= n <= 0x0D
    ||| n == 0x20
    ||| n == 0x85
    ||| n == 0xA0
    ||| n == 0x1680
    ||| 0x2000 <= n <= 0x200A
    ||| n == 0x2028
    ||| n == 0x2029
    ||| n == 0x202F
    ||| n == 0x205F
    ||| n == 0x3000
}

/// The index of the first character from `i` on that is no white space.
pub open spec fn skip_spaces(s: Seq<char>, i: int) -> int
    decreases s.len() - i,
{
    if 0 <= i < s.len() && is_space(s[i]) {
        skip_spaces(s, i + 1)
    } else {
        i
    }
}

/// The index of the first white space from `i` on, or the length.
pub open spec fn word_end(s: Seq<char>, i: int) -> int
    decreases s.len() - i,
{
    if 0 <= i < s.len() && !is_space(s[i]) {
        word_end(s, i + 1)
    } else {
        i
    }
}

/// The words of `s` from `i` on: the longest runs of characters that are
/// no white space.
pub open spec fn words_from(s: Seq<char>, i: int) -> Seq<Seq<char>>
    decreases s.len() - i,
{
    let start = skip_spaces(s, i);
    let end = word_end(s, start);
    if start < i || start >= s.len() || end <= start || end > s.len() {
        Seq::empty()
    } else {
        seq![s.subrange(start, end)] + words_from(s, end)
    }
}

/// The words of `s`.
pub open spec fn words(s: Seq<char>) -> Seq<Seq<char>> {
    words_from(s, 0)
}

/// `s` without the white space at its start and its end.
pub open spec fn trimmed(s: Seq<char>) -> Seq<char> {
    let start = skip_spaces(s, 0);
    s.subrange(start, trim_end(s, start, s.len() as int))
}

/// The index after the last character before `end` that is no white
/// space, or `start`.
pub open spec fn trim_end(s: Seq<char>, start: int, end: int) -> int
    decreases end - start,
{
    if start < end <= s.len() && is_space(s[end - 1]) {
        trim_end(s, start, end - 1)
    } else if end < start {
        start
    } else {
        end
    }
}

/// A word ends within the text, and after its first character.
pub proof fn lemma_word_end(s: Seq<char>, i: int)
    requires
        0 <= i <= s.len(),
    ensures
        i <= word_end(s, i) <= s.len(),
        i < s.len() && !is_space(s[i]) ==> i < word_end(s, i),
    decreases s.len() - i,
{
    if i < s.len() && !is_space(s[i]) {
        lemma_word_end(s, i + 1);
    }
}

/// Whether `c` has the Unicode property `White_Space`.
pub fn space(c: char) -> (r: bool)
    ensures
        r == is_space(c),
{
    let n = c as u32;
    (0x09 <= n && n <= 0x0D) || n == 0x20 || n == 0x85 || n == 0xA0 || n == 0x1680 || (0x2000 <= n
        && n <= 0x200A) || n == 0x2028 || n == 0x2029 || n == 0x202F || n == 0x205F || n == 0x3000
}

/// The characters of `s` from `from` up to `to`.
pub fn slice(s: &Vec<char>, from: usize, to: usize) -> (r: Vec<char>)
    requires
        from <= to <= s@.len(),
    ensures
        r@ == s@.subrange(from as int, to as int),
{
    let mut r: Vec<char> = Vec::new();
    let mut i: usize = from;
    while i < to
        invariant
            from <= i <= to <= s@.len(),
            r@ == s@.subrange(from as int, i as int),
        decreases to - i,
    {
        r.push(s[i]);
        assert(s@.subrange(from as int, i as int + 1) =~= s@.subrange(from as int, i as int).push(
            s@[i as int],
        ));
        i = i + 1;
    }
    r
}

/// The words of `s`.
pub fn split_whitespace(s: &Vec<char>) -> (r: Vec<Vec<char>>)
    ensures
        r@.len() == words(s@).len(),
        forall|k: int| 0 <= k < r@.len() ==> (#[trigger] r@[k])@ == words(s@)[k],
{
    let mut out: Vec<Vec<char>> = Vec::new();
    let mut i: usize = 0;
    let ghost mut done: Seq<Seq<char>> = Seq::empty();
    loop
        invariant
            i <= s@.len(),
            done.len() == out@.len(),
            forall|k: int| 0 <= k < out@.len() ==> (#[trigger] out@[k])@ == done[k],
            words(s@) == done + words_from(s@, i as int),
        decreases s@.len() - i,
    {
        let mut start: usize = i;
        while start < s.len() && space(s[start])
            invariant
                i <= start <= s@.len(),
                skip_spaces(s@, i as int) == skip_spaces(s@, start as int),
            decreases s@.len() - start,
        {
            start = start + 1;
        }
        if start >= s.len() {
            assert(done + Seq::<Seq<char>>::empty() =~= done);
            return out;
        }
        let mut end: usize = start;
        while end < s.len() && !space(s[end])
            invariant
                start <= end <= s@.len(),
                word_end(s@, start as int) == word_end(s@, end as int),
            decreases s@.len() - end,
        {
            end = end + 1;
        }
        proof {
            lemma_word_end(s@, start as int);
            let word = s@.subrange(start as int, end as int);
            assert(done + (seq![word] + words_from(s@, end as int)) =~= done.push(word)
                + words_from(s@, end as int));
            done = done.push(word);
        }
        out.push(slice(s, start, end));
        i = end;
    }
}

/// `s` without the white space at its start and its end.
pub fn trim(s: &Vec<char>) -> (r: Vec<char>)
    ensures
        r@ == trimmed(s@),
{
    let mut start: usize = 0;
    while start < s.len() && space(s[start])
        invariant
            start <= s@.len(),
            skip_spaces(s@, 0) == skip_spaces(s@, start as int),
        decreases s@.len() - start,
    {
        start = start + 1;
    }
    let mut end: usize = s.len();
    while end > start && space(s[end - 1])
        invariant
            start <= end <= s@.len(),
            trim_end(s@, start as int, s@.len() as int) == trim_end(s@, start as int, end as int),
        decreases end,
    {
        end = end - 1;
    }
    slice(s, start, end)
}

/// The texts between the occurrences of `separator` in `s` from `i` on,
/// the text from `from` on being under way.
pub open spec fn pieces_from(s: Seq<char>, separator: char, from: int, i: int) -> Seq<Seq<char>>
    decreases s.len() - i,
{
    if i < from || i >= s.len() {
        seq![s.subrange(from, s.len() as int)]
    } else if s[i] == separator {
        seq![s.subrange(from, i)] + pieces_from(s, separator, i + 1, i + 1)
    } else {
        pieces_from(s, separator, from, i + 1)
    }
}

/// The texts between the occurrences of `separator` in `s`: one more than
/// there are occurrences.
pub open spec fn pieces(s: Seq<char>, separator: char) -> Seq<Seq<char>> {
    pieces_from(s, separator, 0, 0)
}

/// The texts between the occurrences of `separator` in `s`.
pub fn split(s: &Vec<char>, separator: char) -> (r: Vec<Vec<char>>)
    ensures
        r@.len() == pieces(s@, separator).len(),
        forall|k: int| 0 <= k < r@.len() ==> (#[trigger] r@[k])@ == pieces(s@, separator)[k],
{
    let mut out: Vec<Vec<char>> = Vec::new();
    let mut from: usize = 0;
    let mut i: usize = 0;
    let ghost mut done: Seq<Seq<char>> = Seq::empty();
    while i < s.len()
        invariant
            from <= i <= s@.len(),
            done.len() == out@.len(),
            forall|k: int| 0 <= k < out@.len() ==> (#[trigger] out@[k])@ == done[k],
            pieces(s@, separator) == done + pieces_from(s@, separator, from as int, i as int),
        decreases s@.len() - i,
    {
        if s[i] == separator {
            proof {
                let piece = s@.subrange(from as int, i as int);
                assert(done + (seq![piece] + pieces_from(
                    s@,
                    separator,
                    i as int + 1,
                    i as int + 1,
                )) =~= done.push(piece) + pieces_from(s@, separator, i as int + 1, i as int + 1));
                done = done.push(piece);
            }
            out.push(slice(s, from, i));
            from = i + 1;
        }
        i = i + 1;
    }
    proof {
        let piece = s@.subrange(from as int, s@.len() as int);
        assert(done + seq![piece] =~= done.push(piece));
    }
    out.push(slice(s, from, s.len()));
    out
}

} // verus!
