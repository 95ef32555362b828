//! Character-sequence algorithms shared by the coercer and the renderer.
//!
//! Texts are handled as `Vec<char>` so that every position is one character;
//! contracts speak of their views, `Seq<char>`.

use vstd::prelude::*;

verus! {

/// `needle` stands in `hay` at position `at`.
pub open spec fn occurs_at(hay: Seq<char>, needle: Seq<char>, at: int) -> bool {
    &&& 0 <= at
    &&& at + needle.len() <= hay.len()
    &&& hay.subrange(at, at + needle.len()) == needle
}

/// `needle` stands somewhere in `hay`.
pub open spec fn occurs_in(hay: Seq<char>, needle: Seq<char>) -> bool {
    exists|at: int| occurs_at(hay, needle, at)
}

/// The characters of a string slice, one element per character.
pub fn to_chars(s: &str) -> (chars: Vec<char>)
    ensures
        chars@ == s@,
{
    let mut chars: Vec<char> = Vec::new();
    for c in it: s.chars()
        invariant
            chars@ == it.seq().take(it.index()),
            it.seq() == s@,
    {
        chars.push(c);
    }
    chars
}

/// Tells whether two string slices hold the same characters.
pub fn same_text(a: &str, b: &str) -> (same: bool)
    ensures
        same == (a@ == b@),
{
    let left = to_chars(a);
    let right = to_chars(b);
    if left.len() != right.len() {
        return false;
    }
    let same = matches_at(left.as_slice(), right.as_slice(), 0);
    assert(left@.subrange(0, left@.len() as int) =~= left@);
    same
}

/// Appends one character to a string (`String::push`): the string afterwards
/// is the string before with `c` at its end.
#[verifier::external_body]
fn push_char(s: &mut String, c: char)
    ensures
        final(s)@ == old(s)@.push(c),
{
    s.push(c);
}

/// The string made of the given characters, in order.
pub fn from_chars(chars: &[char]) -> (s: String)
    ensures
        s@ == chars@,
{
    let mut s = String::new();
    let mut i: usize = 0;
    while i < chars.len()
        invariant
            i <= chars.len(),
            s@ == chars@.take(i as int),
        decreases chars.len() - i,
    {
        push_char(&mut s, chars[i]);
        i += 1;
    }
    s
}

/// Appends all of `tail` to `out`.
pub fn append_chars(out: &mut Vec<char>, tail: &[char])
    ensures
        final(out)@ == old(out)@ + tail@,
{
    let mut i: usize = 0;
    while i < tail.len()
        invariant
            i <= tail.len(),
            out@ == old(out)@ + tail@.take(i as int),
        decreases tail.len() - i,
    {
        out.push(tail[i]);
        i += 1;
    }
}

/// Tells whether `needle` stands in `hay` at position `at`.
pub fn matches_at(hay: &[char], needle: &[char], at: usize) -> (found: bool)
    ensures
        found == occurs_at(hay@, needle@, at as int),
{
    if at > hay.len() || needle.len() > hay.len() - at {
        return false;
    }
    let mut k: usize = 0;
    while k < needle.len()
        invariant
            at + needle.len() <= hay.len(),
            k <= needle.len(),
            forall|j: int| 0 <= j < k ==> hay@[at + j] == needle@[j],
        decreases needle.len() - k,
    {
        if hay[at + k] != needle[k] {
            return false;
        }
        k += 1;
    }
    assert(hay@.subrange(at as int, at + needle.len()) =~= needle@);
    true
}

/// Tells whether `needle` stands somewhere in `hay`. The empty needle stands
/// in every text.
pub fn contains(hay: &[char], needle: &[char]) -> (found: bool)
    ensures
        found == occurs_in(hay@, needle@),
{
    if needle.len() > hay.len() {
        return false;
    }
    let last: usize = hay.len() - needle.len();
    let mut at: usize = 0;
    loop
        invariant
            last == hay.len() - needle.len(),
            at <= last,
            forall|j: int| 0 <= j < at ==> !occurs_at(hay@, needle@, j),
        decreases last - at,
    {
        if matches_at(hay, needle, at) {
            return true;
        }
        if at == last {
            return false;
        }
        at += 1;
    }
}

/// `hay` with every occurrence of `pattern` replaced by `replacement`.
///
/// Occurrences are taken from the left and do not overlap: after one is
/// replaced the search goes on behind it, and the replacement itself is not
/// searched. With the empty pattern the text is left as it is.
pub open spec fn spec_replace_all(
    hay: Seq<char>,
    pattern: Seq<char>,
    replacement: Seq<char>,
) -> Seq<char>
    decreases hay.len(),
{
    if pattern.len() == 0 || hay.len() < pattern.len() {
        hay
    } else if hay.subrange(0, pattern.len() as int) == pattern {
        replacement + spec_replace_all(hay.skip(pattern.len() as int), pattern, replacement)
    } else {
        seq![hay[0]] + spec_replace_all(hay.skip(1), pattern, replacement)
    }
}

/// Replaces every occurrence of `pattern` in `hay` by `replacement`, from the
/// left and without overlap.
pub fn replace_all(hay: &[char], pattern: &[char], replacement: &[char]) -> (out: Vec<char>)
    ensures
        out@ == spec_replace_all(hay@, pattern@, replacement@),
{
    let mut out: Vec<char> = Vec::new();
    if pattern.len() == 0 {
        append_chars(&mut out, hay);
        return out;
    }
    let mut i: usize = 0;
    assert(out@ + spec_replace_all(hay@.skip(0), pattern@, replacement@) =~= spec_replace_all(
        hay@,
        pattern@,
        replacement@,
    )) by {
        assert(hay@.skip(0) =~= hay@);
    }
    while i < hay.len()
        invariant
            pattern.len() > 0,
            i <= hay.len(),
            out@ + spec_replace_all(hay@.skip(i as int), pattern@, replacement@)
                == spec_replace_all(hay@, pattern@, replacement@),
        decreases hay.len() - i,
    {
        let ghost rest = hay@.skip(i as int);
        if matches_at(hay, pattern, i) {
            assert(rest.subrange(0, pattern.len() as int) =~= hay@.subrange(
                i as int,
                i + pattern.len(),
            ));
            assert(rest.skip(pattern.len() as int) =~= hay@.skip(i + pattern.len()));
            append_chars(&mut out, replacement);
            i += pattern.len();
        } else {
            assert(rest.len() >= pattern.len() ==> rest.subrange(0, pattern.len() as int)
                =~= hay@.subrange(i as int, i + pattern.len()));
            assert(rest.skip(1) =~= hay@.skip(i + 1));
            out.push(hay[i]);
            i += 1;
        }
    }
    out
}

/// Where the pattern does not stand at the head of a text, the first
/// character is kept and the rest is replaced on its own.
pub proof fn lemma_replace_all_step(text: Seq<char>, pattern: Seq<char>, replacement: Seq<char>)
    requires
        text.len() > 0,
        pattern.len() > 0,
        !occurs_at(text, pattern, 0),
    ensures
        spec_replace_all(text, pattern, replacement) == seq![text[0]] + spec_replace_all(
            text.skip(1),
            pattern,
            replacement,
        ),
{
    if text.len() < pattern.len() {
        assert(seq![text[0]] + text.skip(1) =~= text);
    }
}

/// A text whose first character is not the first of the pattern keeps that
/// character, and the rest is replaced on its own.
pub proof fn lemma_replace_all_head(text: Seq<char>, pattern: Seq<char>, replacement: Seq<char>)
    requires
        text.len() > 0,
        pattern.len() > 0,
        text[0] != pattern[0],
    ensures
        spec_replace_all(text, pattern, replacement) == seq![text[0]] + spec_replace_all(
            text.skip(1),
            pattern,
            replacement,
        ),
{
    if occurs_at(text, pattern, 0) {
        assert(text.subrange(0, pattern.len() as int)[0] == text[0]);
    }
    lemma_replace_all_step(text, pattern, replacement);
}

/// A text in which the pattern does not stand is left as it is.
pub proof fn lemma_replace_all_without_occurrence(
    text: Seq<char>,
    pattern: Seq<char>,
    replacement: Seq<char>,
)
    requires
        !occurs_in(text, pattern),
    ensures
        spec_replace_all(text, pattern, replacement) == text,
    decreases text.len(),
{
    if pattern.len() > 0 && text.len() > 0 {
        let rest = text.skip(1);
        assert(!occurs_at(text, pattern, 0));
        assert forall|at: int| !occurs_at(rest, pattern, at) by {
            if occurs_at(rest, pattern, at) {
                assert(rest.subrange(at, at + pattern.len()) =~= text.subrange(
                    at + 1,
                    at + 1 + pattern.len(),
                ));
                assert(occurs_at(text, pattern, at + 1));
            }
        }
        lemma_replace_all_step(text, pattern, replacement);
        lemma_replace_all_without_occurrence(rest, pattern, replacement);
        assert(seq![text[0]] + rest =~= text);
    }
}

} // verus!
