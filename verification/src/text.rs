//! Text helpers shared by the rest of the crate: comparing, trimming and
//! case-folding strings, with specifications over sequences of characters.

use vstd::prelude::*;
use vstd::string::*;

verus! {

/// Whether a character has the Unicode `White_Space` property.
///
/// This is the meaning of [`char::is_whitespace`]; the property table itself is
/// not restated here.
pub uninterp spec fn is_whitespace(c: char) -> bool;

/// The lowercase form of a string, as [`str::to_lowercase`] computes it.
///
/// Unicode lowercasing is context-sensitive and can change the length of a
/// string, so it is named here and not defined.
pub uninterp spec fn lowercase(s: Seq<char>) -> Seq<char>;

/// The lowercase form of one character when only the ASCII letters `A` to `Z`
/// are folded.
pub open spec fn ascii_lowercase_char(c: char) -> char {
    if 'A' <= c && c <= 'Z' {
        ((c as u8) + 32) as char
    } else {
        c
    }
}

/// A string with its ASCII capital letters folded to lowercase, every other
/// character unchanged.
pub open spec fn ascii_lowercase(s: Seq<char>) -> Seq<char> {
    s.map_values(|c: char| ascii_lowercase_char(c))
}

/// The number of whitespace characters at the start of `s`.
pub open spec fn leading_whitespace(s: Seq<char>) -> nat
    decreases s.len(),
{
    if s.len() > 0 && is_whitespace(s[0]) {
        1 + leading_whitespace(s.drop_first())
    } else {
        0
    }
}

/// The number of whitespace characters at the end of `s`.
pub open spec fn trailing_whitespace(s: Seq<char>) -> nat
    decreases s.len(),
{
    if s.len() > 0 && is_whitespace(s.last()) {
        1 + trailing_whitespace(s.drop_last())
    } else {
        0
    }
}

/// `s` without its leading and trailing whitespace.
pub open spec fn trimmed(s: Seq<char>) -> Seq<char> {
    let rest = s.skip(leading_whitespace(s) as int);
    rest.take(rest.len() - trailing_whitespace(rest))
}

/// The `==` of string slices, [`str::eq`]: two slices are equal exactly when
/// they hold the same characters.
pub assume_specification[ <str as PartialEq>::eq ](a: &str, b: &str) -> (r: bool)
    ensures
        r == (a@ == b@),
;

/// Whether two string slices hold the same characters.
pub fn str_eq(a: &str, b: &str) -> (r: bool)
    ensures
        r == (a@ == b@),
{
    *a == *b
}

/// Calls [`char::is_whitespace`], which reports whether the character has the
/// Unicode `White_Space` property.
#[verifier::external_body]
fn char_is_whitespace(c: char) -> (r: bool)
    ensures
        r == is_whitespace(c),
{
    c.is_whitespace()
}

/// Calls [`str::to_lowercase`] and returns the lowercase string it builds.
#[verifier::external_body]
pub(crate) fn str_to_lowercase(s: &str) -> (r: String)
    ensures
        r@ == lowercase(s@),
{
    s.to_lowercase()
}

/// Calls [`str::to_ascii_lowercase`], which maps `A` to `Z` onto `a` to `z`
/// and copies every other character.
#[verifier::external_body]
pub(crate) fn str_to_ascii_lowercase(s: &str) -> (r: String)
    ensures
        r@ == ascii_lowercase(s@),
{
    s.to_ascii_lowercase()
}

/// A prefix of `s` of length `n` that is all whitespace, followed by the end
/// of the string or by a character that is not whitespace, is the whole
/// leading whitespace of `s`.
proof fn lemma_leading_whitespace(s: Seq<char>, n: nat)
    requires
        n <= s.len(),
        forall|i: int| 0 <= i < n ==> is_whitespace(#[trigger] s[i]),
        n == s.len() || !is_whitespace(s[n as int]),
    ensures
        leading_whitespace(s) == n,
    decreases n,
{
    if n > 0 {
        let rest = s.drop_first();
        assert forall|i: int| 0 <= i < n - 1 implies is_whitespace(#[trigger] rest[i]) by {
            assert(rest[i] == s[i + 1]);
        }
        lemma_leading_whitespace(rest, (n - 1) as nat);
    }
}

/// A suffix of `s` of length `n` that is all whitespace, preceded by the start
/// of the string or by a character that is not whitespace, is the whole
/// trailing whitespace of `s`.
proof fn lemma_trailing_whitespace(s: Seq<char>, n: nat)
    requires
        n <= s.len(),
        forall|i: int| s.len() - n <= i < s.len() ==> is_whitespace(#[trigger] s[i]),
        n == s.len() || !is_whitespace(s[s.len() - n - 1]),
    ensures
        trailing_whitespace(s) == n,
    decreases n,
{
    if n > 0 {
        let rest = s.drop_last();
        assert forall|i: int| rest.len() - (n - 1) <= i < rest.len() implies is_whitespace(
            #[trigger] rest[i],
        ) by {
            assert(rest[i] == s[i]);
        }
        lemma_trailing_whitespace(rest, (n - 1) as nat);
    }
}

/// Removes leading and trailing whitespace, as [`str::trim`] does.
pub fn trim(s: &str) -> (r: &str)
    ensures
        r@ == trimmed(s@),
{
    let n = s.unicode_len();
    let mut start: usize = 0;
    while start < n && char_is_whitespace(s.get_char(start))
        invariant
            start <= n,
            n == s@.len(),
            forall|i: int| 0 <= i < start ==> is_whitespace(#[trigger] s@[i]),
        decreases n - start,
    {
        start += 1;
    }
    let mut end: usize = n;
    while end > start && char_is_whitespace(s.get_char(end - 1))
        invariant
            start <= end <= n,
            n == s@.len(),
            forall|i: int| end <= i < n ==> is_whitespace(#[trigger] s@[i]),
        decreases end,
    {
        end -= 1;
    }
    proof {
        lemma_leading_whitespace(s@, start as nat);
        let rest = s@.skip(start as int);
        assert forall|i: int| rest.len() - (n - end) <= i < rest.len() implies is_whitespace(
            #[trigger] rest[i],
        ) by {
            assert(rest[i] == s@[i + start]);
        }
        if end > start {
            assert(rest[rest.len() - (n - end) - 1] == s@[end - 1]);
        }
        lemma_trailing_whitespace(rest, (n - end) as nat);
        assert(s@.subrange(start as int, end as int) =~= rest.take(rest.len() - (n - end)));
    }
    s.substring_char(start, end)
}

} // verus!
