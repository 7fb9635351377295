//! Text operations on strings, stated over sequences of characters.

use vstd::prelude::*;

verus! {

/// `text` with every occurrence of `from` replaced by `to`, scanning from the
/// left and never looking again at text that was already replaced. An empty
/// `from` matches nothing.
pub open spec fn replace_all(text: Seq<char>, from: Seq<char>, to: Seq<char>) -> Seq<char>
    decreases text.len(),
{
    if from.len() == 0 || text.len() < from.len() {
        text
    } else if from.is_prefix_of(text) {
        to + replace_all(text.skip(from.len() as int), from, to)
    } else {
        seq![text[0]] + replace_all(text.skip(1), from, to)
    }
}

/// Whether `from` occurs somewhere in `text`.
pub open spec fn occurs_in(from: Seq<char>, text: Seq<char>) -> bool {
    exists|i: int| 0 <= i <= text.len() && #[trigger] from.is_prefix_of(text.skip(i))
}

/// The strict lexicographic order on texts, characters compared by code point.
pub open spec fn lex_less(a: Seq<char>, b: Seq<char>) -> bool
    decreases a.len(),
{
    if b.len() == 0 {
        false
    } else if a.len() == 0 {
        true
    } else if a[0] == b[0] {
        lex_less(a.skip(1), b.skip(1))
    } else {
        (a[0] as u32) < (b[0] as u32)
    }
}

/// `text` without its leading run of the character `c`.
pub open spec fn strip_leading(text: Seq<char>, c: char) -> Seq<char>
    decreases text.len(),
{
    if text.len() > 0 && text[0] == c {
        strip_leading(text.skip(1), c)
    } else {
        text
    }
}

/// `text` without its trailing run of the character `c`.
pub open spec fn strip_trailing(text: Seq<char>, c: char) -> Seq<char>
    decreases text.len(),
{
    if text.len() > 0 && text.last() == c {
        strip_trailing(text.drop_last(), c)
    } else {
        text
    }
}

/// `text` with `prefix` removed from its front as often as it stands there.
/// An empty `prefix` removes nothing.
pub open spec fn strip_prefixes(text: Seq<char>, prefix: Seq<char>) -> Seq<char>
    decreases text.len(),
{
    if prefix.len() > 0 && prefix.is_prefix_of(text) {
        strip_prefixes(text.skip(prefix.len() as int), prefix)
    } else {
        text
    }
}

/// `str::replace` with a string pattern: the result is `text` with each match
/// of `from`, found from left to right without overlap, replaced by `to`.
#[verifier::external_body]
pub(crate) fn replace(text: &str, from: &str, to: &str) -> (r: String)
    requires
        from@.len() > 0,
    ensures
        r@ == replace_all(text@, from@, to@),
{
    text.replace(from, to)
}

/// `==` on `str`: whether the two strings hold the same characters.
#[verifier::external_body]
pub(crate) fn equal(a: &str, b: &str) -> (r: bool)
    ensures
        r == (a@ == b@),
{
    a == b
}

/// `<` on `str`: strings are ordered lexicographically by their bytes, which
/// orders them by the code points of their characters.
#[verifier::external_body]
pub(crate) fn less(a: &str, b: &str) -> (r: bool)
    ensures
        r == lex_less(a@, b@),
{
    a < b
}

/// `str::starts_with` with a string pattern: whether `prefix` stands at the
/// front of `text`.
#[verifier::external_body]
pub(crate) fn starts_with(text: &str, prefix: &str) -> (r: bool)
    ensures
        r == prefix@.is_prefix_of(text@),
{
    text.starts_with(prefix)
}

/// `str::trim_start_matches` with a string pattern: the result is the rest of
/// `text` after `prefix` was removed from its front repeatedly.
#[verifier::external_body]
pub(crate) fn trim_start_matches<'a>(text: &'a str, prefix: &str) -> (r: &'a str)
    requires
        prefix@.len() > 0,
    ensures
        r@ == strip_prefixes(text@, prefix@),
{
    text.trim_start_matches(prefix)
}

/// `str::trim_matches` with a character pattern: the result is `text` without
/// the runs of `c` at its front and at its end.
#[verifier::external_body]
pub(crate) fn trim_matches<'a>(text: &'a str, c: char) -> (r: &'a str)
    ensures
        r@ == strip_trailing(strip_leading(text@, c), c),
{
    text.trim_matches(c)
}

} // verus!
