//! Trusted contracts for the functions of other crates and of `std` that the
//! rules call. Each contract below is believed, not proved; each doc comment
//! says what it claims of the function it wraps.
use vstd::prelude::*;

verus! {

/// The text that `str::to_lowercase` returns for `s`.
pub uninterp spec fn lowercase(s: Seq<char>) -> Seq<char>;

/// An ASCII text with `A`..`Z` mapped to `a`..`z`.
pub open spec fn ascii_lowercase(s: Seq<char>) -> Seq<char> {
    s.map_values(|c: char| if 'A' <= c <= 'Z' { ((c as u32) + 32) as char } else { c })
}

/// `str::to_lowercase`: the claim is that the result is a function of the
/// input text (the Unicode lowercase mapping, per the `std` documentation),
/// and that on ASCII text it maps `A`..`Z` to `a`..`z` and keeps every other
/// character, as that mapping does for ASCII.
#[verifier::external_body]
pub(crate) fn to_lowercase(s: &str) -> (r: String)
    ensures
        r@ == lowercase(s@),
        (forall|i: int| 0 <= i < s@.len() ==> (s@[i] as u32) < 128) ==> r@ == ascii_lowercase(s@),
{
    s.to_lowercase()
}

/// `result` is a text that `pluralizer::pluralize(word, count,
/// include_count)` returned. This is a relation, not a function: the crate's
/// rule tables are global and can be extended from any thread
/// (`add_irregular_rule` and its kin), so the same arguments may give
/// different texts at different times.
pub uninterp spec fn pluralized(word: Seq<char>, count: int, include_count: bool, result: Seq<char>) -> bool;

/// `pluralizer::pluralize`: the claim is only that the result is one that
/// the function gave for these arguments; nothing ties two calls together.
#[verifier::external_body]
pub(crate) fn pluralize(word: &str, count: isize, include_count: bool) -> (r: String)
    ensures
        pluralized(word@, count as int, include_count, r@),
{
    pluralizer::pluralize(word, count, include_count)
}

pub open spec fn min3(a: nat, b: nat, c: nat) -> nat {
    if a <= b && a <= c {
        a
    } else if b <= c {
        b
    } else {
        c
    }
}

/// The Levenshtein distance: the fewest single-character insertions,
/// deletions and substitutions that turn `a` into `b`.
pub open spec fn edit_distance(a: Seq<char>, b: Seq<char>) -> nat
    decreases a.len() + b.len(),
{
    if a.len() == 0 {
        b.len()
    } else if b.len() == 0 {
        a.len()
    } else {
        min3(
            edit_distance(a.drop_last(), b) + 1,
            edit_distance(a, b.drop_last()) + 1,
            edit_distance(a.drop_last(), b.drop_last()) + if a.last() == b.last() {
                0nat
            } else {
                1nat
            },
        )
    }
}

/// `strsim::levenshtein`: the claim is that it returns the Levenshtein
/// distance between the character sequences of its arguments, as the crate
/// documents.
#[verifier::external_body]
pub(crate) fn levenshtein(a: &str, b: &str) -> (r: usize)
    ensures
        r == edit_distance(a@, b@),
{
    strsim::levenshtein(a, b)
}

/// The texts of the successive non-overlapping matches of the regular
/// expression `pattern` in `text`, or `None` when `pattern` does not compile.
pub uninterp spec fn regex_matches(pattern: Seq<char>, text: Seq<char>) -> Option<Seq<Seq<char>>>;

/// `regex::Regex::new(pattern)` and `Regex::find_iter(text)`: the claim is
/// only that the matched texts are a function of the pattern and the text.
#[verifier::external_body]
pub(crate) fn regex_find_all(pattern: &str, text: &str) -> (r: Option<Vec<String>>)
    ensures
        r.deep_view() == regex_matches(pattern@, text@),
{
    match regex::Regex::new(pattern) {
        Ok(re) => Some(re.find_iter(text).map(|m| m.as_str().to_owned()).collect()),
        Err(_) => None,
    }
}

} // verus!
