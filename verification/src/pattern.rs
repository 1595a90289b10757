//! Regular expressions, as `regex` compiles and matches them.
use regex::Regex;
use vstd::prelude::*;
use crate::text::{has_text, opt_view};

verus! {

#[verifier::external_type_specification]
#[verifier::external_body]
pub struct ExRegex(regex::Regex);

/// A character that has a meaning of its own in a pattern.
pub open spec fn is_meta(c: char) -> bool {
    c == '\\' || c == '.' || c == '+' || c == '*' || c == '?' || c == '(' || c == ')' || c == '|'
        || c == '[' || c == ']' || c == '{' || c == '}' || c == '^' || c == '$' || c == '#' || c
        == '&' || c == '-' || c == '~'
}

/// The pattern for a text as it stands: a backslash before each character that
/// has a meaning of its own.
pub open spec fn escaped_of(text: Seq<char>) -> Seq<char>
    decreases text.len(),
{
    if text.len() == 0 {
        Seq::empty()
    } else if is_meta(text.last()) {
        escaped_of(text.drop_last()).push('\\').push(text.last())
    } else {
        escaped_of(text.drop_last()).push(text.last())
    }
}

/// Calls `regex::escape`: the pattern for a text as it stands.
#[verifier::external_body]
pub(crate) fn escape(text: &str) -> (r: String)
    ensures
        r@ == escaped_of(text@),
{
    regex::escape(text)
}

/// What a pattern compiles to, or the message of the error.
pub uninterp spec fn regex_outcome(pattern: Seq<char>) -> Result<Regex, Seq<char>>;

/// The byte ranges of the matches in a text, one behind the other.
pub uninterp spec fn regex_finds(re: Regex, text: Seq<char>) -> Seq<(usize, usize)>;

/// Calls `Regex::new`, and takes the message of its error. The pattern that
/// `regex::escape` makes of a text matches where that text stands.
#[verifier::external_body]
pub(crate) fn compile(pattern: &str) -> (r: Result<Regex, String>)
    ensures
        match r {
            Ok(re) => regex_outcome(pattern@) == Ok::<Regex, Seq<char>>(re),
            Err(e) => regex_outcome(pattern@) == Err::<Regex, Seq<char>>(e@),
        },
        forall|text: Seq<char>, hay: Seq<char>|
            r is Ok && pattern@ == escaped_of(text) ==> ((#[trigger] regex_finds(
                r->Ok_0,
                hay,
            )).len() > 0) == #[trigger] has_text(hay, text),
{
    regex::Regex::new(pattern).map_err(|e| e.to_string())
}

/// Calls `Regex::find_iter`: the byte range of each match, the leftmost first.
#[verifier::external_body]
pub(crate) fn find_all(re: &Regex, text: &str) -> (r: Vec<(usize, usize)>)
    ensures
        r@ == regex_finds(*re, text@),
{
    re.find_iter(text).map(|m| (m.start(), m.end())).collect()
}

/// Calls `Regex::is_match`: whether there is a match anywhere in the text.
#[verifier::external_body]
pub(crate) fn is_match(re: &Regex, text: &str) -> (r: bool)
    ensures
        r == (regex_finds(*re, text@).len() > 0),
{
    re.is_match(text)
}

/// The text of a group in each match in a text, in their order; nothing where the
/// group took no part in the match.
pub uninterp spec fn regex_captures(re: Regex, text: Seq<char>, group: usize) -> Seq<
    Option<Seq<char>>,
>;

/// The characters of a list of optional strings.
pub open spec fn opt_views(v: Seq<Option<String>>) -> Seq<Option<Seq<char>>> {
    v.map_values(|s: Option<String>| opt_view(s))
}

/// Calls `Regex::captures_iter`, and `Captures::get` on each match. What a group took
/// stands in the text.
#[verifier::external_body]
pub(crate) fn captures(re: &Regex, text: &str, group: usize) -> (r: Vec<Option<String>>)
    ensures
        opt_views(r@) == regex_captures(*re, text@, group),
        forall|i: int|
            0 <= i < r@.len() ==> match #[trigger] r@[i] {
                Some(t) => has_text(text@, t@),
                None => true,
            },
{
    re.captures_iter(text).map(|c| c.get(group).map(|m| m.as_str().to_string())).collect()
}

} // verus!
