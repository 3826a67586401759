//! Matching text against regular expressions of the `regex` crate.

use vstd::prelude::*;

use crate::text;

verus! {

/// Whether any of `patterns`, regular expressions of the `regex` crate, matches
/// in `text`; nothing where one of them is not a regular expression.
pub uninterp spec fn any_pattern_matches(patterns: Seq<Seq<char>>, text: Seq<char>) -> Option<bool>;

/// `regex::RegexSet::new` and `RegexSet::is_match`: whether any of the patterns
/// matches in the text, or `None` where the set does not compile. What a pattern
/// matches is left to the `regex` crate: the result is only named.
#[verifier::external_body]
pub(crate) fn matches_any(patterns: &Vec<String>, text: &str) -> (r: Option<bool>)
    ensures
        r == any_pattern_matches(text::views(patterns@), text@),
{
    regex::RegexSet::new(patterns).ok().map(|set| set.is_match(text))
}

/// Whether a character is a decimal digit of any script.
pub open spec fn decimal_digit(c: char) -> bool {
    text::is_digit(c) || (c as u32 > 127 && any_pattern_matches(
        seq![r"^\d$"@],
        seq![c],
    ) == Some(true))
}

/// Whether a character is a decimal digit of any script.
pub fn is_decimal_digit(c: char) -> (r: bool)
    ensures
        r == decimal_digit(c),
{
    if '0' <= c && c <= '9' {
        return true;
    }
    if c as u32 <= 127 {
        return false;
    }
    let mut patterns: Vec<String> = Vec::new();
    patterns.push(r"^\d$".to_owned());
    assert(text::views(patterns@) == seq![r"^\d$"@]);
    let mut one: String = String::new();
    one.push(c);
    assert(one@ == seq![c]);
    match matches_any(&patterns, one.as_str()) {
        Some(m) => m,
        None => false,
    }
}

} // verus!
