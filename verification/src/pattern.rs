//! Placeholder patterns, matched with the `regex` crate.
//!
//! A scan of a text by a pattern gives the pieces of text between the matches
//! and, for every match, the matched text and its first capture group. The
//! matching itself is the regex crate's; what the library knows of it is
//! stated on the two trusted wrappers below.

use vstd::prelude::*;

verus! {

/// `regex::Error`, the reason a pattern is refused; opaque.
#[verifier::external_type_specification]
#[verifier::external_body]
pub struct ExRegexError(regex::Error);

/// The placeholder syntax `{{ key }}`: the first group is the key, possibly
/// with trailing blanks.
pub const PLACEHOLDER_PATTERN: &'static str = r"\{\{\s*([^\}]+?)\s*\}\}";

/// A placeholder that makes up the whole text.
pub const EXACT_PLACEHOLDER_PATTERN: &'static str = r"^\{\{\s*([^\}]+?)\s*\}\}$";

/// A match: the matched text and the text of its first capture group.
pub type Hit = (Seq<char>, Seq<char>);

/// Whether `regex::Regex::new` accepts `pattern`.
pub uninterp spec fn pattern_compiles(pattern: Seq<char>) -> bool;

/// What `Regex::split` and `Regex::captures_iter` give for `pattern` on
/// `text`: the pieces of text between the matches, and the matches.
pub uninterp spec fn pattern_scan(pattern: Seq<char>, text: Seq<char>) -> (Seq<Seq<char>>, Seq<Hit>);

/// The text put back together from the pieces between matches and the
/// matches, in order.
pub open spec fn rejoin(gaps: Seq<Seq<char>>, hits: Seq<Hit>) -> Seq<char>
    decreases hits.len(),
{
    if hits.len() == 0 || gaps.len() == 0 {
        if gaps.len() > 0 {
            gaps[0]
        } else {
            Seq::empty()
        }
    } else {
        rejoin(gaps.drop_last(), hits.drop_last()) + hits.last().0 + gaps.last()
    }
}

/// The result of scanning a text with a pattern.
pub struct Scan {
    /// The text before the first match, between matches, and after the last.
    pub gaps: Vec<String>,
    /// Each match and its first capture group (empty when the group did not
    /// take part).
    pub hits: Vec<(String, String)>,
}

impl View for Scan {
    type V = (Seq<Seq<char>>, Seq<Hit>);

    open spec fn view(&self) -> (Seq<Seq<char>>, Seq<Hit>) {
        (
            Seq::new(self.gaps@.len(), |i: int| self.gaps@[i]@),
            Seq::new(self.hits@.len(), |i: int| (self.hits@[i].0@, self.hits@[i].1@)),
        )
    }
}

/// Compiles `pattern` with `regex::Regex::new` and reports whether the
/// pattern was accepted.
#[verifier::external_body]
pub(crate) fn regex_check(pattern: &str) -> (r: Result<(), regex::Error>)
    ensures
        r is Ok <==> pattern_compiles(pattern@),
{
    regex::Regex::new(pattern).map(|_| ())
}

/// Compiles `pattern` with `regex::Regex::new` and scans `text` with it:
/// `Regex::split` gives the pieces between matches and `Regex::captures_iter`
/// the matches, left to right and without overlap. What is claimed: the call
/// fails exactly when the pattern is not accepted; otherwise the result is a
/// function of pattern and text, there is one more piece than matches, and
/// pieces and matches in alternation make up the text.
#[verifier::external_body]
pub(crate) fn regex_scan(pattern: &str, text: &str) -> (r: Result<Scan, regex::Error>)
    ensures
        r is Ok <==> pattern_compiles(pattern@),
        r matches Ok(s) ==> s@ == pattern_scan(pattern@, text@),
        r matches Ok(s) ==> s.gaps@.len() == s.hits@.len() + 1,
        r matches Ok(s) ==> rejoin(s@.0, s@.1) == text@,
{
    let re = regex::Regex::new(pattern)?;
    let gaps = re.split(text).map(|g| g.to_string()).collect();
    let hits = re.captures_iter(text).map(|c| {
        (c[0].to_string(), c.get(1).map_or(String::new(), |g| g.as_str().to_string()))
    }).collect();
    Ok(Scan { gaps, hits })
}

} // verus!
