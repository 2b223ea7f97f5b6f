//! Name filtering through regular expressions.
//!
//! The engine only ever asks two questions of a pattern: whether it is
//! well-formed, and whether it matches a name.  Both answers depend on the
//! pattern and the text alone, so they are carried by two named results and
//! answered by the `regex` crate behind trusted wrappers.
use vstd::prelude::*;

verus! {

pub uninterp spec fn regex_valid(pat: Seq<char>) -> bool;

pub uninterp spec fn regex_accepts(pat: Seq<char>, text: Seq<char>) -> bool;

/// Relies on `regex::Regex::new`: whether the pattern is a well-formed
/// regular expression, a function of the pattern string alone.
#[verifier::external_body]
pub fn regex_compiles(pat: &str) -> (r: bool)
    ensures
        r == regex_valid(pat@),
{
    regex::Regex::new(pat).is_ok()
}

/// Relies on `regex::Regex::new` and `regex::Regex::is_match`: whether the
/// pattern matches somewhere in the text, a function of the two strings
/// alone.  A pattern that does not compile matches nothing.
#[verifier::external_body]
pub fn regex_matches(pat: &str, text: &str) -> (r: bool)
    ensures
        regex_valid(pat@) ==> r == regex_accepts(pat@, text@),
        !regex_valid(pat@) ==> r == false,
{
    match regex::Regex::new(pat) {
        Ok(re) => re.is_match(text),
        Err(_) => false,
    }
}

/// Whether a name passes an optional filter pattern.  Only a well-formed
/// pattern can pass a name; the view state takes care that only validated
/// patterns are ever installed.
pub open spec fn passes_filter(filter: Option<Seq<char>>, name: Seq<char>) -> bool {
    match filter {
        Some(pat) => regex_valid(pat) && regex_accepts(pat, name),
        None => true,
    }
}

} // verus!
