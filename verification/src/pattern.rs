//! Regular expressions, through the `regex` crate.

use vstd::prelude::*;

verus! {

/// The message that `regex::Regex::new` reports for a pattern it rejects,
/// `None` for a pattern it accepts.
pub uninterp spec fn regex_compile_error(pattern: Seq<char>) -> Option<Seq<char>>;

/// Whether the regular expression `pattern` (which compiles) matches
/// somewhere in `text`, as `regex::Regex::is_match` decides.
pub uninterp spec fn regex_match(pattern: Seq<char>, text: Seq<char>) -> bool;

/// Compiles `pattern` with `regex::Regex::new` and reports its error
/// message, if any; the compiled regex is dropped. The contract claims only
/// that the outcome is a function of the pattern, named above.
#[verifier::external_body]
pub fn regex_check(pattern: &str) -> (r: Option<String>)
    ensures
        match r {
            None => regex_compile_error(pattern@) is None,
            Some(m) => regex_compile_error(pattern@) == Some(m@),
        },
{
    match regex::Regex::new(pattern) {
        Ok(_) => None,
        Err(e) => Some(format!("{}", e)),
    }
}

/// Compiles `pattern` with `regex::Regex::new` and asks
/// `regex::Regex::is_match` whether it matches somewhere in `text`. The
/// contract claims only that the answer is a function of the two strings.
#[verifier::external_body]
pub fn regex_is_match(pattern: &str, text: &str) -> (b: bool)
    requires
        regex_compile_error(pattern@) is None,
    ensures
        b == regex_match(pattern@, text@),
{
    match regex::Regex::new(pattern) {
        Ok(re) => re.is_match(text),
        Err(_) => false,
    }
}

} // verus!
