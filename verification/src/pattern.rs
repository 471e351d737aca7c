//! Regular expressions, compiled and run by the `regex` crate.

use vstd::prelude::*;

verus! {

/// `regex::Regex`, a compiled regular expression. Nothing is known of what
/// is inside; it is handed from the compiler to the matcher.
#[verifier::external_type_specification]
#[verifier::external_body]
pub struct ExRegex(regex::Regex);

/// `regex::Error`, the reason why a pattern was refused. Nothing is known of
/// what is inside.
#[verifier::external_type_specification]
#[verifier::external_body]
pub struct ExRegexError(regex::Error);

/// What compiling `pattern` for case-insensitive matching yields: the
/// compiled expression, or nothing where the pattern is no valid expression
/// or compiles to more than the crate's size limit.
pub uninterp spec fn compiled_pattern(pattern: Seq<char>) -> Option<regex::Regex>;

/// Whether the compiled expression `re` matches somewhere in `text`.
pub uninterp spec fn regex_finds(re: regex::Regex, text: Seq<char>) -> bool;

/// Calls `regex::RegexBuilder::build` on a builder for `pattern` on which
/// `case_insensitive(true)` was set and nothing else. Whether the pattern
/// compiles, and to what, depends on the pattern alone.
#[verifier::external_body]
pub(crate) fn compile_pattern(pattern: &str) -> (r: Result<regex::Regex, regex::Error>)
    ensures
        match r {
            Ok(re) => compiled_pattern(pattern@) == Some(re),
            Err(_) => compiled_pattern(pattern@) is None,
        },
{
    regex::RegexBuilder::new(pattern).case_insensitive(true).build()
}

/// Calls `regex::Regex::is_match`: whether the expression matches anywhere
/// in `text`. The answer depends on the expression and the text alone.
#[verifier::external_body]
pub(crate) fn regex_is_match(re: &regex::Regex, text: &str) -> (b: bool)
    ensures
        b == regex_finds(*re, text@),
{
    re.is_match(text)
}

} // verus!
