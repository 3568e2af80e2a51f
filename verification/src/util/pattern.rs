//! Regular expressions from the `regex` crate, each kept beside the pattern
//! it was compiled from, so that what a match gives can be named after that
//! pattern.
use vstd::prelude::*;
use regex::Regex;

verus! {

#[verifier::external_type_specification]
#[verifier::external_body]
pub struct ExRegex(Regex);

#[verifier::external_type_specification]
#[verifier::external_body]
pub struct ExRegexError(regex::Error);

/// Whether `regex::Regex::new` accepts the pattern.
pub uninterp spec fn regex_compiles(pattern: Seq<char>) -> bool;

/// Whether the regular expression `pattern` matches somewhere in `haystack`,
/// as `regex::Regex::is_match` decides it.
pub uninterp spec fn regex_is_match(pattern: Seq<char>, haystack: Seq<char>) -> bool;

/// A regular expression together with the pattern it was compiled from. Its
/// fields are private to this module, which holds no code but the two calls
/// into `regex` below, so `compile_pattern` is the only place one is built
/// and `source` is always the pattern that `regex` was compiled from.
pub struct CompiledPattern {
    regex: Regex,
    source: String,
}

impl CompiledPattern {
    pub closed spec fn source(&self) -> Seq<char> {
        self.source@
    }
}

/// Compiles `pattern` with `regex::Regex::new`, keeping the pattern beside the
/// compiled expression. Whether the pattern is accepted is named, not stated.
#[verifier::external_body]
pub(crate) fn compile_pattern(pattern: &str) -> (r: Result<CompiledPattern, regex::Error>)
    ensures
        r is Ok <==> regex_compiles(pattern@),
        r matches Ok(p) ==> p.source() == pattern@,
{
    match Regex::new(pattern) {
        Ok(regex) => Ok(CompiledPattern { regex, source: pattern.to_string() }),
        Err(e) => Err(e),
    }
}

/// Whether the compiled expression matches somewhere in `haystack`, from
/// `regex::Regex::is_match`; the result is named after the pattern the
/// expression was compiled from.
#[verifier::external_body]
pub(crate) fn pattern_is_match(p: &CompiledPattern, haystack: &str) -> (r: bool)
    ensures
        r == regex_is_match(p.source(), haystack@),
{
    p.regex.is_match(haystack)
}

} // verus!
