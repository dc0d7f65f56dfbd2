//! Compiled regular expressions: the calls into the `regex` crate.
//!
//! A `CompiledPattern` can only be made by `compile_pattern`, which compiles
//! the pattern text that it then keeps beside the compiled regex. Its fields
//! are private to this module, so the regex inside is always the one
//! compiled from the text that its view reports.

use vstd::prelude::*;
use regex::Regex;

verus! {

#[verifier::external_type_specification]
#[verifier::external_body]
pub struct ExRegex(Regex);

/// `regex::Regex::clone`, which copies a compiled regex; nothing is claimed
/// of the copy, since a regex is opaque here.
pub assume_specification[ <Regex as Clone>::clone ](r: &Regex) -> Regex;

/// What `regex::Regex::new` reports for a pattern: `None` when the pattern
/// compiles, else the text of the error it returns (a syntax error, or the
/// compiled program exceeding the default size limit). Whether that limit is
/// exceeded depends on the size of the compiled states, and so on the
/// target's pointer width; it is fixed for a given build.
pub uninterp spec fn regex_error(pattern: Seq<char>) -> Option<Seq<char>>;

/// The text that `regex::Regex::replace` gives back for the regex compiled
/// from `pattern`, the haystack and the replacement template: the first
/// match replaced by the expanded template.
pub uninterp spec fn regex_replace_first(
    pattern: Seq<char>,
    haystack: Seq<char>,
    template: Seq<char>,
) -> Seq<char>;

/// The text that `regex::Regex::replace_all` gives back for the regex
/// compiled from `pattern`, the haystack and the replacement template: every
/// non-overlapping match replaced by the expanded template.
pub uninterp spec fn regex_replace_all(
    pattern: Seq<char>,
    haystack: Seq<char>,
    template: Seq<char>,
) -> Seq<char>;

/// A regex together with the pattern text it was compiled from.
#[derive(Debug)]
pub struct CompiledPattern {
    regex: Regex,
    source: String,
}

impl View for CompiledPattern {
    type V = Seq<char>;

    /// The pattern text that the regex was compiled from.
    closed spec fn view(&self) -> Seq<char> {
        self.source@
    }
}

impl Clone for CompiledPattern {
    fn clone(&self) -> (r: Self)
        ensures
            r@ == self@,
    {
        CompiledPattern { regex: self.regex.clone(), source: self.source.clone() }
    }
}

/// Calls `regex::Regex::new` on `source`. Claimed: on success the result
/// holds that regex and `source`, and `regex_error(source)` is `None`; on
/// failure the error's text is `regex_error(source)`.
#[verifier::external_body]
pub(crate) fn compile_pattern(source: &str) -> (r: Result<CompiledPattern, String>)
    ensures
        match r {
            Ok(p) => p@ == source@ && regex_error(source@) is None,
            Err(m) => regex_error(source@) == Some(m@),
        },
{
    match Regex::new(source) {
        Ok(regex) => Ok(CompiledPattern { regex, source: source.to_string() }),
        Err(e) => Err(e.to_string()),
    }
}

/// Calls `regex::Regex::replace` with the template as the replacer. Claimed:
/// the text returned is `regex_replace_first` of the pattern text, the
/// haystack and the template.
#[verifier::external_body]
pub(crate) fn replace_first(p: &CompiledPattern, haystack: &str, template: &str) -> (r: String)
    ensures
        r@ == regex_replace_first(p@, haystack@, template@),
{
    p.regex.replace(haystack, template).into_owned()
}

/// Calls `regex::Regex::replace_all` with the template as the replacer.
/// Claimed: the text returned is `regex_replace_all` of the pattern text, the
/// haystack and the template.
#[verifier::external_body]
pub(crate) fn replace_all(p: &CompiledPattern, haystack: &str, template: &str) -> (r: String)
    ensures
        r@ == regex_replace_all(p@, haystack@, template@),
{
    p.regex.replace_all(haystack, template).into_owned()
}

} // verus!
