//! Regular-expression matching over bytes, delegated to the `regex` crate.
//!
//! What a regular expression matches takes the crate's whole documentation to
//! state, so it is given names here: the contracts of the library speak of
//! these names applied to the pattern text and the case flag that the
//! expression was built from.

use regex::bytes::Regex;
use vstd::prelude::*;

verus! {

#[verifier::external_type_specification]
#[verifier::external_body]
pub struct ExRegex(Regex);

#[verifier::external_type_specification]
#[verifier::external_body]
pub struct ExRegexError(regex::Error);

/// Whether `regex::bytes::RegexBuilder` accepts `pattern` with Unicode mode
/// off and the given case-insensitivity.
pub uninterp spec fn regex_builds(pattern: Seq<char>, ignore_case: bool) -> bool;

/// `Regex::is_match` of the expression built from `pattern` on `haystack`.
pub uninterp spec fn regex_is_match(pattern: Seq<char>, ignore_case: bool, haystack: Seq<u8>) -> bool;

/// `Regex::find_iter` of the expression built from `pattern` on `haystack`:
/// the successive non-overlapping matches as (start, end) pairs.
pub uninterp spec fn regex_find_all(pattern: Seq<char>, ignore_case: bool, haystack: Seq<u8>) -> Seq<(usize, usize)>;

/// A compiled byte regex together with the pattern text and the case flag it
/// was built from.
pub struct RegexMatcher {
    regex: Regex,
    source: String,
    ignore_case: bool,
}

impl RegexMatcher {
    pub closed spec fn source(&self) -> Seq<char> {
        self.source@
    }

    pub closed spec fn ignore_case(&self) -> bool {
        self.ignore_case
    }

    /// Builds the expression with `RegexBuilder::new(pattern)`,
    /// `.case_insensitive(ignore_case)`, `.unicode(false)` and `.build()`; on
    /// success the pattern text and the flag are kept beside it.
    #[verifier::external_body]
    pub(crate) fn build(pattern: String, ignore_case: bool) -> (r: Result<RegexMatcher, regex::Error>)
        ensures
            r is Ok <==> regex_builds(pattern@, ignore_case),
            r matches Ok(m) ==> m.source() == pattern@ && m.ignore_case() == ignore_case,
    {
        let built = regex::bytes::RegexBuilder::new(&pattern)
            .case_insensitive(ignore_case)
            .unicode(false)
            .build()?;
        Ok(RegexMatcher { regex: built, source: pattern, ignore_case })
    }

    /// `Regex::is_match`.
    #[verifier::external_body]
    pub fn is_match(&self, haystack: &[u8]) -> (r: bool)
        ensures
            r == regex_is_match(self.source(), self.ignore_case(), haystack@),
    {
        self.regex.is_match(haystack)
    }

    /// `Regex::find_iter`, each match given by its start and end: successive
    /// non-overlapping matches, each inside the haystack and starting no
    /// later than it ends.
    #[verifier::external_body]
    pub fn find_all(&self, haystack: &[u8]) -> (r: Vec<core::ops::Range<usize>>)
        ensures
            r@.map_values(|m: core::ops::Range<usize>| (m.start, m.end))
                == regex_find_all(self.source(), self.ignore_case(), haystack@),
            crate::finder::ordered_ranges(crate::finder::ranges_view(r@), haystack@.len() as int),
    {
        self.regex.find_iter(haystack).map(|m| m.start()..m.end()).collect()
    }

    /// The pattern text the expression was built from.
    pub fn as_str(&self) -> (r: &str)
        ensures
            r@ == self.source(),
    {
        self.source.as_str()
    }
}

} // verus!
