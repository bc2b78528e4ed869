//! The boundary with the `regex` crate.
//!
//! Compiled expressions are opaque to the verifier. What they do is named
//! here by uninterpreted functions, and the items below tie each call into
//! the crate to its name. Nothing in this file is proved: the contracts
//! restate what the crate documents.

use regex::Regex;
use regex::RegexSet;
use vstd::prelude::*;
use vstd::utf8::encode_utf8;
use vstd::utf8::is_char_boundary;

verus! {

#[verifier::external_type_specification]
#[verifier::external_body]
pub struct ExRegex(regex::Regex);

#[verifier::external_type_specification]
#[verifier::external_body]
pub struct ExRegexSet(regex::RegexSet);

/// What compiling `pattern` alone with `Regex::new` gives: `None` when it
/// compiles, otherwise the text of the error.
pub uninterp spec fn regex_compile_outcome(pattern: Seq<char>) -> Option<Seq<char>>;

/// The pattern text that `re` was compiled from (`Regex::as_str`).
pub uninterp spec fn regex_source(re: &Regex) -> Seq<char>;

/// Whether `re` matches anywhere in `text` (`Regex::is_match`).
pub uninterp spec fn regex_matches(re: &Regex, text: Seq<char>) -> bool;

/// The byte offset at which the last of the successive non-overlapping
/// matches of `re` in `text` ends, if there is any match.
pub uninterp spec fn regex_last_match_end(re: &Regex, text: Seq<char>) -> Option<usize>;

/// What compiling `patterns` together with `RegexSet::new` gives: `None`
/// when the set compiles, otherwise the text of the error.
pub uninterp spec fn set_compile_outcome(patterns: Seq<Seq<char>>) -> Option<Seq<char>>;

/// The patterns that `set` holds, in the order given to its constructor
/// (`RegexSet::patterns`).
pub uninterp spec fn set_sources(set: &RegexSet) -> Seq<Seq<char>>;

/// Whether at least one pattern of `set` matches anywhere in `text`
/// (`RegexSet::is_match`).
pub uninterp spec fn set_matches(set: &RegexSet, text: Seq<char>) -> bool;

/// `Regex::is_match`: the answer is the one named by [`regex_matches`].
pub assume_specification[ Regex::is_match ](re: &Regex, haystack: &str) -> (found: bool)
    ensures
        found == regex_matches(re, haystack@),
;

/// `RegexSet::is_match`: the answer is the one named by [`set_matches`], and
/// a set without patterns matches nothing.
pub assume_specification[ RegexSet::is_match ](set: &RegexSet, haystack: &str) -> (found: bool)
    ensures
        found == set_matches(set, haystack@),
        set_sources(set).len() == 0 ==> !found,
;

/// `RegexSet::empty`: a set that holds no pattern.
pub assume_specification[ RegexSet::empty ]() -> (set: RegexSet)
    ensures
        set_sources(&set) == Seq::<Seq<char>>::empty(),
;

/// `Regex::new`: succeeds exactly when the pattern compiles, with an
/// expression built from that pattern; a failure is handed back as the
/// error's text.
#[verifier::external_body]
pub(crate) fn compile_regex(pattern: &str) -> (r: Result<Regex, String>)
    ensures
        r is Ok <==> regex_compile_outcome(pattern@) is None,
        r matches Ok(re) ==> regex_source(&re) == pattern@,
        r matches Err(message) ==> regex_compile_outcome(pattern@) == Some(message@),
{
    match Regex::new(pattern) {
        Ok(re) => Ok(re),
        Err(e) => Err(e.to_string()),
    }
}

/// `RegexSet::new`: succeeds exactly when the patterns compile together,
/// with a set that holds them in order; a failure is handed back as the
/// error's text.
#[verifier::external_body]
pub(crate) fn compile_set(patterns: &Vec<String>) -> (r: Result<RegexSet, String>)
    ensures
        r is Ok <==> set_compile_outcome(patterns.deep_view()) is None,
        r matches Ok(set) ==> set_sources(&set) == patterns.deep_view(),
        r matches Err(message) ==> set_compile_outcome(patterns.deep_view()) == Some(message@),
{
    match RegexSet::new(patterns) {
        Ok(set) => Ok(set),
        Err(e) => Err(e.to_string()),
    }
}

/// `Regex::find_iter`, taken to its last match: the end offset of that
/// match, counted in bytes of the text's UTF-8 form. The offset falls
/// between two characters or at an end of the text.
#[verifier::external_body]
pub(crate) fn last_match_end(re: &Regex, text: &str) -> (r: Option<usize>)
    ensures
        r == regex_last_match_end(re, text@),
        r matches Some(end) ==> is_char_boundary(encode_utf8(text@), end as int),
{
    re.find_iter(text).last().map(|m| m.end())
}

} // verus!
