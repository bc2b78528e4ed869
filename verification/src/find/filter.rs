//! Which directory entries discovery passes over.

use crate::find::error::PatternError;
use crate::find::pattern::set_compile_outcome;
use crate::find::pattern::set_matches;
use crate::find::pattern::set_sources;
use crate::find::projects::explains;
use crate::find::projects::regex_from_patterns;
use regex::RegexSet;
use vstd::prelude::*;

verus! {

/// One entry of a directory listing, as far as discovery reads it.
#[derive(Debug)]
pub struct Entry {
    /// The entry's own name, the last segment of its path.
    pub name: String,
    /// The entry's path, the listed directory's path included.
    pub path: String,
    /// Whether the entry is a directory.
    pub is_dir: bool,
    /// Whether the entry directly contains the repository marker.
    pub has_marker: bool,
}

/// An [`Entry`] with its texts as sequences of characters.
pub struct EntryView {
    pub name: Seq<char>,
    pub path: Seq<char>,
    pub is_dir: bool,
    pub has_marker: bool,
}

impl View for Entry {
    type V = EntryView;

    open spec fn view(&self) -> EntryView {
        EntryView {
            name: self.name@,
            path: self.path@,
            is_dir: self.is_dir,
            has_marker: self.has_marker,
        }
    }
}

/// A name is hidden when it begins with a dot.
pub open spec fn is_hidden(name: Seq<char>) -> bool {
    name.len() > 0 && name[0] == '.'
}

/// `set` holds a pattern that matches somewhere in `text`. A set without
/// patterns hits nothing.
pub open spec fn set_hits(set: &RegexSet, text: Seq<char>) -> bool {
    set_sources(set).len() > 0 && set_matches(set, text)
}

/// Whether a name is hidden.
pub fn name_is_hidden(name: &str) -> (r: bool)
    ensures
        r == is_hidden(name@),
{
    !name.is_empty() && name.get_char(0) == '.'
}

/// Whether `set` holds a pattern that matches somewhere in `text`.
pub fn hits(set: &RegexSet, text: &str) -> (r: bool)
    ensures
        r == set_hits(set, text@),
{
    set.is_match(text)
}

/// The compiled exclude and include patterns.
pub struct Filters {
    excludes: RegexSet,
    includes: RegexSet,
}

impl Filters {
    /// The compiled exclude patterns.
    pub closed spec fn exclude_set(&self) -> &RegexSet {
        &self.excludes
    }

    /// The compiled include patterns.
    pub closed spec fn include_set(&self) -> &RegexSet {
        &self.includes
    }

    /// Neither list holds a pattern.
    pub open spec fn is_open(&self) -> bool {
        set_sources(self.exclude_set()).len() == 0 && set_sources(self.include_set()).len() == 0
    }

    /// An exclude pattern matches the path and no include pattern does.
    pub open spec fn excluded(&self, path: Seq<char>) -> bool {
        set_hits(self.exclude_set(), path) && !set_hits(self.include_set(), path)
    }

    /// The entry is passed over: its name is hidden, or its path is
    /// excluded.
    pub open spec fn skips(&self, entry: EntryView) -> bool {
        is_hidden(entry.name) || self.excluded(entry.path)
    }

    /// Filters without any pattern: only hidden entries are passed over.
    pub fn new() -> (filters: Filters)
        ensures
            filters.is_open(),
    {
        Filters { excludes: RegexSet::empty(), includes: RegexSet::empty() }
    }

    /// Compiles both pattern lists into filters. This succeeds exactly when
    /// both lists compile. Otherwise the error tells what is wrong with the
    /// exclude list, or, where that one compiles, with the include list.
    pub fn compile(excludes: Vec<String>, includes: Vec<String>) -> (r: Result<
        Filters,
        PatternError,
    >)
        ensures
            r is Ok <==> set_compile_outcome(excludes.deep_view()) is None && set_compile_outcome(
                includes.deep_view(),
            ) is None,
            r matches Ok(filters) ==> set_sources(filters.exclude_set()) == excludes.deep_view()
                && set_sources(filters.include_set()) == includes.deep_view(),
            r matches Err(e) ==> explains(
                e,
                if set_compile_outcome(excludes.deep_view()) is Some {
                    excludes.deep_view()
                } else {
                    includes.deep_view()
                },
            ),
    {
        match regex_from_patterns(excludes) {
            Ok(exclude_set) => match regex_from_patterns(includes) {
                Ok(include_set) => Ok(Filters { excludes: exclude_set, includes: include_set }),
                Err(e) => Err(e),
            },
            Err(e) => Err(e),
        }
    }

    /// The same filters with `excludes` as the exclude patterns.
    pub fn with_excludes(self, excludes: RegexSet) -> (filters: Filters)
        ensures
            *filters.exclude_set() == excludes,
            filters.include_set() == self.include_set(),
    {
        Filters { excludes, includes: self.includes }
    }

    /// The same filters with `includes` as the include patterns.
    pub fn with_includes(self, includes: RegexSet) -> (filters: Filters)
        ensures
            filters.exclude_set() == self.exclude_set(),
            *filters.include_set() == includes,
    {
        Filters { excludes: self.excludes, includes }
    }

    /// Whether discovery passes over `entry`, and with it over everything
    /// beneath it.
    pub fn should_skip(&self, entry: &Entry) -> (r: bool)
        ensures
            r == self.skips(entry@),
    {
        name_is_hidden(entry.name.as_str()) || (hits(&self.excludes, entry.path.as_str()) && !hits(
            &self.includes,
            entry.path.as_str(),
        ))
    }
}

/// An include pattern overrides an exclude pattern: of the entries whose
/// name is not hidden, one that both lists match is kept, one that only the
/// exclude list matches is passed over, and one that the exclude list does
/// not match is kept.
pub proof fn lemma_include_overrides_exclude(filters: Filters, entry: EntryView)
    requires
        !is_hidden(entry.name),
    ensures
        set_hits(filters.exclude_set(), entry.path) && set_hits(filters.include_set(), entry.path)
            ==> !filters.skips(entry),
        set_hits(filters.exclude_set(), entry.path) && !set_hits(filters.include_set(), entry.path)
            ==> filters.skips(entry),
        !set_hits(filters.exclude_set(), entry.path) ==> !filters.skips(entry),
{
}

/// A hidden entry is passed over whatever the patterns say, an include
/// pattern that matches it too.
pub proof fn lemma_hidden_is_skipped(filters: Filters, entry: EntryView)
    requires
        is_hidden(entry.name),
    ensures
        filters.skips(entry),
{
}

/// Without patterns exactly the hidden entries are passed over.
pub proof fn lemma_open_filters_skip_hidden_only(filters: Filters, entry: EntryView)
    requires
        filters.is_open(),
    ensures
        filters.skips(entry) == is_hidden(entry.name),
{
}

} // verus!
