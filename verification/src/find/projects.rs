//! The discovery engine: a pull-driven walk over directory trees that
//! yields the repositories beneath a set of roots.
//!
//! The engine never touches the file system. It keeps a frontier of
//! directories still to be read and tells its caller what to do next: hand
//! a repository on, list a directory, or query a repository's state. The
//! caller does so and reports back. A directory that holds the repository
//! marker is a match and is never read; a directory without it joins the
//! frontier.

use crate::find::config::Config;
use crate::find::error::PatternError;
use crate::find::filter::is_hidden;
use crate::find::filter::set_hits;
use crate::find::filter::Entry;
use crate::find::filter::EntryView;
use crate::find::filter::Filters;
use crate::find::git::dirty_verdict;
use crate::find::git::repo_is_dirty;
use crate::find::git::ProbeError;
use crate::find::git::RepoStatus;
use crate::find::pattern::compile_regex;
use crate::find::pattern::compile_set;
use crate::find::pattern::regex_compile_outcome;
use crate::find::pattern::set_compile_outcome;
use crate::find::pattern::set_sources;
use regex::RegexSet;
use vstd::prelude::*;

verus! {

/// `i` is the position of the first pattern that does not compile alone.
pub open spec fn first_invalid(patterns: Seq<Seq<char>>, i: int) -> bool {
    &&& 0 <= i < patterns.len()
    &&& regex_compile_outcome(patterns[i]) is Some
    &&& forall|j: int| 0 <= j < i ==> regex_compile_outcome(#[trigger] patterns[j]) is None
}

/// Every pattern compiles alone.
pub open spec fn all_valid(patterns: Seq<Seq<char>>) -> bool {
    forall|j: int| 0 <= j < patterns.len() ==> regex_compile_outcome(#[trigger] patterns[j]) is None
}

/// `e` is the error owed for `patterns`, a list that does not compile: it
/// names the first pattern that is invalid alone, with what the compiler
/// said of it; where there is none, it holds what the compiler said of the
/// whole list.
pub open spec fn explains(e: PatternError, patterns: Seq<Seq<char>>) -> bool {
    &&& set_compile_outcome(patterns) is Some
    &&& match e {
        PatternError::Invalid { pattern, reason } => exists|i: int|
            first_invalid(patterns, i) && pattern@ == patterns[i] && regex_compile_outcome(
                patterns[i],
            ) == Some(reason@),
        PatternError::Unbuildable { reason } => all_valid(patterns) && set_compile_outcome(patterns)
            == Some(reason@),
    }
}

/// Combines the patterns into a single matcher that matches where any of
/// them does. A list that does not compile is an error, see [`explains`].
pub fn regex_from_patterns(patterns: Vec<String>) -> (r: Result<RegexSet, PatternError>)
    ensures
        r is Ok <==> set_compile_outcome(patterns.deep_view()) is None,
        r matches Ok(set) ==> set_sources(&set) == patterns.deep_view(),
        r matches Err(e) ==> explains(e, patterns.deep_view()),
{
    match compile_set(&patterns) {
        Ok(set) => Ok(set),
        Err(set_reason) => {
            let mut k: usize = 0;
            while k < patterns.len()
                invariant
                    k <= patterns.len(),
                    set_compile_outcome(patterns.deep_view()) == Some(set_reason@),
                    forall|j: int|
                        0 <= j < k ==> regex_compile_outcome(#[trigger] patterns.deep_view()[j])
                            is None,
                decreases patterns.len() - k,
            {
                match compile_regex(patterns[k].as_str()) {
                    Ok(_) => {},
                    Err(reason) => {
                        let pattern = patterns[k].clone();
                        assert(first_invalid(patterns.deep_view(), k as int));
                        return Err(PatternError::Invalid { pattern, reason });
                    },
                }
                k += 1;
            }
            Err(PatternError::Unbuildable { reason: set_reason })
        },
    }
}

/// What kind of failure the operating system reported.
#[derive(Debug, Clone, Copy, PartialEq, Eq, Structural)]
pub enum IoKind {
    /// The entry was not found: it vanished during the walk.
    NotFound,
    /// Access to the entry was denied.
    PermissionDenied,
    /// Any other failure.
    Other,
}

/// A failure to read a directory or one of its entries.
#[derive(Debug)]
pub struct TraversalError {
    /// The path that could not be read.
    pub path: String,
    /// Whether that path is a plain file: the walk tried to descend into
    /// something that is no directory.
    pub path_is_file: bool,
    /// The failure that the operating system reported, if it was one.
    pub kind: Option<IoKind>,
}

/// A failure over which the walk goes on: a descent into a plain file, a
/// vanished entry, or denied access.
pub open spec fn is_skippable(path_is_file: bool, kind: Option<IoKind>) -> bool {
    path_is_file || kind == Some(IoKind::NotFound) || kind == Some(IoKind::PermissionDenied)
}

/// Whether the walk goes on over this failure. Any other failure ends it.
pub fn skippable_err(e: &TraversalError) -> (r: bool)
    ensures
        r == is_skippable(e.path_is_file, e.kind),
{
    if e.path_is_file {
        return true;
    }
    match e.kind {
        Some(IoKind::NotFound) => true,
        Some(IoKind::PermissionDenied) => true,
        _ => false,
    }
}

/// The name of the folder that marks a directory as a repository.
pub fn marker() -> (name: &'static str)
    ensures
        name@ == ".git"@,
{
    ".git"
}

/// What becomes of one entry of a listing.
#[derive(Debug, Clone, Copy, PartialEq, Eq, Structural)]
pub enum Verdict {
    /// Passed over by the filters, with everything beneath it.
    Skipped,
    /// Not a directory: nothing to do.
    Ignored,
    /// A repository: it is yielded, and never read.
    Matched,
    /// A repository whose state has to be queried before it is yielded or
    /// dropped. It is never read either.
    Unprobed,
    /// A directory without the marker: it joins the frontier.
    Descend,
}

/// What becomes of `entry` under the given filters and mode. The filters
/// come first, so a repository that they pass over is not yielded.
pub open spec fn verdict(filters: Filters, dirty_only: bool, entry: EntryView) -> Verdict {
    if filters.skips(entry) {
        Verdict::Skipped
    } else if !entry.is_dir {
        Verdict::Ignored
    } else if entry.has_marker {
        if dirty_only {
            Verdict::Unprobed
        } else {
            Verdict::Matched
        }
    } else {
        Verdict::Descend
    }
}

/// The entries as the contracts see them.
pub open spec fn entry_views(entries: Seq<Entry>) -> Seq<EntryView> {
    entries.map_values(|e: Entry| e@)
}

/// The paths of the entries that get the verdict `want`, in listing order.
pub open spec fn selected(
    filters: Filters,
    dirty_only: bool,
    entries: Seq<EntryView>,
    want: Verdict,
) -> Seq<Seq<char>> {
    entries.filter(|e: EntryView| verdict(filters, dirty_only, e) == want).map_values(
        |e: EntryView| e.path,
    )
}

/// The roots of a walk: those given, or the current directory when none is
/// given.
pub open spec fn roots_or_default(code_dirs: Seq<Seq<char>>) -> Seq<Seq<char>> {
    if code_dirs.len() == 0 {
        seq!["."@]
    } else {
        code_dirs
    }
}

/// What the engine asks of its caller.
#[derive(Debug)]
pub enum Step {
    /// A repository: hand it to the consumer.
    Project(String),
    /// A repository whose state is wanted: run the status queries in it and
    /// answer with [`Finder::record_probe`].
    Probe(String),
    /// A directory to list: answer with [`Finder::record_listing`], or with
    /// [`Finder::record_failure`] when it cannot be read.
    Read(String),
    /// Nothing is left. Every later step is `Done` too.
    Done,
}

/// Where the engine stands, judged by what it holds. Between a request and
/// its answer the engine does not hold what it asked for.
#[derive(Debug, Clone, Copy, PartialEq, Eq, Structural)]
pub enum Phase {
    /// No root is being searched: the frontier holds nothing but roots
    /// that are still to be read.
    AwaitingRoot,
    /// A root is being searched: directories beneath it are still to be
    /// read, or repositories beneath it are still to be asked about.
    Walking,
    /// There are repositories found and not yet handed out.
    Draining,
    /// Nothing is left: unless an answer brings something in, every
    /// further step is `Done`.
    Exhausted,
}

/// The state of a [`Finder`], as the contracts see it. Each list is a
/// stack: its last element is taken first.
pub struct FinderView {
    /// Whether only dirty repositories are yielded.
    pub dirty_only: bool,
    /// The frontier: directories still to be read.
    pub candidates: Seq<Seq<char>>,
    /// How many of the frontier's first directories are roots that were
    /// not read yet. What was found beneath a root lies after them, and is
    /// read before the next root is.
    pub roots_left: nat,
    /// Repositories whose state is still to be queried.
    pub unprobed: Seq<Seq<char>>,
    /// Repositories found and not yet handed out.
    pub matches: Seq<Seq<char>>,
}

impl FinderView {
    /// Where an engine in this state stands.
    pub open spec fn phase(self) -> Phase {
        if self.matches.len() > 0 {
            Phase::Draining
        } else if self.unprobed.len() > 0 || self.candidates.len() > self.roots_left {
            Phase::Walking
        } else if self.candidates.len() > 0 {
            Phase::AwaitingRoot
        } else {
            Phase::Exhausted
        }
    }

    /// The roots that were not read yet are part of the frontier. This
    /// holds of a new engine, and every step keeps it.
    pub open spec fn roots_in_frontier(self) -> bool {
        self.roots_left <= self.candidates.len()
    }

    /// Nothing is left to hand out, to ask about or to read.
    pub open spec fn is_empty(self) -> bool {
        self.matches.len() == 0 && self.unprobed.len() == 0 && self.candidates.len() == 0
    }

    /// The state after the latest repository found was handed out.
    pub open spec fn handed_out(self) -> FinderView
        recommends
            self.matches.len() > 0,
    {
        FinderView { matches: self.matches.drop_last(), ..self }
    }

    /// The state after the engine asked for the state of the repository
    /// found last among those still unasked.
    pub open spec fn asked_to_probe(self) -> FinderView
        recommends
            self.unprobed.len() > 0,
    {
        FinderView { unprobed: self.unprobed.drop_last(), ..self }
    }

    /// The state after the engine asked for the last directory of its
    /// frontier. Where the frontier held nothing but roots, one root less
    /// is left.
    pub open spec fn asked_to_read(self) -> FinderView
        recommends
            self.candidates.len() > 0,
    {
        FinderView {
            candidates: self.candidates.drop_last(),
            roots_left: if self.roots_left < self.candidates.len() {
                self.roots_left
            } else {
                (self.candidates.len() - 1) as nat
            },
            ..self
        }
    }

    /// The state after a listing was taken in: each entry's path joins the
    /// list that its verdict names, in listing order.
    pub open spec fn listed(self, filters: Filters, entries: Seq<EntryView>) -> FinderView {
        FinderView {
            dirty_only: self.dirty_only,
            candidates: self.candidates + selected(
                filters,
                self.dirty_only,
                entries,
                Verdict::Descend,
            ),
            roots_left: self.roots_left,
            unprobed: self.unprobed + selected(filters, self.dirty_only, entries, Verdict::Unprobed),
            matches: self.matches + selected(filters, self.dirty_only, entries, Verdict::Matched),
        }
    }

    /// The state after the status of the repository at `path` was taken in:
    /// a dirty one is to be handed out, a clean one is dropped, and a query
    /// that could not be run ends the walk.
    pub open spec fn probed(self, path: Seq<char>, status: RepoStatus) -> FinderView {
        match dirty_verdict(status) {
            Ok(true) => FinderView { matches: self.matches.push(path), ..self },
            Ok(false) => self,
            Err(_) => self.abandoned(),
        }
    }

    /// The state after a walk was given up: nothing is left.
    pub open spec fn abandoned(self) -> FinderView {
        FinderView {
            dirty_only: self.dirty_only,
            candidates: Seq::empty(),
            roots_left: 0,
            unprobed: Seq::empty(),
            matches: Seq::empty(),
        }
    }
}

/// The discovery engine.
pub struct Finder {
    filters: Filters,
    dirty_only: bool,
    candidates: Vec<String>,
    roots_left: usize,
    unprobed: Vec<String>,
    matches: Vec<String>,
}

impl View for Finder {
    type V = FinderView;

    closed spec fn view(&self) -> FinderView {
        FinderView {
            dirty_only: self.dirty_only,
            candidates: self.candidates.deep_view(),
            roots_left: self.roots_left as nat,
            unprobed: self.unprobed.deep_view(),
            matches: self.matches.deep_view(),
        }
    }
}

impl Finder {

    /// The filters that the engine applies.
    pub closed spec fn filters(&self) -> Filters {
        self.filters
    }

    /// An engine over the given roots, or over the current directory when
    /// none is given. It has no patterns and yields every repository.
    pub fn new(code_dirs: Vec<String>) -> (finder: Finder)
        ensures
            finder.filters().is_open(),
            finder@ == (FinderView {
                dirty_only: false,
                candidates: roots_or_default(code_dirs.deep_view()),
                roots_left: roots_or_default(code_dirs.deep_view()).len(),
                unprobed: Seq::empty(),
                matches: Seq::empty(),
            }),
    {
        let mut candidates = code_dirs;
        if candidates.len() == 0 {
            candidates.push(".".to_owned());
        }
        let roots_left = candidates.len();
        let finder = Finder {
            filters: Filters::new(),
            dirty_only: false,
            candidates,
            roots_left,
            unprobed: Vec::new(),
            matches: Vec::new(),
        };
        assert(finder@.candidates =~= roots_or_default(code_dirs.deep_view()));
        assert(finder@.unprobed =~= Seq::empty());
        assert(finder@.matches =~= Seq::empty());
        finder
    }

    /// The same engine with `excludes` as its exclude patterns.
    pub fn with_excludes(self, excludes: RegexSet) -> (finder: Finder)
        ensures
            finder@ == self@,
            *finder.filters().exclude_set() == excludes,
            finder.filters().include_set() == self.filters().include_set(),
    {
        Finder {
            filters: self.filters.with_excludes(excludes),
            dirty_only: self.dirty_only,
            candidates: self.candidates,
            roots_left: self.roots_left,
            unprobed: self.unprobed,
            matches: self.matches,
        }
    }

    /// The same engine with `includes` as its include patterns.
    pub fn with_includes(self, includes: RegexSet) -> (finder: Finder)
        ensures
            finder@ == self@,
            finder.filters().exclude_set() == self.filters().exclude_set(),
            *finder.filters().include_set() == includes,
    {
        Finder {
            filters: self.filters.with_includes(includes),
            dirty_only: self.dirty_only,
            candidates: self.candidates,
            roots_left: self.roots_left,
            unprobed: self.unprobed,
            matches: self.matches,
        }
    }

    /// The same engine, yielding only dirty repositories if `only_dirty`
    /// is set, and every repository if not.
    pub fn with_dirty_only(self, only_dirty: bool) -> (finder: Finder)
        ensures
            finder@ == (FinderView { dirty_only: only_dirty, ..self@ }),
            finder.filters() == self.filters(),
    {
        Finder {
            filters: self.filters,
            dirty_only: only_dirty,
            candidates: self.candidates,
            roots_left: self.roots_left,
            unprobed: self.unprobed,
            matches: self.matches,
        }
    }

    /// An engine for a configuration: its roots, and its pattern lists
    /// compiled, a missing list counting as an empty one. Where a list does
    /// not compile there is no engine, and the error tells what is wrong
    /// with the exclude list, or, where that one compiles, with the include
    /// list.
    pub fn from_config(cfg: Config) -> (r: Result<Finder, PatternError>)
        ensures
            r is Ok <==> set_compile_outcome(listed(cfg.excludes)) is None && set_compile_outcome(
                listed(cfg.includes),
            ) is None,
            r matches Ok(finder) ==> {
                &&& finder@ == (FinderView {
                    dirty_only: false,
                    candidates: roots_or_default(cfg.code_dirs.deep_view()),
                    roots_left: roots_or_default(cfg.code_dirs.deep_view()).len(),
                    unprobed: Seq::empty(),
                    matches: Seq::empty(),
                })
                &&& set_sources(finder.filters().exclude_set()) == listed(cfg.excludes)
                &&& set_sources(finder.filters().include_set()) == listed(cfg.includes)
            },
            r matches Err(e) ==> explains(
                e,
                if set_compile_outcome(listed(cfg.excludes)) is Some {
                    listed(cfg.excludes)
                } else {
                    listed(cfg.includes)
                },
            ),
    {
        let Config { code_dirs, excludes, includes } = cfg;
        let excludes = match excludes {
            Some(patterns) => patterns,
            None => Vec::new(),
        };
        let includes = match includes {
            Some(patterns) => patterns,
            None => Vec::new(),
        };
        assert(excludes.deep_view() =~= listed(cfg.excludes));
        assert(includes.deep_view() =~= listed(cfg.includes));
        match Filters::compile(excludes, includes) {
            Ok(filters) => {
                let base = Finder::new(code_dirs);
                Ok(
                    Finder {
                        filters,
                        dirty_only: base.dirty_only,
                        candidates: base.candidates,
                        roots_left: base.roots_left,
                        unprobed: base.unprobed,
                        matches: base.matches,
                    },
                )
            },
            Err(e) => Err(e),
        }
    }

    /// Whether only dirty repositories are yielded.
    pub fn dirty_only(&self) -> (r: bool)
        ensures
            r == self@.dirty_only,
    {
        self.dirty_only
    }

    /// Where the engine stands.
    pub fn phase(&self) -> (r: Phase)
        ensures
            r == self@.phase(),
    {
        if self.matches.len() > 0 {
            Phase::Draining
        } else if self.unprobed.len() > 0 || self.candidates.len() > self.roots_left {
            Phase::Walking
        } else if self.candidates.len() > 0 {
            Phase::AwaitingRoot
        } else {
            Phase::Exhausted
        }
    }

    /// What becomes of `entry` when it is reported in a listing.
    pub fn classify(&self, entry: &Entry) -> (v: Verdict)
        ensures
            v == verdict(self.filters(), self@.dirty_only, entry@),
    {
        if self.filters.should_skip(entry) {
            Verdict::Skipped
        } else if !entry.is_dir {
            Verdict::Ignored
        } else if entry.has_marker {
            if self.dirty_only {
                Verdict::Unprobed
            } else {
                Verdict::Matched
            }
        } else {
            Verdict::Descend
        }
    }

    /// The next thing to do. Repositories found are handed out first, the
    /// latest first. With none at hand, a repository whose state is wanted
    /// is asked about; with none of those, the directory last added to the
    /// frontier is asked for. What is asked for leaves the engine. With
    /// nothing left the answer is `Done`, and the engine stays as it is.
    pub fn next(&mut self) -> (step: Step)
        ensures
            final(self).filters() == old(self).filters(),
            match step {
                Step::Project(path) => {
                    &&& old(self)@.matches.len() > 0
                    &&& path@ == old(self)@.matches.last()
                    &&& final(self)@ == old(self)@.handed_out()
                },
                Step::Probe(path) => {
                    &&& old(self)@.matches.len() == 0
                    &&& old(self)@.unprobed.len() > 0
                    &&& path@ == old(self)@.unprobed.last()
                    &&& final(self)@ == old(self)@.asked_to_probe()
                },
                Step::Read(path) => {
                    &&& old(self)@.matches.len() == 0
                    &&& old(self)@.unprobed.len() == 0
                    &&& old(self)@.candidates.len() > 0
                    &&& path@ == old(self)@.candidates.last()
                    &&& final(self)@ == old(self)@.asked_to_read()
                },
                Step::Done => {
                    &&& old(self)@.is_empty()
                    &&& final(self)@ == old(self)@
                },
            },
    {
        if let Some(path) = self.matches.pop() {
            assert(self.matches.deep_view() =~= old(self)@.matches.drop_last());
            assert(path@ == old(self)@.matches.last());
            return Step::Project(path);
        }
        if let Some(path) = self.unprobed.pop() {
            assert(self.unprobed.deep_view() =~= old(self)@.unprobed.drop_last());
            assert(path@ == old(self)@.unprobed.last());
            return Step::Probe(path);
        }
        if self.candidates.len() > 0 && self.roots_left >= self.candidates.len() {
            self.roots_left = self.candidates.len() - 1;
        }
        if let Some(path) = self.candidates.pop() {
            assert(self.candidates.deep_view() =~= old(self)@.candidates.drop_last());
            assert(path@ == old(self)@.candidates.last());
            return Step::Read(path);
        }
        Step::Done
    }

    /// Takes in the listing of a directory. Each entry is judged by
    /// [`verdict`]: the repositories join those to hand out or, in
    /// dirty-only mode, those to query; the other directories that the
    /// filters let through join the frontier; the rest is dropped.
    pub fn record_listing(&mut self, entries: &Vec<Entry>)
        ensures
            final(self).filters() == old(self).filters(),
            final(self)@ == old(self)@.listed(old(self).filters(), entry_views(entries@)),
    {
        let ghost views = entry_views(entries@);
        let ghost filters = self.filters();
        let ghost dirty_only = self@.dirty_only;
        let ghost start = self@;
        let mut k: usize = 0;
        proof {
            lemma_selected_none(filters, dirty_only, views.take(0), Verdict::Descend);
            lemma_selected_none(filters, dirty_only, views.take(0), Verdict::Unprobed);
            lemma_selected_none(filters, dirty_only, views.take(0), Verdict::Matched);
            assert(self@.candidates =~= start.candidates + Seq::<Seq<char>>::empty());
            assert(self@.unprobed =~= start.unprobed + Seq::<Seq<char>>::empty());
            assert(self@.matches =~= start.matches + Seq::<Seq<char>>::empty());
        }
        while k < entries.len()
            invariant
                k <= entries.len(),
                views == entry_views(entries@),
                self.filters() == filters,
                self@.dirty_only == dirty_only,
                self@.roots_left == start.roots_left,
                self@.candidates == start.candidates + selected(
                    filters,
                    dirty_only,
                    views.take(k as int),
                    Verdict::Descend,
                ),
                self@.unprobed == start.unprobed + selected(
                    filters,
                    dirty_only,
                    views.take(k as int),
                    Verdict::Unprobed,
                ),
                self@.matches == start.matches + selected(
                    filters,
                    dirty_only,
                    views.take(k as int),
                    Verdict::Matched,
                ),
            decreases entries.len() - k,
        {
            let ghost before = self@;
            proof {
                lemma_selected_step(filters, dirty_only, views, k as int, Verdict::Descend);
                lemma_selected_step(filters, dirty_only, views, k as int, Verdict::Unprobed);
                lemma_selected_step(filters, dirty_only, views, k as int, Verdict::Matched);
            }
            let entry = &entries[k];
            assert(entry@ == views[k as int]);
            match self.classify(entry) {
                Verdict::Descend => {
                    self.candidates.push(entry.path.clone());
                    assert(self@.candidates =~= before.candidates.push(entry@.path));
                },
                Verdict::Unprobed => {
                    self.unprobed.push(entry.path.clone());
                    assert(self@.unprobed =~= before.unprobed.push(entry@.path));
                },
                Verdict::Matched => {
                    self.matches.push(entry.path.clone());
                    assert(self@.matches =~= before.matches.push(entry@.path));
                },
                _ => {},
            }
            k += 1;
            assert(self@.candidates =~= start.candidates + selected(
                filters,
                dirty_only,
                views.take(k as int),
                Verdict::Descend,
            ));
            assert(self@.unprobed =~= start.unprobed + selected(
                filters,
                dirty_only,
                views.take(k as int),
                Verdict::Unprobed,
            ));
            assert(self@.matches =~= start.matches + selected(
                filters,
                dirty_only,
                views.take(k as int),
                Verdict::Matched,
            ));
        }
        assert(views.take(k as int) =~= views);
    }

    /// Takes in the state of the repository at `path`, which the engine
    /// asked about. A dirty repository joins those to hand out, a clean one
    /// is dropped. Where a query could not be run the walk is given up:
    /// nothing is left in the engine, and the error is handed back.
    pub fn record_probe(&mut self, path: String, status: &RepoStatus) -> (r: Result<(), ProbeError>)
        ensures
            final(self).filters() == old(self).filters(),
            final(self)@ == old(self)@.probed(path@, *status),
            match dirty_verdict(*status) {
                Ok(_) => r is Ok,
                Err(e) => r == Err::<(), ProbeError>(e),
            },
    {
        match repo_is_dirty(status) {
            Ok(true) => {
                self.matches.push(path);
                assert(self@.matches =~= old(self)@.matches.push(path@));
                Ok(())
            },
            Ok(false) => Ok(()),
            Err(e) => {
                self.abandon();
                Err(e)
            },
        }
    }

    /// Takes in a failure to read what the engine asked for. Over a
    /// skippable failure the walk goes on, and the engine stays as it is.
    /// Any other failure ends the walk: nothing is left in the engine, and
    /// the failure is handed back.
    pub fn record_failure(&mut self, error: TraversalError) -> (r: Result<(), TraversalError>)
        ensures
            final(self).filters() == old(self).filters(),
            is_skippable(error.path_is_file, error.kind) ==> r is Ok && final(self)@ == old(self)@,
            !is_skippable(error.path_is_file, error.kind) ==> r == Err::<(), TraversalError>(error)
                && final(self)@ == old(self)@.abandoned(),
    {
        if skippable_err(&error) {
            Ok(())
        } else {
            self.abandon();
            Err(error)
        }
    }

    /// Gives the walk up: nothing is left to hand out or to look at.
    pub fn abandon(&mut self)
        ensures
            final(self).filters() == old(self).filters(),
            final(self)@ == old(self)@.abandoned(),
            final(self)@.phase() == Phase::Exhausted,
    {
        self.roots_left = 0;
        self.candidates.clear();
        self.unprobed.clear();
        self.matches.clear();
        assert(self@.candidates =~= Seq::empty());
        assert(self@.unprobed =~= Seq::empty());
        assert(self@.matches =~= Seq::empty());
    }
}

/// The patterns of an optional list: a missing list holds none.
pub open spec fn listed(patterns: Option<Vec<String>>) -> Seq<Seq<char>> {
    match patterns {
        Some(list) => list.deep_view(),
        None => Seq::empty(),
    }
}

/// Without patterns and outside dirty-only mode, an entry that is not
/// hidden is yielded exactly when it is a directory that holds the marker,
/// and joins the frontier exactly when it is a directory that does not. So
/// a repository is never read, and what is read is no repository.
pub proof fn lemma_open_engine_yields_marked_directories(filters: Filters, entry: EntryView)
    requires
        filters.is_open(),
        !is_hidden(entry.name),
    ensures
        verdict(filters, false, entry) == Verdict::Matched <==> entry.is_dir && entry.has_marker,
        verdict(filters, false, entry) == Verdict::Descend <==> entry.is_dir && !entry.has_marker,
{
}

/// Whatever the patterns and the mode, a directory that holds the marker
/// never joins the frontier, so nothing beneath a repository is visited.
pub proof fn lemma_repositories_are_never_entered(
    filters: Filters,
    dirty_only: bool,
    entry: EntryView,
)
    requires
        entry.has_marker,
    ensures
        verdict(filters, dirty_only, entry) != Verdict::Descend,
{
}

/// An include pattern overrides an exclude pattern: a repository whose name
/// is not hidden is yielded if both lists match its path, passed over if
/// only the exclude list does, and yielded if the exclude list does not.
pub proof fn lemma_patterns_decide_repositories(filters: Filters, entry: EntryView)
    requires
        !is_hidden(entry.name),
        entry.is_dir,
        entry.has_marker,
    ensures
        set_hits(filters.exclude_set(), entry.path) && set_hits(filters.include_set(), entry.path)
            ==> verdict(filters, false, entry) == Verdict::Matched,
        set_hits(filters.exclude_set(), entry.path) && !set_hits(filters.include_set(), entry.path)
            ==> verdict(filters, false, entry) == Verdict::Skipped,
        !set_hits(filters.exclude_set(), entry.path) ==> verdict(filters, false, entry)
            == Verdict::Matched,
{
}

/// A hidden entry is passed over whatever the patterns and the mode, a
/// repository too. The marker's own name is hidden, and still a directory
/// that holds it, and is let through by the filters, counts as a
/// repository: the marker is looked for by name, not found by the walk.
pub proof fn lemma_hidden_is_skipped_marker_is_detected(
    filters: Filters,
    dirty_only: bool,
    entry: EntryView,
)
    ensures
        is_hidden(".git"@),
        is_hidden(entry.name) ==> verdict(filters, dirty_only, entry) == Verdict::Skipped,
        !filters.skips(entry) && entry.is_dir && entry.has_marker ==> verdict(
            filters,
            dirty_only,
            entry,
        ) == (if dirty_only {
            Verdict::Unprobed
        } else {
            Verdict::Matched
        }),
{
    reveal_strlit(".git");
}

/// In dirty-only mode no repository is yielded unasked: each one that the
/// filters let through is queried, and then it is yielded if it is dirty
/// and dropped if it is clean.
pub proof fn lemma_dirty_only_yields_dirty_repositories(
    filters: Filters,
    view: FinderView,
    entry: EntryView,
    status: RepoStatus,
)
    requires
        !filters.skips(entry),
        entry.is_dir,
        entry.has_marker,
    ensures
        verdict(filters, true, entry) == Verdict::Unprobed,
        dirty_verdict(status) == Ok::<bool, ProbeError>(true) ==> view.probed(
            entry.path,
            status,
        ).matches == view.matches.push(entry.path),
        dirty_verdict(status) == Ok::<bool, ProbeError>(false) ==> view.probed(entry.path, status)
            == view,
{
}

/// The roots that were not read yet stay part of the frontier through
/// every step of the engine. While a root is being searched, the roots
/// still to come are left alone: what is found beneath a root is read
/// before the next root is.
pub proof fn lemma_roots_stay_in_frontier(
    filters: Filters,
    view: FinderView,
    entries: Seq<EntryView>,
    path: Seq<char>,
    status: RepoStatus,
)
    requires
        view.roots_in_frontier(),
    ensures
        view.handed_out().roots_in_frontier(),
        view.asked_to_probe().roots_in_frontier(),
        view.candidates.len() > 0 ==> view.asked_to_read().roots_in_frontier(),
        view.listed(filters, entries).roots_in_frontier(),
        view.probed(path, status).roots_in_frontier(),
        view.abandoned().roots_in_frontier(),
        view.candidates.len() > view.roots_left ==> view.asked_to_read().roots_left
            == view.roots_left,
        view.listed(filters, entries).roots_left == view.roots_left,
{
}

/// Once nothing is left, nothing comes back: an exhausted engine holds
/// nothing, its next step is `Done`, and it is exhausted still after it is
/// given up or takes in an empty listing.
pub proof fn lemma_exhausted_is_terminal(filters: Filters, view: FinderView)
    requires
        view.phase() == Phase::Exhausted,
    ensures
        view.is_empty(),
        view.abandoned().phase() == Phase::Exhausted,
        view.listed(filters, Seq::empty()).phase() == Phase::Exhausted,
{
    lemma_selected_none(filters, view.dirty_only, Seq::empty(), Verdict::Descend);
    lemma_selected_none(filters, view.dirty_only, Seq::empty(), Verdict::Unprobed);
    lemma_selected_none(filters, view.dirty_only, Seq::empty(), Verdict::Matched);
    assert(view.candidates =~= Seq::empty());
    assert(view.unprobed =~= Seq::empty());
    assert(view.matches =~= Seq::empty());
}

/// Nothing is selected from an empty listing.
pub proof fn lemma_selected_none(
    filters: Filters,
    dirty_only: bool,
    entries: Seq<EntryView>,
    want: Verdict,
)
    requires
        entries.len() == 0,
    ensures
        selected(filters, dirty_only, entries, want) =~= Seq::<Seq<char>>::empty(),
{
    reveal(Seq::filter);
}

/// What one more entry adds to the selection from a listing: its path if
/// it gets the verdict `want`, and nothing otherwise.
pub proof fn lemma_selected_push(
    filters: Filters,
    dirty_only: bool,
    entries: Seq<EntryView>,
    entry: EntryView,
    want: Verdict,
)
    ensures
        selected(filters, dirty_only, entries.push(entry), want) == if verdict(
            filters,
            dirty_only,
            entry,
        ) == want {
            selected(filters, dirty_only, entries, want).push(entry.path)
        } else {
            selected(filters, dirty_only, entries, want)
        },
{
    let pred = |e: EntryView| verdict(filters, dirty_only, e) == want;
    let path = |e: EntryView| e.path;
    entries.lemma_filter_push(entry, pred);
    entries.filter(pred).lemma_push_map_commute(path, entry);
}

/// What the entry at position `k` adds to the selection from the entries
/// before it.
proof fn lemma_selected_step(
    filters: Filters,
    dirty_only: bool,
    entries: Seq<EntryView>,
    k: int,
    want: Verdict,
)
    requires
        0 <= k < entries.len(),
    ensures
        selected(filters, dirty_only, entries.take(k + 1), want) == if verdict(
            filters,
            dirty_only,
            entries[k],
        ) == want {
            selected(filters, dirty_only, entries.take(k), want).push(entries[k].path)
        } else {
            selected(filters, dirty_only, entries.take(k), want)
        },
{
    entries.lemma_take_succ_push(k);
    lemma_selected_push(filters, dirty_only, entries.take(k), entries[k], want);
}

} // verus!
