//! Searching the discovered repositories for a term, and picking the best
//! of several hits: the one whose match ends furthest to the right.

use crate::commands::ratio::lemma_ratio_chain;
use crate::commands::ratio::MatchRatio;
use crate::find::error::PatternError;
use crate::find::pattern::compile_regex;
use crate::find::pattern::last_match_end;
use crate::find::pattern::regex_compile_outcome;
use crate::find::pattern::regex_last_match_end;
use crate::find::pattern::regex_matches;
use crate::find::pattern::regex_source;
use regex::Regex;
use vstd::prelude::*;
use vstd::utf8::decode_utf8;
use vstd::utf8::encode_utf8;
use vstd::utf8::encode_utf8_decode_utf8;
use vstd::utf8::is_char_boundary;

verus! {

/// How many characters of `text` lie before the byte offset `end` of its
/// UTF-8 form.
pub open spec fn chars_before(text: Seq<char>, end: int) -> nat {
    decode_utf8(encode_utf8(text).subrange(0, end)).len()
}

/// The match-end ratio of `text` under `rgx`: the number of characters up
/// to the end of the last match, over the number of characters of the text.
/// A text without a match is scored as though a match ended after its first
/// character.
pub open spec fn match_end_ratio(rgx: &Regex, text: Seq<char>) -> MatchRatio {
    MatchRatio {
        end: match regex_last_match_end(rgx, text) {
            Some(end) => chars_before(text, end as int) as usize,
            None => 1,
        },
        len: text.len() as usize,
    }
}

/// The match-end ratio of each text, in order.
pub open spec fn ratios(rgx: &Regex, texts: Seq<Seq<char>>) -> Seq<MatchRatio> {
    Seq::new(texts.len(), |i: int| match_end_ratio(rgx, texts[i]))
}

/// `a` is strictly the better hit than `b`. With `reverse` unset the
/// higher ratio is better, with `reverse` set the lower one. Between equal
/// ratios the shorter text is better, in both directions.
pub open spec fn outranks(a: MatchRatio, b: MatchRatio, reverse: bool) -> bool {
    if a.level(b) {
        a.len < b.len
    } else if reverse {
        a.below(b)
    } else {
        b.below(a)
    }
}

/// `i` is the position of the best hit among `scores`: nothing outranks
/// it, and it outranks everything before it, so that among equally good
/// hits it is the first.
pub open spec fn is_best(scores: Seq<MatchRatio>, reverse: bool, i: int) -> bool {
    &&& 0 <= i < scores.len()
    &&& forall|j: int| 0 <= j < scores.len() ==> !outranks(#[trigger] scores[j], scores[i], reverse)
    &&& forall|j: int| 0 <= j < i ==> outranks(scores[i], #[trigger] scores[j], reverse)
}

/// The texts that `rgx` matches, in order.
pub open spec fn matching(rgx: &Regex, texts: Seq<Seq<char>>) -> Seq<Seq<char>> {
    texts.filter(|t: Seq<char>| regex_matches(rgx, t))
}

/// What a search comes to.
#[derive(Debug)]
pub enum SearchOutcome {
    /// No project matched the term.
    NoMatch,
    /// Every project that matched, in the order of discovery.
    Matches(Vec<String>),
    /// The one best match.
    Best(String),
}

/// What a search with `rgx` over `projects` comes to. With no hit it is
/// `NoMatch`; with hits and `verbose` it is all of them; otherwise it is the
/// best of them.
pub open spec fn search_result(
    outcome: SearchOutcome,
    projects: Seq<Seq<char>>,
    rgx: &Regex,
    reverse: bool,
    verbose: bool,
) -> bool {
    let hits = matching(rgx, projects);
    match outcome {
        SearchOutcome::NoMatch => hits.len() == 0,
        SearchOutcome::Matches(all) => hits.len() > 0 && verbose && all.deep_view() == hits,
        SearchOutcome::Best(found) => hits.len() > 0 && !verbose && exists|i: int|
            is_best(ratios(rgx, hits), reverse, i) && found@ == hits[i],
    }
}

/// Whether `a` is strictly the better hit than `b`.
pub fn is_better(a: &MatchRatio, b: &MatchRatio, reverse: bool) -> (r: bool)
    ensures
        r == outranks(*a, *b, reverse),
{
    if a.is_level(b) {
        a.len < b.len
    } else if reverse {
        a.is_below(b)
    } else {
        b.is_below(a)
    }
}

/// The position of the best hit among `scores`, or `None` when there is no
/// score at all.
pub fn best_index(scores: &Vec<MatchRatio>, reverse: bool) -> (r: Option<usize>)
    ensures
        r is None <==> scores.len() == 0,
        r matches Some(i) ==> is_best(scores@, reverse, i as int),
{
    if scores.len() == 0 {
        return None;
    }
    let mut best: usize = 0;
    let mut k: usize = 1;
    while k < scores.len()
        invariant
            0 <= best < k <= scores.len(),
            forall|j: int| 0 <= j < k ==> !outranks(#[trigger] scores[j], scores[best as int], reverse),
            forall|j: int| 0 <= j < best ==> outranks(scores[best as int], #[trigger] scores[j], reverse),
        decreases scores.len() - k,
    {
        if is_better(&scores[k], &scores[best], reverse) {
            proof {
                let top = scores[k as int];
                let was = scores[best as int];
                assert forall|j: int| 0 <= j < k implies outranks(top, #[trigger] scores[j], reverse) by {
                    lemma_outranks_chain(top, was, scores[j], reverse);
                }
                assert forall|j: int| 0 <= j < k + 1 implies !outranks(
                    #[trigger] scores[j],
                    top,
                    reverse,
                ) by {
                    if j < k {
                        lemma_outranks_strict(top, scores[j], reverse);
                    }
                }
            }
            best = k;
        }
        k += 1;
    }
    Some(best)
}

/// How many characters of `s` lie before the byte offset `end`, which
/// falls between two characters or at an end of the text.
fn char_offset(s: &str, end: usize) -> (r: usize)
    requires
        is_char_boundary(encode_utf8(s@), end as int),
    ensures
        r == chars_before(s@, end as int),
{
    let (head, _) = s.split_at(end);
    proof {
        encode_utf8_decode_utf8(head@);
    }
    head.unicode_len()
}

/// The match-end ratio of `s` under `rgx`.
pub fn last_match_percent(s: &str, rgx: &Regex) -> (r: MatchRatio)
    ensures
        r == match_end_ratio(rgx, s@),
{
    let end: usize = match last_match_end(rgx, s) {
        Some(end) => char_offset(s, end),
        None => 1,
    };
    MatchRatio { end, len: s.unicode_len() }
}

/// The best of `matched_projects`: the one whose last match of `rgx` ends
/// closest to its end, or closest to its start when `reverse` is set.
/// Between hits of equal ratio the shorter one is taken, and between hits of
/// equal ratio and length the first. `None` only for an empty list.
pub fn get_rightmost_match<'a>(
    matched_projects: &'a Vec<String>,
    reverse: bool,
    rgx: &Regex,
) -> (r: Option<&'a String>)
    ensures
        r is None <==> matched_projects.len() == 0,
        r matches Some(found) ==> exists|i: int|
            is_best(ratios(rgx, matched_projects.deep_view()), reverse, i) && *found
                == matched_projects[i],
{
    let mut scores: Vec<MatchRatio> = Vec::new();
    let mut k: usize = 0;
    while k < matched_projects.len()
        invariant
            k <= matched_projects.len(),
            scores.len() == k,
            forall|j: int| 0 <= j < k ==> #[trigger] scores[j] == match_end_ratio(rgx, matched_projects[j]@),
        decreases matched_projects.len() - k,
    {
        scores.push(last_match_percent(matched_projects[k].as_str(), rgx));
        k += 1;
    }
    assert(scores@ =~= ratios(rgx, matched_projects.deep_view()));
    match best_index(&scores, reverse) {
        Some(i) => Some(&matched_projects[i]),
        None => None,
    }
}

/// Compiles a search term. A term that is no regular expression is an
/// error that names it.
pub fn compile_search(search_term: &str) -> (r: Result<Regex, PatternError>)
    ensures
        r is Ok <==> regex_compile_outcome(search_term@) is None,
        r matches Ok(rgx) ==> regex_source(&rgx) == search_term@,
        r matches Err(e) ==> (e matches PatternError::Invalid { pattern, reason } && pattern@
            == search_term@ && regex_compile_outcome(search_term@) == Some(reason@)),
{
    match compile_regex(search_term) {
        Ok(rgx) => Ok(rgx),
        Err(reason) => Err(PatternError::Invalid { pattern: search_term.to_owned(), reason }),
    }
}

/// The projects that `rgx` matches, in the order given.
pub fn matched(projects: &Vec<String>, rgx: &Regex) -> (hits: Vec<String>)
    ensures
        hits.deep_view() == matching(rgx, projects.deep_view()),
{
    let ghost all = projects.deep_view();
    let ghost wanted = |t: Seq<char>| regex_matches(rgx, t);
    let mut hits: Vec<String> = Vec::new();
    let mut k: usize = 0;
    assert(hits.deep_view() =~= all.take(0).filter(wanted));
    while k < projects.len()
        invariant
            k <= projects.len(),
            all == projects.deep_view(),
            wanted == |t: Seq<char>| regex_matches(rgx, t),
            hits.deep_view() == all.take(k as int).filter(wanted),
        decreases projects.len() - k,
    {
        let ghost before = hits.deep_view();
        proof {
            all.lemma_take_succ_push(k as int);
            all.take(k as int).lemma_filter_push(all[k as int], wanted);
        }
        if rgx.is_match(projects[k].as_str()) {
            hits.push(projects[k].clone());
            assert(hits.deep_view() =~= before.push(all[k as int]));
        }
        k += 1;
    }
    assert(all.take(k as int) =~= all);
    hits
}

/// Searches `projects` with a compiled term: no hit, every hit (with
/// `verbose`), or the best one.
pub fn search(projects: &Vec<String>, rgx: &Regex, reverse: bool, verbose: bool) -> (r:
    SearchOutcome)
    ensures
        search_result(r, projects.deep_view(), rgx, reverse, verbose),
{
    let hits = matched(projects, rgx);
    if hits.len() == 0 {
        return SearchOutcome::NoMatch;
    }
    if verbose {
        return SearchOutcome::Matches(hits);
    }
    match get_rightmost_match(&hits, reverse, rgx) {
        Some(found) => {
            let best = found.clone();
            proof {
                let scores = ratios(rgx, hits.deep_view());
                let i = choose|i: int| is_best(scores, reverse, i) && *found == hits[i];
                assert(best@ == hits.deep_view()[i]);
            }
            SearchOutcome::Best(best)
        },
        None => SearchOutcome::NoMatch,
    }
}

/// Searches `projects` for `search_term`. The term is compiled first, and a
/// term that does not compile is the only error. Otherwise the outcome is
/// that of [`search`] with an expression compiled from the term.
pub fn find(projects: &Vec<String>, search_term: &str, reverse: bool, verbose: bool) -> (r: Result<
    SearchOutcome,
    PatternError,
>)
    ensures
        r is Ok <==> regex_compile_outcome(search_term@) is None,
        r matches Ok(outcome) ==> exists|rgx: Regex| #[trigger]
            regex_source(&rgx) == search_term@ && search_result(
                outcome,
                projects.deep_view(),
                &rgx,
                reverse,
                verbose,
            ),
        r matches Err(e) ==> (e matches PatternError::Invalid { pattern, reason } && pattern@
            == search_term@ && regex_compile_outcome(search_term@) == Some(reason@)),
{
    match compile_search(search_term) {
        Ok(rgx) => {
            let outcome = search(projects, &rgx, reverse, verbose);
            assert(regex_source(&rgx) == search_term@);
            Ok(outcome)
        },
        Err(e) => Err(e),
    }
}

/// The best hit is one position: two positions that both are the best are
/// the same.
pub proof fn lemma_best_is_unique(scores: Seq<MatchRatio>, reverse: bool, i: int, k: int)
    requires
        is_best(scores, reverse, i),
        is_best(scores, reverse, k),
    ensures
        i == k,
{
    if i < k {
        assert(outranks(scores[k], scores[i], reverse));
    } else if k < i {
        assert(outranks(scores[i], scores[k], reverse));
    }
}

/// Between hits of the same ratio the shorter one wins: no hit with the
/// ratio of the best one is shorter than it.
pub proof fn lemma_tie_prefers_shorter(scores: Seq<MatchRatio>, reverse: bool, i: int, j: int)
    requires
        is_best(scores, reverse, i),
        0 <= j < scores.len(),
        scores[j].level(scores[i]),
    ensures
        scores[i].len <= scores[j].len,
{
    assert(!outranks(scores[j], scores[i], reverse));
}

/// The best hit has the extreme ratio: none is higher, or with `reverse`
/// none is lower.
pub proof fn lemma_best_has_extreme_ratio(scores: Seq<MatchRatio>, reverse: bool, i: int, j: int)
    requires
        is_best(scores, reverse, i),
        0 <= j < scores.len(),
    ensures
        reverse ==> !scores[j].below(scores[i]),
        !reverse ==> !scores[i].below(scores[j]),
{
    assert(!outranks(scores[j], scores[i], reverse));
    lemma_ratio_chain(scores[j], scores[i], scores[j]);
    lemma_ratio_chain(scores[i], scores[j], scores[i]);
}

/// A search reports "no match" exactly when the term matches no project:
/// with at least one hit the outcome holds a project.
pub proof fn lemma_no_match_iff_no_hit(
    outcome: SearchOutcome,
    projects: Seq<Seq<char>>,
    rgx: &Regex,
    reverse: bool,
    verbose: bool,
)
    requires
        search_result(outcome, projects, rgx, reverse, verbose),
    ensures
        outcome is NoMatch <==> matching(rgx, projects).len() == 0,
        outcome is NoMatch <==> forall|i: int|
            0 <= i < projects.len() ==> !regex_matches(rgx, #[trigger] projects[i]),
{
    let wanted = |t: Seq<char>| regex_matches(rgx, t);
    let hits = projects.filter(wanted);
    broadcast use vstd::seq_lib::group_filter_ensures;

    if hits.len() > 0 {
        assert(wanted(hits[0]));
        assert(projects.contains(hits[0])) by {
            lemma_filter_subset(projects, wanted, 0);
        }
    } else {
        assert forall|i: int| 0 <= i < projects.len() implies !regex_matches(
            rgx,
            #[trigger] projects[i],
        ) by {
            if regex_matches(rgx, projects[i]) {
                assert(wanted(projects[i]));
                assert(hits.contains(projects[i]));
            }
        }
    }
}

/// Every element of a filtered sequence comes from the sequence.
proof fn lemma_filter_subset(s: Seq<Seq<char>>, pred: spec_fn(Seq<char>) -> bool, i: int)
    requires
        0 <= i < s.filter(pred).len(),
    ensures
        s.contains(s.filter(pred)[i]),
    decreases s.len(),
{
    reveal(Seq::filter);
    if s.len() > 0 {
        let rest = s.drop_last();
        let sub = rest.filter(pred);
        if i < sub.len() {
            lemma_filter_subset(rest, pred, i);
            let w = choose|w: int| 0 <= w < rest.len() && rest[w] == sub[i];
            assert(s[w] == sub[i]);
        } else {
            assert(s[s.len() - 1] == s.last());
        }
    }
}

/// Outranking is a strict order that carries through hits of equal or
/// lesser standing: if `a` outranks `b`, and `c` does not outrank `b`, then
/// `a` outranks `c`.
pub proof fn lemma_outranks_chain(a: MatchRatio, b: MatchRatio, c: MatchRatio, reverse: bool)
    requires
        outranks(a, b, reverse),
        !outranks(c, b, reverse),
    ensures
        outranks(a, c, reverse),
{
    lemma_ratio_chain(a, b, c);
    lemma_ratio_chain(c, b, a);
    lemma_ratio_chain(b, a, c);
    lemma_ratio_chain(b, c, a);
    lemma_ratio_chain(a, c, b);
    lemma_ratio_chain(c, a, b);
}

/// Any two hits compare: one outranks the other, or they have the same
/// ratio and the same length and count as equally good.
pub proof fn lemma_outranks_total(a: MatchRatio, b: MatchRatio, reverse: bool)
    ensures
        outranks(a, b, reverse) || outranks(b, a, reverse) || (a.level(b) && a.len == b.len),
{
    lemma_ratio_chain(a, b, a);
    lemma_ratio_chain(b, a, b);
}

/// Of two hits at most one outranks the other.
pub proof fn lemma_outranks_strict(a: MatchRatio, b: MatchRatio, reverse: bool)
    requires
        outranks(a, b, reverse),
    ensures
        !outranks(b, a, reverse),
{
    lemma_ratio_chain(a, b, a);
    lemma_ratio_chain(b, a, b);
}

} // verus!
