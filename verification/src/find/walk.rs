//! A whole walk, followed on a model of the directory trees.
//!
//! The engine in [`crate::find::projects`] sees one listing at a time.
//! Here the trees beneath the roots are values, and a walk is the sequence
//! of repositories that the engine yields when every directory it asks for
//! is answered with that directory's children, and every repository it asks
//! about with that repository's state. The laws below say which
//! repositories those are.

use crate::find::filter::is_hidden;
use crate::find::filter::EntryView;
use crate::find::filter::Filters;
use crate::find::git::dirty_verdict;
use crate::find::git::ProbeError;
use crate::find::git::RepoStatus;
use crate::find::projects::lemma_selected_none;
use crate::find::projects::lemma_selected_push;
use crate::find::projects::selected;
use crate::find::projects::verdict;
use crate::find::projects::FinderView;
use crate::find::projects::Verdict;
use vstd::multiset::Multiset;
use vstd::prelude::*;
use vstd::seq_lib::lemma_multiset_commutative;
use vstd::seq_lib::to_multiset_build;

verus! {

/// A directory entry with everything beneath it.
pub struct Node {
    /// The entry as a listing of its parent reports it.
    pub entry: EntryView,
    /// What the status queries say of the entry at the time the engine
    /// asks about it. It counts only for a repository.
    pub status: RepoStatus,
    /// What a listing of the entry itself reports, each with what is
    /// beneath it. Empty for what is no directory.
    pub children: Seq<Node>,
}

/// The entries that a listing of these nodes' parent reports.
pub open spec fn entries_of(nodes: Seq<Node>) -> Seq<EntryView> {
    nodes.map_values(|n: Node| n.entry)
}

/// The paths of the nodes, in order.
pub open spec fn paths_of(nodes: Seq<Node>) -> Seq<Seq<char>> {
    nodes.map_values(|n: Node| n.entry.path)
}

/// The nodes that get the verdict `want` when they are listed, in order.
pub open spec fn keeping(filters: Filters, dirty_only: bool, nodes: Seq<Node>, want: Verdict) -> Seq<
    Node,
> {
    nodes.filter(|n: Node| verdict(filters, dirty_only, n.entry) == want)
}

/// What asking about a repository gives: the repository if it is dirty,
/// nothing if it is clean or if a query could not be run.
pub open spec fn dirty_one(node: Node) -> Multiset<Seq<char>> {
    if dirty_verdict(node.status) == Ok::<bool, ProbeError>(true) {
        Multiset::singleton(node.entry.path)
    } else {
        Multiset::empty()
    }
}

/// The dirty ones among repositories that are to be asked about.
pub open spec fn dirty_among(nodes: Seq<Node>) -> Multiset<Seq<char>>
    decreases nodes.len(),
{
    if nodes.len() == 0 {
        Multiset::empty()
    } else {
        dirty_among(nodes.drop_last()).add(dirty_one(nodes.last()))
    }
}

/// The repositories that a walk owes for a listed entry: the entry itself
/// if it is a repository, and dirty where only dirty ones are wanted; those
/// among its children if it is a directory that the walk descends into;
/// none otherwise. Each counts as often as it occurs.
pub open spec fn repos_in(filters: Filters, dirty_only: bool, node: Node) -> Multiset<Seq<char>>
    decreases node,
{
    match verdict(filters, dirty_only, node.entry) {
        Verdict::Matched => Multiset::singleton(node.entry.path),
        Verdict::Unprobed => dirty_one(node),
        Verdict::Descend => repos_among(filters, dirty_only, node.children),
        _ => Multiset::empty(),
    }
}

/// The repositories that a walk owes for the entries of one listing.
pub open spec fn repos_among(filters: Filters, dirty_only: bool, nodes: Seq<Node>) -> Multiset<
    Seq<char>,
>
    decreases nodes,
{
    if nodes.len() == 0 {
        Multiset::empty()
    } else {
        repos_among(filters, dirty_only, nodes.drop_last()).add(
            repos_in(filters, dirty_only, nodes.last()),
        )
    }
}

/// The repositories that a walk owes for directories that are to be read.
/// Such a directory is not judged itself: roots are read whatever they are.
pub open spec fn repos_beneath(filters: Filters, dirty_only: bool, dirs: Seq<Node>) -> Multiset<
    Seq<char>,
>
    decreases dirs.len(),
{
    if dirs.len() == 0 {
        Multiset::empty()
    } else {
        repos_beneath(filters, dirty_only, dirs.drop_last()).add(
            repos_among(filters, dirty_only, dirs.last().children),
        )
    }
}

/// Every status query on the node and on what is beneath it runs to its
/// end.
pub open spec fn answered(node: Node) -> bool
    decreases node,
{
    &&& dirty_verdict(node.status) is Ok
    &&& forall|i: int| 0 <= i < node.children.len() ==> answered(#[trigger] node.children[i])
}

/// Every status query on these nodes and on what is beneath them runs to
/// its end.
pub open spec fn all_answered(nodes: Seq<Node>) -> bool {
    forall|i: int| 0 <= i < nodes.len() ==> answered(#[trigger] nodes[i])
}

/// How many entries a node holds, itself included.
pub open spec fn weight(node: Node) -> nat
    decreases node,
{
    1 + weight_of_all(node.children)
}

/// How many entries the nodes hold together.
pub open spec fn weight_of_all(nodes: Seq<Node>) -> nat
    decreases nodes,
{
    if nodes.len() == 0 {
        0
    } else {
        weight_of_all(nodes.drop_last()) + weight(nodes.last())
    }
}

/// The frontier after its last directory was read.
pub open spec fn frontier_after_read(filters: Filters, dirty_only: bool, frontier: Seq<Node>) -> Seq<
    Node,
>
    recommends
        frontier.len() > 0,
{
    frontier.drop_last() + keeping(
        filters,
        dirty_only,
        frontier.last().children,
        Verdict::Descend,
    )
}

/// The repositories that a walk yields, in order, from an engine in the
/// state `view` that is to ask about the repositories `unprobed` and whose
/// frontier are the directories `frontier`. It follows the engine step by
/// step. What is to be handed out goes first, the latest first. Then the
/// engine asks about the last repository it is to ask about, and takes in
/// that repository's state; a query that cannot be run ends the walk. Then
/// the engine asks for the last directory of its frontier and takes in the
/// listing of that directory's children.
pub open spec fn walk(filters: Filters, view: FinderView, unprobed: Seq<Node>, frontier: Seq<Node>) -> Seq<
    Seq<char>,
>
    decreases weight_of_all(frontier), unprobed.len(), view.matches.len(),
    via walk_decreases
{
    if view.matches.len() > 0 {
        seq![view.matches.last()] + walk(filters, view.handed_out(), unprobed, frontier)
    } else if unprobed.len() > 0 {
        if dirty_verdict(unprobed.last().status) is Err {
            Seq::empty()
        } else {
            walk(
                filters,
                view.asked_to_probe().probed(unprobed.last().entry.path, unprobed.last().status),
                unprobed.drop_last(),
                frontier,
            )
        }
    } else if frontier.len() > 0 {
        walk(
            filters,
            view.asked_to_read().listed(filters, entries_of(frontier.last().children)),
            keeping(filters, view.dirty_only, frontier.last().children, Verdict::Unprobed),
            frontier_after_read(filters, view.dirty_only, frontier),
        )
    } else {
        Seq::empty()
    }
}

#[via_fn]
proof fn walk_decreases(filters: Filters, view: FinderView, unprobed: Seq<Node>, frontier: Seq<Node>) {
    if view.matches.len() == 0 && unprobed.len() == 0 && frontier.len() > 0 {
        lemma_reading_sheds_weight(filters, view.dirty_only, frontier);
    }
}

/// The state of an engine that was made for these roots and has not taken
/// a step.
pub open spec fn at_start(dirty_only: bool, roots: Seq<Node>) -> FinderView {
    FinderView {
        dirty_only,
        candidates: paths_of(roots),
        roots_left: roots.len(),
        unprobed: Seq::empty(),
        matches: Seq::empty(),
    }
}

/// The engine state `view` stands over the repositories `unprobed` and the
/// directories `frontier`: they are what it is to ask about and to read.
pub open spec fn stands_over(view: FinderView, unprobed: Seq<Node>, frontier: Seq<Node>) -> bool {
    &&& view.unprobed == paths_of(unprobed)
    &&& view.candidates == paths_of(frontier)
}

/// Every status query that the walk can come to runs to its end.
pub open spec fn all_queries_run(unprobed: Seq<Node>, frontier: Seq<Node>) -> bool {
    &&& all_answered(unprobed)
    &&& forall|i: int| 0 <= i < frontier.len() ==> all_answered((#[trigger] frontier[i]).children)
}

/// What an engine still owes: the repositories it holds to hand out, the
/// dirty ones among those it is to ask about, and those owed for the
/// directories of its frontier.
pub open spec fn owed(
    filters: Filters,
    view: FinderView,
    unprobed: Seq<Node>,
    frontier: Seq<Node>,
) -> Multiset<Seq<char>> {
    view.matches.to_multiset().add(dirty_among(unprobed)).add(
        repos_beneath(filters, view.dirty_only, frontier),
    )
}

/// The weight of two runs of nodes is the sum of their weights.
proof fn lemma_weight_concat(a: Seq<Node>, b: Seq<Node>)
    ensures
        weight_of_all(a + b) == weight_of_all(a) + weight_of_all(b),
    decreases b.len(),
{
    if b.len() == 0 {
        assert(a + b =~= a);
    } else {
        lemma_weight_concat(a, b.drop_last());
        assert((a + b).drop_last() =~= a + b.drop_last());
        assert((a + b).last() == b.last());
    }
}

/// The nodes kept for a verdict weigh no more than all the nodes.
proof fn lemma_keeping_weight(filters: Filters, dirty_only: bool, nodes: Seq<Node>, want: Verdict)
    ensures
        weight_of_all(keeping(filters, dirty_only, nodes, want)) <= weight_of_all(nodes),
    decreases nodes.len(),
{
    if nodes.len() == 0 {
        lemma_keeping_none(filters, dirty_only, nodes, want);
    } else {
        let init = nodes.drop_last();
        let last = nodes.last();
        lemma_keeping_weight(filters, dirty_only, init, want);
        assert(nodes =~= init.push(last));
        lemma_keeping_push(filters, dirty_only, init, last, want);
        let kept = keeping(filters, dirty_only, init, want);
        if verdict(filters, dirty_only, last.entry) == want {
            assert(kept.push(last).drop_last() =~= kept);
            assert(kept.push(last).last() == last);
        }
    }
}

/// Reading a directory makes the frontier lighter.
proof fn lemma_reading_sheds_weight(filters: Filters, dirty_only: bool, frontier: Seq<Node>)
    requires
        frontier.len() > 0,
    ensures
        weight_of_all(frontier_after_read(filters, dirty_only, frontier)) < weight_of_all(frontier),
{
    let dir = frontier.last();
    lemma_weight_concat(
        frontier.drop_last(),
        keeping(filters, dirty_only, dir.children, Verdict::Descend),
    );
    lemma_keeping_weight(filters, dirty_only, dir.children, Verdict::Descend);
    assert(weight_of_all(frontier) == weight_of_all(frontier.drop_last()) + weight(dir));
    assert(weight(dir) == 1 + weight_of_all(dir.children));
}

/// No node of an empty listing is kept.
proof fn lemma_keeping_none(filters: Filters, dirty_only: bool, nodes: Seq<Node>, want: Verdict)
    requires
        nodes.len() == 0,
    ensures
        keeping(filters, dirty_only, nodes, want) =~= Seq::<Node>::empty(),
{
    reveal(Seq::filter);
}

/// What one more node adds to those kept for a verdict.
proof fn lemma_keeping_push(
    filters: Filters,
    dirty_only: bool,
    nodes: Seq<Node>,
    node: Node,
    want: Verdict,
)
    ensures
        keeping(filters, dirty_only, nodes.push(node), want) == if verdict(
            filters,
            dirty_only,
            node.entry,
        ) == want {
            keeping(filters, dirty_only, nodes, want).push(node)
        } else {
            keeping(filters, dirty_only, nodes, want)
        },
{
    let pred = |n: Node| verdict(filters, dirty_only, n.entry) == want;
    nodes.lemma_filter_push(node, pred);
}

/// Each node kept for a verdict is one of the nodes.
proof fn lemma_keeping_members(
    filters: Filters,
    dirty_only: bool,
    nodes: Seq<Node>,
    want: Verdict,
    i: int,
)
    requires
        0 <= i < keeping(filters, dirty_only, nodes, want).len(),
    ensures
        nodes.contains(keeping(filters, dirty_only, nodes, want)[i]),
    decreases nodes.len(),
{
    if nodes.len() == 0 {
        lemma_keeping_none(filters, dirty_only, nodes, want);
    } else {
        let init = nodes.drop_last();
        let last = nodes.last();
        assert(nodes =~= init.push(last));
        lemma_keeping_push(filters, dirty_only, init, last, want);
        let kept = keeping(filters, dirty_only, init, want);
        if i < kept.len() {
            lemma_keeping_members(filters, dirty_only, init, want, i);
            let w = choose|w: int| 0 <= w < init.len() && init[w] == kept[i];
            assert(nodes[w] == kept[i]);
        } else {
            assert(nodes[nodes.len() - 1] == last);
        }
    }
}

/// The empty sequence holds nothing.
proof fn lemma_nothing_holds_nothing()
    ensures
        Seq::<Seq<char>>::empty().to_multiset() =~= Multiset::empty(),
{
    broadcast use vstd::seq_lib::group_to_multiset_ensures;

    assert(Seq::<Seq<char>>::empty().to_multiset().len() == 0);
}

/// What is owed for two runs of directories is what is owed for the one
/// and for the other.
proof fn lemma_beneath_concat(filters: Filters, dirty_only: bool, a: Seq<Node>, b: Seq<Node>)
    ensures
        repos_beneath(filters, dirty_only, a + b) =~= repos_beneath(filters, dirty_only, a).add(
            repos_beneath(filters, dirty_only, b),
        ),
    decreases b.len(),
{
    broadcast use vstd::multiset::group_multiset_axioms;

    if b.len() == 0 {
        assert(a + b =~= a);
    } else {
        lemma_beneath_concat(filters, dirty_only, a, b.drop_last());
        assert((a + b).drop_last() =~= a + b.drop_last());
        assert((a + b).last() == b.last());
    }
}

/// The paths that a listing adds to one of the engine's lists are those of
/// the nodes kept for that list's verdict.
pub proof fn lemma_listing_paths(
    filters: Filters,
    dirty_only: bool,
    nodes: Seq<Node>,
    want: Verdict,
)
    ensures
        selected(filters, dirty_only, entries_of(nodes), want) == paths_of(
            keeping(filters, dirty_only, nodes, want),
        ),
    decreases nodes.len(),
{
    if nodes.len() == 0 {
        lemma_keeping_none(filters, dirty_only, nodes, want);
        lemma_selected_none(filters, dirty_only, entries_of(nodes), want);
        assert(paths_of(keeping(filters, dirty_only, nodes, want)) =~= Seq::<Seq<char>>::empty());
    } else {
        let init = nodes.drop_last();
        let last = nodes.last();
        lemma_listing_paths(filters, dirty_only, init, want);
        assert(nodes =~= init.push(last));
        assert(entries_of(nodes) =~= entries_of(init).push(last.entry));
        lemma_selected_push(filters, dirty_only, entries_of(init), last.entry, want);
        lemma_keeping_push(filters, dirty_only, init, last, want);
        let kept = keeping(filters, dirty_only, init, want);
        assert(paths_of(kept.push(last)) =~= paths_of(kept).push(last.entry.path));
    }
}

/// A listing splits into what is yielded, what is asked about, what joins
/// the frontier, and what is dropped: what the walk owes for the listed
/// entries is what the listing itself matches, the dirty ones among those
/// it is to ask about, and what is owed for the nodes it descends into.
pub proof fn lemma_listing_splits(filters: Filters, dirty_only: bool, nodes: Seq<Node>)
    ensures
        repos_among(filters, dirty_only, nodes) == selected(
            filters,
            dirty_only,
            entries_of(nodes),
            Verdict::Matched,
        ).to_multiset().add(
            dirty_among(keeping(filters, dirty_only, nodes, Verdict::Unprobed)),
        ).add(
            repos_beneath(
                filters,
                dirty_only,
                keeping(filters, dirty_only, nodes, Verdict::Descend),
            ),
        ),
    decreases nodes.len(),
{
    broadcast use vstd::multiset::group_multiset_axioms;

    let hits_all = selected(filters, dirty_only, entries_of(nodes), Verdict::Matched);
    let asked_all = keeping(filters, dirty_only, nodes, Verdict::Unprobed);
    let kept_all = keeping(filters, dirty_only, nodes, Verdict::Descend);
    if nodes.len() == 0 {
        lemma_keeping_none(filters, dirty_only, nodes, Verdict::Descend);
        lemma_keeping_none(filters, dirty_only, nodes, Verdict::Unprobed);
        lemma_selected_none(filters, dirty_only, entries_of(nodes), Verdict::Matched);
        lemma_nothing_holds_nothing();
        assert(repos_among(filters, dirty_only, nodes) =~= hits_all.to_multiset().add(
            dirty_among(asked_all),
        ).add(repos_beneath(filters, dirty_only, kept_all)));
    } else {
        let init = nodes.drop_last();
        let last = nodes.last();
        lemma_listing_splits(filters, dirty_only, init);
        assert(nodes =~= init.push(last));
        assert(entries_of(nodes) =~= entries_of(init).push(last.entry));
        lemma_selected_push(filters, dirty_only, entries_of(init), last.entry, Verdict::Matched);
        lemma_keeping_push(filters, dirty_only, init, last, Verdict::Descend);
        lemma_keeping_push(filters, dirty_only, init, last, Verdict::Unprobed);
        let kept = keeping(filters, dirty_only, init, Verdict::Descend);
        let asked = keeping(filters, dirty_only, init, Verdict::Unprobed);
        let hits = selected(filters, dirty_only, entries_of(init), Verdict::Matched);
        assert(repos_among(filters, dirty_only, nodes) == repos_among(
            filters,
            dirty_only,
            init,
        ).add(repos_in(filters, dirty_only, last)));
        if verdict(filters, dirty_only, last.entry) == Verdict::Descend {
            assert(kept.push(last).drop_last() =~= kept);
            assert(kept.push(last).last() == last);
            assert(repos_beneath(filters, dirty_only, kept.push(last)) == repos_beneath(
                filters,
                dirty_only,
                kept,
            ).add(repos_among(filters, dirty_only, last.children)));
            assert(repos_in(filters, dirty_only, last) == repos_among(
                filters,
                dirty_only,
                last.children,
            ));
        } else if verdict(filters, dirty_only, last.entry) == Verdict::Unprobed {
            assert(asked.push(last).drop_last() =~= asked);
            assert(asked.push(last).last() == last);
            assert(dirty_among(asked.push(last)) == dirty_among(asked).add(dirty_one(last)));
            assert(repos_in(filters, dirty_only, last) == dirty_one(last));
        } else if verdict(filters, dirty_only, last.entry) == Verdict::Matched {
            to_multiset_build(hits, last.entry.path);
            assert(repos_in(filters, dirty_only, last) == Multiset::singleton(last.entry.path));
        } else {
            assert(repos_in(filters, dirty_only, last) == Multiset::<Seq<char>>::empty());
        }
        assert(repos_among(filters, dirty_only, nodes) =~= hits_all.to_multiset().add(
            dirty_among(asked_all),
        ).add(repos_beneath(filters, dirty_only, kept_all)));
    }
}

/// Handing a repository out takes it, once, from what is owed.
pub proof fn lemma_handing_out_pays_what_is_owed(
    filters: Filters,
    view: FinderView,
    unprobed: Seq<Node>,
    frontier: Seq<Node>,
)
    requires
        view.matches.len() > 0,
    ensures
        owed(filters, view, unprobed, frontier) =~= owed(
            filters,
            view.handed_out(),
            unprobed,
            frontier,
        ).insert(view.matches.last()),
{
    broadcast use vstd::multiset::group_multiset_axioms;

    assert(view.matches =~= view.matches.drop_last().push(view.matches.last()));
    to_multiset_build(view.matches.drop_last(), view.matches.last());
}

/// Asking about a repository keeps what is owed, where the queries run to
/// their end: a dirty repository moves to those to hand out, and for a
/// clean one nothing was owed.
pub proof fn lemma_asking_keeps_what_is_owed(
    filters: Filters,
    view: FinderView,
    unprobed: Seq<Node>,
    frontier: Seq<Node>,
)
    requires
        stands_over(view, unprobed, frontier),
        unprobed.len() > 0,
        dirty_verdict(unprobed.last().status) is Ok,
    ensures
        view.unprobed.len() > 0,
        view.unprobed.last() == unprobed.last().entry.path,
        ({
            let after = view.asked_to_probe().probed(
                unprobed.last().entry.path,
                unprobed.last().status,
            );
            &&& stands_over(after, unprobed.drop_last(), frontier)
            &&& owed(filters, after, unprobed.drop_last(), frontier) =~= owed(
                filters,
                view,
                unprobed,
                frontier,
            )
        }),
{
    broadcast use vstd::multiset::group_multiset_axioms;

    let repo = unprobed.last();
    assert(paths_of(unprobed).drop_last() =~= paths_of(unprobed.drop_last()));
    assert(dirty_among(unprobed) == dirty_among(unprobed.drop_last()).add(dirty_one(repo)));
    to_multiset_build(view.matches, repo.entry.path);
}

/// Reading a directory keeps what is owed. When the engine, with nothing
/// to ask about, is asked for the last directory of its frontier and takes
/// in the listing of that directory's children, it stands over the
/// repositories to ask about and the frontier as they are after the read,
/// and owes what it owed before.
pub proof fn lemma_reading_keeps_what_is_owed(
    filters: Filters,
    view: FinderView,
    frontier: Seq<Node>,
)
    requires
        stands_over(view, Seq::empty(), frontier),
        frontier.len() > 0,
    ensures
        view.candidates.len() > 0,
        view.candidates.last() == frontier.last().entry.path,
        ({
            let after = view.asked_to_read().listed(
                filters,
                entries_of(frontier.last().children),
            );
            let unprobed = keeping(
                filters,
                view.dirty_only,
                frontier.last().children,
                Verdict::Unprobed,
            );
            let rest = frontier_after_read(filters, view.dirty_only, frontier);
            &&& stands_over(after, unprobed, rest)
            &&& owed(filters, after, unprobed, rest) =~= owed(
                filters,
                view,
                Seq::empty(),
                frontier,
            )
        }),
{
    broadcast use vstd::multiset::group_multiset_axioms;

    let dir = frontier.last();
    let d = view.dirty_only;
    let after = view.asked_to_read().listed(filters, entries_of(dir.children));
    let hits = selected(filters, d, entries_of(dir.children), Verdict::Matched);
    let kept = keeping(filters, d, dir.children, Verdict::Descend);
    let asked = keeping(filters, d, dir.children, Verdict::Unprobed);
    lemma_listing_splits(filters, d, dir.children);
    lemma_listing_paths(filters, d, dir.children, Verdict::Descend);
    lemma_listing_paths(filters, d, dir.children, Verdict::Unprobed);
    lemma_beneath_concat(filters, d, frontier.drop_last(), kept);
    lemma_multiset_commutative(view.matches, hits);
    assert(paths_of(frontier).drop_last() =~= paths_of(frontier.drop_last()));
    assert(after.candidates =~= paths_of(frontier_after_read(filters, d, frontier)));
    assert(view.unprobed =~= Seq::<Seq<char>>::empty());
    assert(after.unprobed =~= paths_of(asked));
    assert(dirty_among(Seq::<Node>::empty()) =~= Multiset::<Seq<char>>::empty());
    assert(repos_beneath(filters, d, frontier) == repos_beneath(
        filters,
        d,
        frontier.drop_last(),
    ).add(repos_among(filters, d, dir.children)));
}

/// Where every query runs to its end on what the engine stands over, it
/// does so on what the engine stands over after a read.
proof fn lemma_reading_keeps_queries_running(
    filters: Filters,
    dirty_only: bool,
    frontier: Seq<Node>,
)
    requires
        frontier.len() > 0,
        all_queries_run(Seq::empty(), frontier),
    ensures
        all_queries_run(
            keeping(filters, dirty_only, frontier.last().children, Verdict::Unprobed),
            frontier_after_read(filters, dirty_only, frontier),
        ),
{
    let dir = frontier.last();
    let asked = keeping(filters, dirty_only, dir.children, Verdict::Unprobed);
    let kept = keeping(filters, dirty_only, dir.children, Verdict::Descend);
    let rest = frontier_after_read(filters, dirty_only, frontier);
    assert(all_answered(dir.children));
    assert forall|i: int| 0 <= i < asked.len() implies answered(#[trigger] asked[i]) by {
        lemma_keeping_members(filters, dirty_only, dir.children, Verdict::Unprobed, i);
    }
    assert forall|i: int| 0 <= i < rest.len() implies all_answered(
        (#[trigger] rest[i]).children,
    ) by {
        if i < frontier.len() - 1 {
            assert(rest[i] == frontier[i]);
        } else {
            let k = i - (frontier.len() - 1);
            assert(rest[i] == kept[k]);
            lemma_keeping_members(filters, dirty_only, dir.children, Verdict::Descend, k);
            let w = choose|w: int| 0 <= w < dir.children.len() && dir.children[w] == kept[k];
            assert(answered(dir.children[w]));
        }
    }
}

/// A walk yields exactly what is owed, where every status query that it
/// can come to runs to its end: each repository that the engine holds, each
/// dirty one among those it is to ask about, and each one owed for the
/// directories of its frontier, as often as it occurs there and no more.
pub proof fn lemma_walk_yields_what_is_owed(
    filters: Filters,
    view: FinderView,
    unprobed: Seq<Node>,
    frontier: Seq<Node>,
)
    requires
        stands_over(view, unprobed, frontier),
        all_queries_run(unprobed, frontier),
    ensures
        walk(filters, view, unprobed, frontier).to_multiset() =~= owed(
            filters,
            view,
            unprobed,
            frontier,
        ),
    decreases weight_of_all(frontier), unprobed.len(), view.matches.len(),
{
    broadcast use vstd::multiset::group_multiset_axioms;

    if view.matches.len() > 0 {
        let rest = walk(filters, view.handed_out(), unprobed, frontier);
        lemma_walk_yields_what_is_owed(filters, view.handed_out(), unprobed, frontier);
        lemma_handing_out_pays_what_is_owed(filters, view, unprobed, frontier);
        lemma_multiset_commutative(seq![view.matches.last()], rest);
        assert(seq![view.matches.last()] =~= Seq::<Seq<char>>::empty().push(view.matches.last()));
        to_multiset_build(Seq::<Seq<char>>::empty(), view.matches.last());
        lemma_nothing_holds_nothing();
    } else if unprobed.len() > 0 {
        let repo = unprobed.last();
        assert(answered(repo));
        let after = view.asked_to_probe().probed(repo.entry.path, repo.status);
        lemma_asking_keeps_what_is_owed(filters, view, unprobed, frontier);
        lemma_walk_yields_what_is_owed(filters, after, unprobed.drop_last(), frontier);
    } else if frontier.len() > 0 {
        let after = view.asked_to_read().listed(filters, entries_of(frontier.last().children));
        assert(unprobed =~= Seq::<Node>::empty());
        lemma_reading_sheds_weight(filters, view.dirty_only, frontier);
        lemma_reading_keeps_what_is_owed(filters, view, frontier);
        lemma_reading_keeps_queries_running(filters, view.dirty_only, frontier);
        lemma_walk_yields_what_is_owed(
            filters,
            after,
            keeping(filters, view.dirty_only, frontier.last().children, Verdict::Unprobed),
            frontier_after_read(filters, view.dirty_only, frontier),
        );
    } else {
        assert(view.matches =~= Seq::<Seq<char>>::empty());
        lemma_nothing_holds_nothing();
    }
}

/// A walk from the roots yields the repositories owed for the roots, each
/// as often as it occurs beneath them: none is left out, and none is
/// yielded twice unless the trees hold it twice. This is stated for a walk
/// that asks for no state, and for one on which every status query runs to
/// its end.
pub proof fn lemma_walk_from_roots(filters: Filters, dirty_only: bool, roots: Seq<Node>)
    requires
        dirty_only ==> all_queries_run(Seq::empty(), roots),
    ensures
        walk(filters, at_start(dirty_only, roots), Seq::empty(), roots).to_multiset()
            =~= repos_beneath(filters, dirty_only, roots),
        forall|path: Seq<char>|
            repos_beneath(filters, dirty_only, roots).count(path) <= 1 ==> #[trigger] walk(
                filters,
                at_start(dirty_only, roots),
                Seq::empty(),
                roots,
            ).to_multiset().count(path) <= 1,
{
    broadcast use vstd::multiset::group_multiset_axioms;

    assert(paths_of(Seq::<Node>::empty()) =~= Seq::<Seq<char>>::empty());
    lemma_nothing_holds_nothing();
    if dirty_only {
        lemma_walk_yields_what_is_owed(filters, at_start(dirty_only, roots), Seq::empty(), roots);
    } else {
        lemma_walk_never_asks(filters, at_start(dirty_only, roots), Seq::empty(), roots);
    }
}

/// A walk that asks for no state yields exactly what is owed, whatever the
/// status queries would say.
pub proof fn lemma_walk_never_asks(
    filters: Filters,
    view: FinderView,
    unprobed: Seq<Node>,
    frontier: Seq<Node>,
)
    requires
        stands_over(view, unprobed, frontier),
        !view.dirty_only,
        unprobed.len() == 0,
    ensures
        walk(filters, view, unprobed, frontier).to_multiset() =~= owed(
            filters,
            view,
            unprobed,
            frontier,
        ),
    decreases weight_of_all(frontier), unprobed.len(), view.matches.len(),
{
    broadcast use vstd::multiset::group_multiset_axioms;

    if view.matches.len() > 0 {
        let rest = walk(filters, view.handed_out(), unprobed, frontier);
        lemma_walk_never_asks(filters, view.handed_out(), unprobed, frontier);
        lemma_handing_out_pays_what_is_owed(filters, view, unprobed, frontier);
        lemma_multiset_commutative(seq![view.matches.last()], rest);
        assert(seq![view.matches.last()] =~= Seq::<Seq<char>>::empty().push(view.matches.last()));
        to_multiset_build(Seq::<Seq<char>>::empty(), view.matches.last());
        lemma_nothing_holds_nothing();
    } else if frontier.len() > 0 {
        let dir = frontier.last();
        let after = view.asked_to_read().listed(filters, entries_of(dir.children));
        let asked = keeping(filters, false, dir.children, Verdict::Unprobed);
        assert(unprobed =~= Seq::<Node>::empty());
        lemma_reading_sheds_weight(filters, false, frontier);
        lemma_reading_keeps_what_is_owed(filters, view, frontier);
        assert(asked.len() == 0) by {
            if asked.len() > 0 {
                let pred = |n: Node| verdict(filters, false, n.entry) == Verdict::Unprobed;
                dir.children.lemma_filter_pred(pred, 0);
            }
        }
        lemma_walk_never_asks(
            filters,
            after,
            asked,
            frontier_after_read(filters, false, frontier),
        );
    } else {
        assert(view.matches =~= Seq::<Seq<char>>::empty());
        lemma_nothing_holds_nothing();
    }
}

/// Without patterns and outside dirty-only mode, what the walk owes for an
/// entry that is not hidden is the entry itself if it is a directory that
/// holds the marker, and what it owes for the entry's children if it is a
/// directory that does not. So the walk yields the directories that hold
/// the marker and can be reached through directories that do not, and
/// never looks beneath one of them.
pub proof fn lemma_open_walk_owes_marked_directories(filters: Filters, node: Node)
    requires
        filters.is_open(),
        !is_hidden(node.entry.name),
    ensures
        repos_in(filters, false, node) == (if !node.entry.is_dir {
            Multiset::empty()
        } else if node.entry.has_marker {
            Multiset::singleton(node.entry.path)
        } else {
            repos_among(filters, false, node.children)
        }),
{
}

/// In dirty-only mode, what the walk owes for a repository that the
/// filters let through is the repository itself if it is dirty, and nothing
/// if it is clean.
pub proof fn lemma_dirty_walk_owes_dirty_repositories(filters: Filters, node: Node)
    requires
        !filters.skips(node.entry),
        node.entry.is_dir,
        node.entry.has_marker,
    ensures
        dirty_verdict(node.status) == Ok::<bool, ProbeError>(true) ==> repos_in(filters, true, node)
            == Multiset::singleton(node.entry.path),
        dirty_verdict(node.status) == Ok::<bool, ProbeError>(false) ==> repos_in(
            filters,
            true,
            node,
        ) == Multiset::<Seq<char>>::empty(),
{
}

} // verus!
