//! Which folders are offered as large and long unused.
use vstd::prelude::*;
use crate::app::{candidates_among, candidates_need_no_other_paths, lowercase, AppView};
use crate::rank::{ranked, ranking_orders_by_size, size_keys};
use crate::sort::{sorted_pairs, sorting_orders_the_pairs};
use crate::text::stands_at;
use crate::time::{representable, Timestamp};
use crate::tree::NodeView;

verus! {

/// Whether a text stands somewhere in another; the empty text does everywhere.
pub open spec fn occurs(text: Seq<char>, inside: Seq<char>) -> bool {
    exists|at: int|
        0 <= at && at + text.len() <= inside.len() && #[trigger] inside.subrange(
            at,
            at + text.len(),
        ) == text
}

/// Whether a folder is to be offered: it is fully known, its age is at least the
/// asked number of days, its size at least the asked number of mebibytes (or more
/// than can be counted), and the searched text stands in its path.
pub open spec fn qualifies(app: AppView, node: NodeView, path: Seq<char>, query: Seq<char>) -> bool {
    &&& !node.incomplete
    &&& node.age(app.access, app.now) is Some
    &&& node.age(app.access, app.now)->0 >= app.days
    &&& node.bytes >= app.min_mb * 1_048_576 || node.bytes == u64::MAX
    &&& occurs(query, path)
}

/// How many of the first `n` folders are to be offered.
pub open spec fn how_many(
    app: AppView,
    tree: Seq<NodeView>,
    paths: Seq<Seq<char>>,
    query: Seq<char>,
    n: int,
) -> nat
    decreases n,
{
    if n <= 0 {
        0
    } else {
        how_many(app, tree, paths, query, n - 1) + if qualifies(
            app,
            tree[n - 1],
            paths[n - 1],
            query,
        ) {
            1nat
        } else {
            0
        }
    }
}

proof fn the_empty_text_occurs(text: Seq<char>, inside: Seq<char>)
    ensures
        text.len() == 0 ==> occurs(text, inside),
        (exists|at: int| stands_at(inside, text, at)) <==> occurs(text, inside),
{
    if text.len() == 0 {
        assert(inside.subrange(0, 0int + text.len()) =~= text);
    }
    if occurs(text, inside) {
        let at = choose|at: int|
            0 <= at && at + text.len() <= inside.len() && #[trigger] inside.subrange(
                at,
                at + text.len(),
            ) == text;
        assert(stands_at(inside, text, at));
    }
}

proof fn those_that_qualify(
    app: AppView,
    tree: Seq<NodeView>,
    paths: Seq<Seq<char>>,
    query: Seq<char>,
    n: int,
)
    requires
        0 <= n <= tree.len() <= usize::MAX,
    ensures
        ({
            let ids = candidates_among(app, tree, paths, query, n);
            &&& ids.len() == how_many(app, tree, paths, query, n)
            &&& forall|k: int| 0 <= k < ids.len() ==> (#[trigger] ids[k]) < n
            &&& forall|i: int, j: int| 0 <= i < j < ids.len() ==> ids[i] < ids[j]
            &&& forall|id: usize|
                id < n ==> (#[trigger] ids.contains(id) <==> qualifies(
                    app,
                    tree[id as int],
                    paths[id as int],
                    query,
                ))
        }),
    decreases n,
{
    if n > 0 {
        those_that_qualify(app, tree, paths, query, n - 1);
        the_empty_text_occurs(query, paths[n - 1]);
        let rest = candidates_among(app, tree, paths, query, n - 1);
        let ids = candidates_among(app, tree, paths, query, n);
        let last = (n - 1) as usize;
        assert(qualifies(app, tree[n - 1], paths[n - 1], query) <==> ids == rest.push(last));
        assert forall|id: usize| id < n implies (#[trigger] ids.contains(id) <==> qualifies(
            app,
            tree[id as int],
            paths[id as int],
            query,
        )) by {
            if ids == rest.push(last) {
                assert(ids[rest.len() as int] == last);
                if rest.contains(id) {
                    let k = choose|k: int| 0 <= k < rest.len() && rest[k] == id;
                    assert(ids[k] == id);
                }
            }
            if id < n - 1 {
                assert(rest.contains(id) <==> qualifies(
                    app,
                    tree[id as int],
                    paths[id as int],
                    query,
                ));
            }
        }
    }
}

/// Ranking names no folder twice, and of folders of the same size it names the
/// earlier one first.
pub proof fn ranking_names_each_folder_once(tree: Seq<NodeView>, ids: Seq<usize>)
    requires
        ids.no_duplicates(),
    ensures
        ranked(tree, ids).no_duplicates(),
        forall|i: int, j: int|
            0 <= i < j < ids.len() && tree[#[trigger] ranked(tree, ids)[i] as int].bytes
                == tree[#[trigger] ranked(tree, ids)[j] as int].bytes ==> ranked(tree, ids)[i]
                < ranked(tree, ids)[j],
{
    let r = ranked(tree, ids);
    ranking_orders_by_size(tree, ids);
    ids.unique_seq_to_set();
    assert(r.to_set() =~= ids.to_set()) by {
        assert forall|id: usize| r.to_set().contains(id) <==> ids.to_set().contains(id) by {
            assert(r.contains(id) <==> ids.contains(id));
        }
    }
    r.lemma_no_dup_set_cardinality();
    let keys = size_keys(tree, ids);
    let sorted = sorted_pairs(keys);
    sorting_orders_the_pairs(keys);
    assert forall|i: int, j: int|
        0 <= i < j < ids.len() && tree[#[trigger] r[i] as int].bytes == tree[#[trigger] r[j] as int].bytes implies r[i]
        < r[j] by {
        assert(sorted.contains(sorted[i]) && sorted.contains(sorted[j]));
        let a = choose|m: int| 0 <= m < keys.len() && keys[m] == sorted[i];
        let b = choose|m: int| 0 <= m < keys.len() && keys[m] == sorted[j];
        assert(ids[a] == r[i] && ids[b] == r[j]);
        assert(crate::sort::pair_le(sorted[i], sorted[j]));
        assert(r[i] != r[j]);
    }
}

/// Whether a window lists exactly the folders that are to be offered, up to the
/// 200 largest: each once, larger ones first, and the earlier one of two of the
/// same size first.
pub open spec fn offers(
    app: AppView,
    listing: AppView,
    tree: Seq<NodeView>,
    paths: Seq<Seq<char>>,
    query: Seq<char>,
) -> bool {
    let listed = listing.candidates;
    &&& listing.candidate_count == how_many(app, tree, paths, query, tree.len() as int)
    &&& listed.len() == if listing.candidate_count > 200 {
        200
    } else {
        listing.candidate_count as int
    }
    &&& forall|k: int|
        0 <= k < listed.len() ==> (#[trigger] listed[k]) < tree.len() && qualifies(
            app,
            tree[listed[k] as int],
            paths[listed[k] as int],
            query,
        )
    &&& forall|i: int|
        0 <= i < tree.len() && qualifies(app, #[trigger] tree[i], paths[i], query) ==> listed.contains(
            i as usize,
        ) || (listed.len() == 200 && forall|k: int|
            0 <= k < 200 ==> tree[#[trigger] listed[k] as int].bytes >= tree[i].bytes)
    &&& forall|i: int, j: int|
        0 <= i < j < listed.len() ==> {
            let (a, b) = (#[trigger] listed[i], #[trigger] listed[j]);
            tree[a as int].bytes > tree[b as int].bytes || (tree[a as int].bytes
                == tree[b as int].bytes && a < b)
        }
    &&& listing == AppView {
        candidates: listed,
        candidate_count: listing.candidate_count,
        ..app
    }
}

/// Every listed candidate has an age of at least the asked days and a size of at
/// least the asked mebibytes, is fully known and has the searched text in its path,
/// and every such folder is listed, up to the 200 largest.
pub proof fn candidates_are_those_that_qualify_among(
    app: AppView,
    paths: Seq<Seq<char>>,
    query: Seq<char>,
)
    requires
        app.report is Some,
        !app.report->0.scanning,
        app.report->0.nodes.len() <= usize::MAX,
    ensures
        offers(
            app,
            app.with_candidates_among(paths, query),
            app.report->0.nodes,
            paths,
            query,
        ),
{
    let tree = app.report->0.nodes;
    let n = tree.len() as int;
    let ids = candidates_among(app, tree, paths, query, n);
    let all = ranked(tree, ids);
    let listing = app.with_candidates_among(paths, query);
    let listed = listing.candidates;
    those_that_qualify(app, tree, paths, query, n);
    how_many_at_most(app, tree, paths, query, n);
    ranking_orders_by_size(tree, ids);
    ranking_names_each_folder_once(tree, ids);
    assert forall|k: int| 0 <= k < all.len() implies (#[trigger] all[k]) < tree.len() && qualifies(
        app,
        tree[all[k] as int],
        paths[all[k] as int],
        query,
    ) by {
        assert(all.contains(all[k]));
        assert(ids.contains(all[k]));
    }
    assert forall|k: int| 0 <= k < listed.len() implies #[trigger] listed[k] == all[k] by {}
    assert forall|i: int|
        0 <= i < tree.len() && qualifies(
            app,
            #[trigger] tree[i],
            paths[i],
            query,
        ) implies listed.contains(i as usize) || (listed.len() == 200 && forall|k: int|
        0 <= k < 200 ==> tree[#[trigger] listed[k] as int].bytes >= tree[i].bytes) by {
        assert(ids.contains(i as usize));
        assert(all.contains(i as usize));
        let m = choose|m: int| 0 <= m < all.len() && all[m] == i as usize;
        if m < listed.len() {
            assert(listed[m] == i as usize);
        } else {
            assert forall|k: int| 0 <= k < 200 implies tree[#[trigger] listed[k] as int].bytes
                >= tree[i].bytes by {
                assert(tree[all[k] as int].bytes >= tree[all[m] as int].bytes);
            }
        }
    }
    assert forall|i: int, j: int| 0 <= i < j < listed.len() implies ({
        let (a, b) = (#[trigger] listed[i], #[trigger] listed[j]);
        tree[a as int].bytes > tree[b as int].bytes || (tree[a as int].bytes
            == tree[b as int].bytes && a < b)
    }) by {
        assert(tree[all[i] as int].bytes >= tree[all[j] as int].bytes);
    }
}

proof fn how_many_at_most(
    app: AppView,
    tree: Seq<NodeView>,
    paths: Seq<Seq<char>>,
    query: Seq<char>,
    n: int,
)
    requires
        0 <= n,
    ensures
        how_many(app, tree, paths, query, n) <= n,
    decreases n,
{
    if n > 0 {
        how_many_at_most(app, tree, paths, query, n - 1);
    }
}

/// The window offers the folders that qualify by their own paths and by what is
/// searched, both in lower case; without a map, or while one is a preview, none.
pub proof fn candidates_are_those_that_qualify(app: AppView)
    requires
        app.report matches Some(r) ==> r.nodes.len() <= usize::MAX,
    ensures
        app.report is Some && !app.report->0.scanning ==> offers(
            app,
            app.with_candidates(),
            app.report->0.nodes,
            Seq::new(
                app.report->0.nodes.len(),
                |i: int| lowercase(app.report->0.nodes[i].path.text()),
            ),
            lowercase(app.query),
        ),
        app.report is None || app.report->0.scanning ==> app.with_candidates() == (AppView {
            candidates: seq![],
            candidate_count: 0,
            ..app
        }),
{
    if app.report is Some && !app.report->0.scanning {
        let tree = app.report->0.nodes;
        let paths = Seq::new(tree.len(), |i: int| lowercase(tree[i].path.text()));
        candidates_need_no_other_paths(
            app,
            tree,
            paths,
            lowercase(app.query),
            tree.len() as int,
        );
        candidates_are_those_that_qualify_among(app, paths, lowercase(app.query));
        assert(paths =~= Seq::new(
            app.report->0.nodes.len(),
            |i: int| lowercase(app.report->0.nodes[i].path.text()),
        ));
    }
}

/// The age of a folder is the number of whole days of 86 400 seconds from its date
/// to now, none for a date that is still to come; it is known exactly where the
/// date is known and none is missing below.
pub proof fn ages_count_whole_days(node: NodeView, access: bool, now: Timestamp)
    requires
        representable(now@),
        node.modified matches Some(t) ==> representable(t@),
        node.accessed matches Some(t) ==> representable(t@),
    ensures
        access ==> (node.age(access, now) is Some <==> node.accessed is Some
            && !node.missing_accessed),
        !access ==> (node.age(access, now) is Some <==> node.modified is Some
            && !node.missing_modified),
        node.age(access, now) matches Some(days) ==> {
            let date = if access {
                node.accessed->0@
            } else {
                node.modified->0@
            };
            if date >= now@ {
                days == 0
            } else {
                date + days * 86_400_000_000_000 <= now@ < date + (days + 1) * 86_400_000_000_000
            }
        },
{
}

} // verus!
