//! What holds across the parts of the program.
use vstd::prelude::*;
use crate::app::{candidate_ids, is_candidate, nearest, position_from, showable, AppView, MAX_CANDIDATES};
use crate::cache::snapshot::{fault, maps_without_fault, refusal};
use crate::merge::{can_merge, is_merge};
use crate::merge_laws::{covers_the_way_up, merged_paths_are_nested, merged_sizes_add_up, other_folders_stay};
use crate::path::PathView;
use crate::preserve::children_follow;
use crate::rank::{ranked, ranking_orders_by_size};
use crate::scan::ReportView;
use crate::subtree::{stopped, Answer, Refresh};
use crate::time::{representable, Timestamp};
use crate::tree::{added_up, children_of, nested, partial_maps_mark_every_folder, shaped, sizes_add_up, totals_cover_the_subfolders, NodeView};

verus! {

/// A finished map is saved: whatever a scan that was not stopped gives can be
/// kept, where the scanned path is absolute.
pub proof fn finished_maps_are_saved(report: ReportView, saved_at: int, root: Seq<u16>)
    requires
        !report.cancelled,
        !report.scanning,
        shaped(report.nodes),
        nested(report.nodes),
        sizes_add_up(report.nodes),
        report.nodes[0].path.absolute,
        saved_at >= 0,
    ensures
        refusal(report, saved_at, Ok(root)) is None,
{
    maps_without_fault(report.nodes);
}

/// A map that was stopped, or is only a preview, is never saved.
pub proof fn stopped_maps_are_not_saved(
    report: ReportView,
    saved_at: int,
    root: Result<Seq<u16>, Seq<char>>,
)
    requires
        report.cancelled || report.scanning,
    ensures
        refusal(report, saved_at, root) is Some,
{
}

/// A refreshed map has no fault where the old map and the newly scanned folder
/// have none: it can be saved and shown again.
pub proof fn refreshed_maps_have_no_fault(
    base: Seq<NodeView>,
    target: int,
    replacement: Option<Seq<NodeView>>,
    direct: Map<usize, NodeView>,
    tree: Seq<NodeView>,
)
    requires
        can_merge(base, target, replacement),
        fault(base) is None,
        replacement matches Some(r) ==> nested(r) && sizes_add_up(r) && r[0].path.same(
            base[target].path,
        ),
        covers_the_way_up(base, target, direct),
        is_merge(base, target, replacement, direct, tree),
        shaped(tree),
    ensures
        fault(tree) is None,
{
    maps_without_fault(base);
    merged_paths_are_nested(base, target, replacement, direct, tree);
    merged_sizes_add_up(base, target, replacement, direct, tree);
    other_folders_stay(base, target, replacement, direct, tree, 0);
    crate::merge_laws::plan_starts_at_the_root(base, target, replacement);
    maps_without_fault(tree);
}

/// Every tree can be shown.
pub proof fn trees_can_be_shown(tree: Seq<NodeView>)
    requires
        shaped(tree),
    ensures
        showable(tree),
{
    assert forall|i: int, k: int| 0 <= i < tree.len() && 0 <= k < tree[i].children.len() implies (
    #[trigger] tree[i].children[k]) < tree.len() by {
        assert(tree[i].children == children_of(tree, i, tree.len() as int));
        children_follow(tree, i, tree.len() as int);
    }
}

proof fn candidate_ids_are_candidates(app: AppView, tree: Seq<NodeView>, n: int)
    requires
        0 <= n <= tree.len() <= usize::MAX,
    ensures
        forall|k: int|
            0 <= k < candidate_ids(app, tree, n).len() ==> (#[trigger] candidate_ids(app, tree, n)[k])
                < n && is_candidate(app, tree[candidate_ids(app, tree, n)[k] as int]),
    decreases n,
{
    if n > 0 {
        candidate_ids_are_candidates(app, tree, n - 1);
        let rest = candidate_ids(app, tree, n - 1);
        let all = candidate_ids(app, tree, n);
        assert forall|k: int| 0 <= k < all.len() implies (#[trigger] all[k]) < n && is_candidate(
            app,
            tree[all[k] as int],
        ) by {
            if k < rest.len() {
                assert(all[k] == rest[k]);
            }
        }
    }
}

/// Every listed candidate is fully known, dated, large and old enough, and
/// larger ones come first; a preview lists none.
pub proof fn candidates_are_large_and_old(app: AppView, i: int, j: int)
    requires
        app.report is Some,
        app.report->0.nodes.len() <= usize::MAX,
        0 <= i <= j < app.with_candidates().candidates.len(),
    ensures
        ({
            let tree = app.report->0.nodes;
            let listed = app.with_candidates().candidates;
            &&& !app.report->0.scanning
            &&& listed.len() <= MAX_CANDIDATES
            &&& is_candidate(app, tree[listed[i] as int])
            &&& !tree[listed[i] as int].incomplete
            &&& tree[listed[i] as int].age(app.access, app.now) is Some
            &&& tree[listed[i] as int].bytes >= tree[listed[j] as int].bytes
        }),
{
    let tree = app.report->0.nodes;
    let n = tree.len() as int;
    let ids = candidate_ids(app, tree, n);
    let all = ranked(tree, ids);
    candidate_ids_are_candidates(app, tree, n);
    ranking_orders_by_size(tree, ids);
    assert(all.contains(all[i]));
    assert(ids.contains(all[i]));
    let k = choose|k: int| 0 <= k < ids.len() && ids[k] == all[i];
    assert(is_candidate(app, tree[ids[k] as int]));
}

proof fn no_candidates_among_incomplete_folders(app: AppView, tree: Seq<NodeView>, n: int)
    requires
        0 <= n <= tree.len(),
        forall|i: int| 0 <= i < tree.len() ==> (#[trigger] tree[i]).incomplete,
    ensures
        candidate_ids(app, tree, n).len() == 0,
    decreases n,
{
    if n > 0 {
        no_candidates_among_incomplete_folders(app, tree, n - 1);
        assert(tree[n - 1].incomplete);
    }
}

/// A map that was stopped offers no candidates.
pub proof fn stopped_maps_offer_no_candidates(app: AppView, raw: Seq<NodeView>)
    requires
        app.report is Some,
        added_up(raw, app.report->0.nodes, true),
    ensures
        app.with_candidates().candidates.len() == 0,
        app.with_candidates().candidate_count == 0,
{
    let tree = app.report->0.nodes;
    partial_maps_mark_every_folder(raw, tree);
    no_candidates_among_incomplete_folders(app, tree, tree.len() as int);
    ranking_orders_by_size(tree, candidate_ids(app, tree, tree.len() as int));
}

/// Whether the dates of a folder are instants that exist.
pub open spec fn dates_exist(node: NodeView) -> bool {
    &&& node.modified matches Some(t) ==> representable(t@)
    &&& node.accessed matches Some(t) ==> representable(t@)
}

/// A folder has rested no longer than any of its subfolders, and its age is
/// unknown where a date is missing in one.
pub proof fn folders_have_the_age_of_the_latest_change(
    raw: Seq<NodeView>,
    tree: Seq<NodeView>,
    partial: bool,
    i: int,
    access: bool,
    now: Timestamp,
)
    requires
        added_up(raw, tree, partial),
        0 <= i < tree.len() <= usize::MAX,
        tree[i].parent is Some,
        tree[i].parent->0 < tree.len(),
        dates_exist(tree[i]),
        dates_exist(tree[tree[i].parent->0 as int]),
        representable(now@),
    ensures
        ({
            let above = tree[tree[i].parent->0 as int];
            let missing = if access {
                tree[i].missing_accessed
            } else {
                tree[i].missing_modified
            };
            &&& missing ==> above.age(access, now) is None
            &&& above.age(access, now) is Some && tree[i].age(access, now) is Some
                ==> above.age(access, now)->0 <= tree[i].age(access, now)->0
        }),
{
    totals_cover_the_subfolders(raw, tree, partial, i);
}

/// A refresh that failed leaves the map, the open folder, the selection and the
/// date of the saved map as they were.
pub proof fn failed_refreshes_keep_the_map(app: AppView, message: Seq<char>)
    ensures
        ({
            let after = app.refresh_failed(message);
            &&& after.report == app.report
            &&& after.focus == app.focus
            &&& after.children == app.children
            &&& after.selected_path == app.selected_path
            &&& after.cached_at == app.cached_at
            &&& after.candidates == app.candidates
            &&& !after.refreshing
        }),
{
}

/// That a folder was deleted is believed only once the folder above it was
/// listed to its end; until then nothing is read anew or merged.
pub proof fn deletions_are_confirmed(
    tree: Seq<NodeView>,
    state: Refresh,
    answer: Answer,
    cancelled: bool,
)
    requires
        state.valid(tree),
        state.removed is Some,
        state.phase !is Reading && state.phase !is Merging,
        state.after(tree, answer, cancelled) is Ok,
        ({
            let next = state.after(tree, answer, cancelled)->Ok_0.phase;
            next is Reading || next is Merging || next is Replaced
        }),
    ensures
        state.phase is Listing,
        answer is End,
{
}

/// A missing root is no deletion: the map is kept.
pub proof fn a_missing_root_keeps_the_map(
    tree: Seq<NodeView>,
    state: Refresh,
    error: String,
    cancelled: bool,
)
    requires
        state.valid(tree),
        state.phase is Locating,
        state.cursor == 0,
    ensures
        state.after(tree, Answer::Missing(error), cancelled) is Err,
{
}

/// A refresh that is stopped ends without a new map: neither a scan that came
/// to its end nor direct files that were read lead further.
pub proof fn stopped_refreshes_end(tree: Seq<NodeView>, state: Refresh, answer: Answer)
    requires
        state.valid(tree),
        (state.phase is Scanning && answer is Scanned) || (state.phase is Reading
            && answer is Read) || (state.phase is Listing && answer is Entry),
    ensures
        state.after(tree, answer, true) == Err::<Refresh, Seq<char>>(stopped()),
{
}

/// The path `n` folders further up.
pub open spec fn ancestor(path: PathView, n: nat) -> PathView
    decreases n,
{
    if n == 0 {
        path
    } else {
        ancestor(path.up(), (n - 1) as nat)
    }
}

proof fn nearest_is_the_first_that_exists(tree: Seq<NodeView>, path: PathView, n: nat)
    requires
        n <= path.names.len(),
        forall|k: nat| k < n ==> position_from(tree, #[trigger] ancestor(path, k), 0) is None,
        position_from(tree, ancestor(path, n), 0) is Some,
    ensures
        nearest(tree, path) == position_from(tree, ancestor(path, n), 0),
    decreases n,
{
    if n > 0 {
        let up = path.up();
        assert(ancestor(path, 0) == path);
        assert forall|k: nat| k < n - 1 implies position_from(
            tree,
            #[trigger] ancestor(up, k),
            0,
        ) is None by {
            assert(ancestor(path, k + 1) == ancestor(up, k));
        }
        nearest_is_the_first_that_exists(tree, up, (n - 1) as nat);
    }
}

/// A new map keeps the open folder open where it still exists; where it does
/// not, the nearest folder around it that exists is opened.
pub proof fn open_folders_stay_open(app: AppView, report: ReportView, n: nat)
    requires
        app.report is Some,
        report.nodes.len() <= usize::MAX,
        n <= app.report->0.nodes[app.focus as int].path.names.len(),
        forall|k: nat|
            k < n ==> position_from(
                report.nodes,
                #[trigger] ancestor(app.report->0.nodes[app.focus as int].path, k),
                0,
            ) is None,
        position_from(
            report.nodes,
            ancestor(app.report->0.nodes[app.focus as int].path, n),
            0,
        ) is Some,
    ensures
        app.with_report(report).focus < report.nodes.len(),
        report.nodes[app.with_report(report).focus as int].path.same(
            ancestor(app.report->0.nodes[app.focus as int].path, n),
        ),
{
    let path = app.report->0.nodes[app.focus as int].path;
    nearest_is_the_first_that_exists(report.nodes, path, n);
    found_where_it_stands(report.nodes, ancestor(path, n), 0);
}

proof fn found_where_it_stands(tree: Seq<NodeView>, path: PathView, from: int)
    requires
        0 <= from <= tree.len(),
    ensures
        position_from(tree, path, from) matches Some(i) ==> from <= i < tree.len() && tree[i].path.same(
            path,
        ),
        position_from(tree, path, from) is None ==> forall|i: int|
            from <= i < tree.len() ==> !(#[trigger] tree[i]).path.same(path),
    decreases tree.len() - from,
{
    if from < tree.len() {
        found_where_it_stands(tree, path, from + 1);
    }
}

/// A selection follows its path into a new map, and is given up where no folder
/// has that path any more.
pub proof fn selections_follow_their_path(app: AppView, report: ReportView)
    ensures
        ({
            let after = app.with_report(report).selected_path;
            match app.selected_path {
                None => after is None,
                Some(path) => if exists|i: int|
                    0 <= i < report.nodes.len() && (#[trigger] report.nodes[i]).path.same(path) {
                    after == Some(path)
                } else {
                    after is None
                },
            }
        }),
{
    if let Some(path) = app.selected_path {
        found_where_it_stands(report.nodes, path, 0);
    }
}

} // verus!
