//! What the folders around a refreshed one show, and what a refreshed map tells.
use vstd::prelude::*;
use crate::below::{not_before, shows_sum};
use crate::merge::{can_merge, is_merge, merge_plan, merged_issues, merged_progress, reopened};
use crate::merge_laws::{merged_nodes_are_planned, plan_facts};
use crate::scan::ReportView;
use crate::tree::{open_node, subfolder_totals, NodeView, Totals};

verus! {

/// Whether folder `j` lies directly in folder `p`.
pub open spec fn is_in(tree: Seq<NodeView>, j: int, p: int) -> bool {
    0 <= j < tree.len() && tree[j].parent == Some(p as usize)
}

/// The sizes of the folders directly in folder `p`, from `from` on.
pub open spec fn bytes_inside(tree: Seq<NodeView>, p: int, from: int) -> int
    decreases tree.len() - from,
{
    if from >= tree.len() {
        0
    } else {
        bytes_inside(tree, p, from + 1) + if tree[from].parent == Some(p as usize) {
            tree[from].bytes as int
        } else {
            0
        }
    }
}

/// How many files the folders directly in folder `p` show, from `from` on.
pub open spec fn files_inside(tree: Seq<NodeView>, p: int, from: int) -> int
    decreases tree.len() - from,
{
    if from >= tree.len() {
        0
    } else {
        files_inside(tree, p, from + 1) + if tree[from].parent == Some(p as usize) {
            tree[from].files as int
        } else {
            0
        }
    }
}

spec fn gathers_inside(t: Totals, tree: Seq<NodeView>, p: int, from: int) -> bool {
    &&& shows_sum(t.bytes, bytes_inside(tree, p, from))
    &&& shows_sum(t.files, files_inside(tree, p, from))
    &&& bytes_inside(tree, p, from) >= 0
    &&& files_inside(tree, p, from) >= 0
    &&& forall|j: int|
        from <= j && #[trigger] is_in(tree, j, p) ==> {
            &&& not_before(t.modified, tree[j].modified)
            &&& not_before(t.accessed, tree[j].accessed)
            &&& tree[j].missing_modified ==> t.missing_modified
            &&& tree[j].missing_accessed ==> t.missing_accessed
            &&& tree[j].incomplete ==> t.incomplete
        }
    &&& t.modified is Some ==> exists|j: int|
        from <= j && #[trigger] is_in(tree, j, p) && tree[j].modified == t.modified
    &&& t.accessed is Some ==> exists|j: int|
        from <= j && #[trigger] is_in(tree, j, p) && tree[j].accessed == t.accessed
    &&& t.missing_modified ==> exists|j: int|
        from <= j && #[trigger] is_in(tree, j, p) && tree[j].missing_modified
    &&& t.missing_accessed ==> exists|j: int|
        from <= j && #[trigger] is_in(tree, j, p) && tree[j].missing_accessed
    &&& t.incomplete ==> exists|j: int|
        from <= j && #[trigger] is_in(tree, j, p) && tree[j].incomplete
}

proof fn subfolders_are_gathered(tree: Seq<NodeView>, p: int, from: int)
    requires
        0 <= from,
    ensures
        gathers_inside(subfolder_totals(tree, p, from), tree, p, from),
    decreases tree.len() - from,
{
    if from < tree.len() {
        subfolders_are_gathered(tree, p, from + 1);
        assert(is_in(tree, from, p) <==> tree[from].parent == Some(p as usize));
    }
}

/// The subfolders of a folder have the sum of their sizes together.
pub proof fn subfolder_bytes_add_up(tree: Seq<NodeView>, p: int)
    ensures
        shows_sum(subfolder_totals(tree, p, 0).bytes, bytes_inside(tree, p, 0)),
        bytes_inside(tree, p, 0) >= 0,
{
    subfolders_are_gathered(tree, p, 0);
}

/// A folder around the refreshed one shows its newly read direct files together with
/// its subfolders as they are now: their sizes and numbers of files add up, the dates
/// are the latest among them, and a mark stands where one of them has it. A mark that
/// the folder had for being partly known stays.
pub proof fn folders_around_show_what_is_in_them(
    base: Seq<NodeView>,
    target: int,
    replacement: Option<Seq<NodeView>>,
    direct: Map<usize, NodeView>,
    tree: Seq<NodeView>,
    k: int,
    at: usize,
)
    requires
        can_merge(base, target, replacement),
        is_merge(base, target, replacement, direct, tree),
        tree.len() <= usize::MAX,
        0 <= k < tree.len(),
        merge_plan(base, target, replacement)[k].source == at,
        at < base.len(),
        direct.contains_key(at),
    ensures
        ({
            let read = direct[at];
            let now = tree[k];
            &&& now.path == base[at as int].path
            &&& now.own_bytes == read.own_bytes
            &&& shows_sum(now.bytes, read.own_bytes + bytes_inside(tree, k, 0))
            &&& shows_sum(now.files, read.files + files_inside(tree, k, 0))
            &&& not_before(now.modified, read.modified)
            &&& not_before(now.accessed, read.accessed)
            &&& forall|j: int| #[trigger]
                is_in(tree, j, k) ==> not_before(now.modified, tree[j].modified) && not_before(
                    now.accessed,
                    tree[j].accessed,
                )
            &&& now.modified is Some ==> now.modified == read.modified || exists|j: int| #[trigger]
                is_in(tree, j, k) && tree[j].modified == now.modified
            &&& now.accessed is Some ==> now.accessed == read.accessed || exists|j: int| #[trigger]
                is_in(tree, j, k) && tree[j].accessed == now.accessed
            &&& now.missing_modified <==> read.missing_modified || exists|j: int| #[trigger]
                is_in(tree, j, k) && tree[j].missing_modified
            &&& now.missing_accessed <==> read.missing_accessed || exists|j: int| #[trigger]
                is_in(tree, j, k) && tree[j].missing_accessed
            &&& now.incomplete <==> base[at as int].incomplete || read.incomplete || exists|j: int| #[trigger]
                is_in(tree, j, k) && tree[j].incomplete
        }),
{
    let plan = merge_plan(base, target, replacement);
    let n = plan.len() as int;
    plan_facts(base, target, replacement);
    merged_nodes_are_planned(base, replacement, direct, plan, n);
    let raw = crate::merge::merged_nodes(base, replacement, direct, plan, n);
    assert(tree[k] == open_node(raw, tree, reopened(base, direct, plan), k, 0));
    let m = crate::merge::merged_node(base, replacement, direct, plan[k]);
    assert(raw[k] == (NodeView { children: raw[k].children, ..m }));
    subfolders_are_gathered(tree, k, 0);
    let t = subfolder_totals(tree, k, 0);
    assert(gathers_inside(t, tree, k, 0));
    assert(forall|j: int| #[trigger] is_in(tree, j, k) ==> 0 <= j);
}

/// A refreshed map shows the totals of its root, counts its folders, and adds the
/// errors and skipped items of the new scan to those it had. It tells the problems of
/// the old map and then those of the new scan, one hundred at most; a folder that is
/// gone adds none.
pub proof fn refreshed_maps_count_on(
    base: ReportView,
    target: int,
    replacement: Option<ReportView>,
    tree: Seq<NodeView>,
)
    requires
        tree.len() <= usize::MAX,
    ensures
        ({
            let p = merged_progress(base, target, replacement, tree);
            let issues = merged_issues(base, replacement);
            &&& p.bytes == tree[0].bytes
            &&& p.files == tree[0].files
            &&& p.folders == tree.len()
            &&& p.current == base.nodes[target].path
            &&& p.records == 0
            &&& p.total_records == 0
            &&& p.engine == base.progress.engine
            &&& p.note == base.progress.note
            &&& replacement matches Some(new) ==> {
                &&& shows_sum(p.errors, base.progress.errors + new.progress.errors)
                &&& shows_sum(p.skipped, base.progress.skipped + new.progress.skipped)
                &&& issues.len() == (if base.issues.len() + new.issues.len() > 100 {
                    100
                } else {
                    base.issues.len() + new.issues.len()
                })
                &&& forall|k: int|
                    0 <= k < issues.len() ==> #[trigger] issues[k] == if k < base.issues.len() {
                        base.issues[k]
                    } else {
                        new.issues[k - base.issues.len()]
                    }
            }
            &&& replacement is None ==> p.errors == base.progress.errors && p.skipped
                == base.progress.skipped && issues == base.issues
        }),
{
}

} // verus!
