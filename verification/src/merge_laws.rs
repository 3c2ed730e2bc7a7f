//! What holds of every merged map.
use vstd::prelude::*;
use crate::merge::{can_merge, combined, is_merge, is_open, merge_plan, merged_node, merged_nodes, planned, planning_goes_on, redirected, reopened, root_source, shifted, source_node};
use crate::preserve::{children_follow, source_is_a_child};
use crate::spread::{in_rows, ordered, sources_below, sources_exist, spread, spreading_keeps_rows, spreading_shrinks, starting, row, waiting, Placement};
use crate::tree::{children_of, nested, open_node, saturated, shaped, sizes_add_up, subfolder_totals, NodeView};

verus! {

/// Whether what was newly read covers the folders around the target, and only old folders around it.
pub open spec fn covers_the_way_up(
    base: Seq<NodeView>,
    target: int,
    direct: Map<usize, NodeView>,
) -> bool {
    &&& base[target].parent is Some
    &&& direct.contains_key(base[target].parent->0)
    &&& forall|i: usize|
        #![trigger direct.contains_key(i)]
        direct.contains_key(i) && i < base.len() ==> (base[i as int].parent matches Some(p)
            ==> direct.contains_key(p))
}

/// A spread list keeps its rows to the end.
pub proof fn spreading_ends_in_rows(kids: Seq<Seq<usize>>, list: Seq<Placement>, next: int)
    requires
        ordered(kids),
        sources_exist(kids, list),
        in_rows(kids, list, next),
        0 <= next <= list.len(),
        spread(kids, list, next).len() <= usize::MAX,
    ensures
        ({
            let all = spread(kids, list, next);
            &&& in_rows(kids, all, all.len() as int)
            &&& sources_exist(kids, all)
            &&& all.len() >= list.len()
            &&& forall|k: int| 0 <= k < list.len() ==> all[k] == list[k]
            &&& forall|k: int| list.len() <= k < all.len() ==> (#[trigger] all[k]).parent is Some
        }),
    decreases waiting(kids, list, next),
{
    if next < list.len() {
        let more = list + row(kids[list[next].source as int], next);
        spreading_shrinks(kids, list, next);
        list_is_no_longer(kids, list, next);
        spreading_keeps_rows(kids, list, next);
        spreading_ends_in_rows(kids, more, next + 1);
        let all = spread(kids, more, next + 1);
        assert forall|k: int| 0 <= k < list.len() implies all[k] == list[k] by {
            assert(all[k] == more[k]);
        }
        assert forall|k: int| list.len() <= k < all.len() implies (#[trigger] all[k]).parent is Some by {
            if k < more.len() {
                assert(all[k] == more[k]);
            }
        }
    }
}

proof fn list_is_no_longer(kids: Seq<Seq<usize>>, list: Seq<Placement>, next: int)
    requires
        ordered(kids),
        sources_exist(kids, list),
        0 <= next <= list.len(),
    ensures
        list.len() <= spread(kids, list, next).len(),
    decreases waiting(kids, list, next),
{
    if next < list.len() {
        spreading_shrinks(kids, list, next);
        list_is_no_longer(kids, list + row(kids[list[next].source as int], next), next + 1);
    }
}

proof fn redirected_has(
    children: Seq<usize>,
    target: int,
    replacement: Option<usize>,
    n: int,
    y: usize,
)
    requires
        0 <= n <= children.len(),
        redirected(children, target, replacement, n).contains(y),
    ensures
        children.contains(y) || (replacement == Some(y) && exists|k: int|
            0 <= k < children.len() && children[k] == target),
    decreases n,
{
    if n > 0 {
        let rest = redirected(children, target, replacement, n - 1);
        let all = redirected(children, target, replacement, n);
        let i = choose|i: int| 0 <= i < all.len() && all[i] == y;
        if i < rest.len() {
            assert(rest[i] == y);
            redirected_has(children, target, replacement, n - 1, y);
        } else if children[n - 1] != target {
            assert(children[n - 1] == y);
        } else {
            assert(children[n - 1] == target);
        }
    }
}

/// A merged map's plan: every folder but the root lies below an earlier one.
pub proof fn plan_facts(base: Seq<NodeView>, target: int, replacement: Option<Seq<NodeView>>)
    requires
        can_merge(base, target, replacement),
        merge_plan(base, target, replacement).len() <= usize::MAX,
    ensures
        ({
            let kids = combined(base, target, replacement);
            let plan = merge_plan(base, target, replacement);
            &&& ordered(kids)
            &&& in_rows(kids, plan, plan.len() as int)
            &&& sources_exist(kids, plan)
            &&& plan.len() > 0
            &&& plan[0] == (Placement { source: root_source(base, target), parent: None })
            &&& forall|k: int| 1 <= k < plan.len() ==> (#[trigger] plan[k]).parent is Some
        }),
{
    let kids = combined(base, target, replacement);
    crate::merge::combined_is_ordered(base, target, replacement);
    let list = starting(seq![root_source(base, target)]);
    spreading_ends_in_rows(kids, list, 0);
    let plan = merge_plan(base, target, replacement);
    assert(plan[0] == list[0]);
}

/// The root of a merged map is the old root, or what replaces it.
pub proof fn plan_starts_at_the_root(
    base: Seq<NodeView>,
    target: int,
    replacement: Option<Seq<NodeView>>,
)
    requires
        can_merge(base, target, replacement),
        merge_plan(base, target, replacement).len() <= usize::MAX,
    ensures
        merge_plan(base, target, replacement).len() > 0,
        merge_plan(base, target, replacement)[0] == (Placement {
            source: root_source(base, target),
            parent: None,
        }),
{
    plan_facts(base, target, replacement);
}

/// Every folder of a merged map shows its source, but for its place.
pub proof fn merged_nodes_are_planned(
    base: Seq<NodeView>,
    replacement: Option<Seq<NodeView>>,
    direct: Map<usize, NodeView>,
    plan: Seq<Placement>,
    n: int,
)
    requires
        0 <= n <= plan.len() <= usize::MAX,
        plan.len() > 0 ==> plan[0].parent is None,
        forall|k: int| 1 <= k < plan.len() ==> (#[trigger] plan[k]).parent is Some,
        forall|k: int| 0 <= k < plan.len() ==> ((#[trigger] plan[k]).parent matches Some(p) ==> p < k),
    ensures
        planned(
            base,
            replacement,
            direct,
            plan,
            merged_nodes(base, replacement, direct, plan, n),
            n,
        ),
    decreases n,
{
    if n > 0 {
        merged_nodes_are_planned(base, replacement, direct, plan, n - 1);
        let tree = merged_nodes(base, replacement, direct, plan, n - 1);
        assert(plan[n - 1].parent matches Some(p) ==> p < n - 1);
        planning_goes_on(base, replacement, direct, plan, tree, n - 1);
    }
}

/// A folder whose source is not around the target shows that source unchanged,
/// and every folder shows the path of its source.
pub proof fn other_folders_stay(
    base: Seq<NodeView>,
    target: int,
    replacement: Option<Seq<NodeView>>,
    direct: Map<usize, NodeView>,
    tree: Seq<NodeView>,
    k: int,
)
    requires
        can_merge(base, target, replacement),
        is_merge(base, target, replacement, direct, tree),
        tree.len() <= usize::MAX,
        0 <= k < tree.len(),
    ensures
        ({
            let plan = merge_plan(base, target, replacement);
            let source = source_node(base, replacement, plan[k].source as int);
            &&& tree[k].parent == plan[k].parent
            &&& tree[k].path == source.path
            &&& !is_open(base, direct, plan[k].source) ==> tree[k] == (NodeView {
                parent: tree[k].parent,
                children: tree[k].children,
                ..source
            })
            &&& is_open(base, direct, plan[k].source) ==> tree[k].bytes == saturated(
                tree[k].own_bytes + subfolder_totals(tree, k, 0).bytes,
            )
        }),
{
    let plan = merge_plan(base, target, replacement);
    let n = plan.len() as int;
    plan_facts(base, target, replacement);
    merged_nodes_are_planned(base, replacement, direct, plan, n);
    let raw = merged_nodes(base, replacement, direct, plan, n);
    assert(tree[k] == open_node(raw, tree, reopened(base, direct, plan), k, 0));
    let m = merged_node(base, replacement, direct, plan[k]);
    assert(raw[k] == (NodeView { children: raw[k].children, ..m }));
}

/// A folder in a combined list lies directly inside the folder that lists it.
proof fn a_listed_folder_lies_inside(
    base: Seq<NodeView>,
    target: int,
    replacement: Option<Seq<NodeView>>,
    above: int,
    here: usize,
)
    requires
        can_merge(base, target, replacement),
        nested(base),
        replacement matches Some(r) ==> nested(r) && r[0].path.same(base[target].path),
        0 <= above < combined(base, target, replacement).len() <= usize::MAX,
        combined(base, target, replacement)[above].contains(here),
    ensures
        source_node(base, replacement, here as int).path.is_inside(
            source_node(base, replacement, above).path,
        ),
{
    let kids = combined(base, target, replacement);
    let start = base.len() as int;
    if above < start {
        let children = base[above].children;
        let instead = match replacement {
            Some(_) => Some(start as usize),
            None => None,
        };
        redirected_has(children, target, instead, children.len() as int, here);
        assert(children == children_of(base, above, base.len() as int));
        children_follow(base, above, base.len() as int);
        if children.contains(here) {
            let j = choose|j: int| 0 <= j < children.len() && children[j] == here;
            assert(base[children[j] as int].parent == Some(above as usize));
        } else {
            let j = choose|j: int| 0 <= j < children.len() && children[j] == target;
            assert(base[children[j] as int].parent == Some(above as usize));
        }
    } else {
        let new = replacement->0;
        let children = new[above - start].children;
        assert(kids[above] == shifted(children, start));
        let j = choose|j: int| 0 <= j < kids[above].len() && kids[above][j] == here;
        assert(children == children_of(new, above - start, new.len() as int));
        children_follow(new, above - start, new.len() as int);
        let c = children[j] as int;
        assert(new[c].parent == Some((above - start) as usize));
        assert(here == start + c);
    }
}

/// Paths of a merged map are nested where those of both maps are.
pub proof fn merged_paths_are_nested(
    base: Seq<NodeView>,
    target: int,
    replacement: Option<Seq<NodeView>>,
    direct: Map<usize, NodeView>,
    tree: Seq<NodeView>,
)
    requires
        can_merge(base, target, replacement),
        is_merge(base, target, replacement, direct, tree),
        tree.len() <= usize::MAX,
        nested(base),
        replacement matches Some(r) ==> nested(r) && r[0].path.same(base[target].path),
    ensures
        nested(tree),
{
    let plan = merge_plan(base, target, replacement);
    let kids = combined(base, target, replacement);
    let start = base.len() as int;
    plan_facts(base, target, replacement);
    assert forall|k: int| 0 < k < tree.len() && (
    #[trigger] tree[k]).parent is Some implies tree[k].path.is_inside(
        tree[tree[k].parent->0 as int].path,
    ) by {
        other_folders_stay(base, target, replacement, direct, tree, k);
        let p = tree[k].parent->0 as int;
        assert(plan[k].parent matches Some(q) ==> q < k);
        other_folders_stay(base, target, replacement, direct, tree, p);
        source_is_a_child(kids, plan, k);
        assert(plan[p].source < kids.len() && plan[k].source < kids.len());
        a_listed_folder_lies_inside(
            base,
            target,
            replacement,
            plan[p].source as int,
            plan[k].source,
        );
    }
}

/// Whether the folder at `i` is the one at `top`, or lies somewhere below it.
pub open spec fn lies_in(tree: Seq<NodeView>, i: int, top: int) -> bool
    decreases i,
{
    i == top || (0 <= i && (tree[i].parent matches Some(p) && p < i && lies_in(tree, p as int, top)))
}

proof fn redirected_leaves_out(
    children: Seq<usize>,
    target: int,
    replacement: Option<usize>,
    n: int,
    y: usize,
)
    requires
        0 <= n <= children.len(),
        redirected(children, target, replacement, n).contains(y),
    ensures
        (children.contains(y) && y != target) || replacement == Some(y),
    decreases n,
{
    if n > 0 {
        let rest = redirected(children, target, replacement, n - 1);
        let all = redirected(children, target, replacement, n);
        let i = choose|i: int| 0 <= i < all.len() && all[i] == y;
        if i < rest.len() {
            assert(rest[i] == y);
            redirected_leaves_out(children, target, replacement, n - 1, y);
        } else if children[n - 1] != target {
            assert(children[n - 1] == y);
        }
    }
}

proof fn redirected_keeps(
    children: Seq<usize>,
    target: int,
    replacement: Option<usize>,
    n: int,
    k: int,
)
    requires
        0 <= k < n <= children.len(),
    ensures
        children[k] != target ==> redirected(children, target, replacement, n).contains(children[k]),
        children[k] == target && replacement is Some ==> redirected(
            children,
            target,
            replacement,
            n,
        ).contains(replacement->0),
    decreases n,
{
    let all = redirected(children, target, replacement, n);
    if k == n - 1 {
        if children[k] != target || replacement is Some {
            assert(all[all.len() - 1] == if children[k] != target {
                children[k]
            } else {
                replacement->0
            });
        }
    } else {
        redirected_keeps(children, target, replacement, n - 1, k);
        let rest = redirected(children, target, replacement, n - 1);
        assert forall|y: usize| rest.contains(y) implies all.contains(y) by {
            let i = choose|i: int| 0 <= i < rest.len() && rest[i] == y;
            assert(all[i] == y);
        }
    }
}

/// Nothing of the folder that was replaced is left: no folder of a merged map
/// comes from the old target or from below it.
pub proof fn replaced_folders_are_gone(
    base: Seq<NodeView>,
    target: int,
    replacement: Option<Seq<NodeView>>,
    k: int,
)
    requires
        can_merge(base, target, replacement),
        merge_plan(base, target, replacement).len() <= usize::MAX,
        0 <= k < merge_plan(base, target, replacement).len(),
    ensures
        merge_plan(base, target, replacement)[k].source < base.len() ==> !lies_in(
            base,
            merge_plan(base, target, replacement)[k].source as int,
            target,
        ),
    decreases k,
{
    let plan = merge_plan(base, target, replacement);
    let kids = combined(base, target, replacement);
    let start = base.len() as int;
    plan_facts(base, target, replacement);
    if k > 0 && plan[k].source < start {
        let q = plan[k].parent->0 as int;
        let here = plan[k].source;
        replaced_folders_are_gone(base, target, replacement, q);
        source_is_a_child(kids, plan, k);
        let above = plan[q].source as int;
        assert(above < kids.len());
        if above < start {
            let children = base[above].children;
            let instead = match replacement {
                Some(_) => Some(start as usize),
                None => None,
            };
            redirected_leaves_out(children, target, instead, children.len() as int, here);
            let j = choose|j: int| 0 <= j < children.len() && children[j] == here;
            assert(children == children_of(base, above, base.len() as int));
            children_follow(base, above, base.len() as int);
            assert(base[children[j] as int].parent == Some(above as usize));
        } else {
            let children = replacement->0[above - start].children;
            assert(kids[above] == shifted(children, start));
            let j = choose|j: int| 0 <= j < kids[above].len() && kids[above][j] == here;
            let new = replacement->0;
            assert(children == children_of(new, above - start, new.len() as int));
            children_follow(new, above - start, new.len() as int);
            assert(kids[above][j] == (start + children[j]) as usize);
            assert(false);
        }
    }
}

/// What lies below a copy comes from the list.
pub proof fn below_comes_from_the_list(list: Seq<Placement>, at: int, n: int, y: usize)
    requires
        0 <= n <= list.len(),
        sources_below(list, at, n).contains(y),
    ensures
        exists|k: int| 0 <= k < n && (#[trigger] list[k]).source == y,
    decreases n,
{
    let s = sources_below(list, at, n);
    let i = choose|i: int| 0 <= i < s.len() && s[i] == y;
    if n > 0 {
        let rest = sources_below(list, at, n - 1);
        if i < rest.len() {
            assert(rest[i] == y);
            below_comes_from_the_list(list, at, n - 1, y);
        } else {
            assert(list[n - 1].source == y);
        }
    }
}

/// Whether a folder of the merged map comes from this source.
pub open spec fn is_planned(plan: Seq<Placement>, source: int) -> bool {
    exists|k: int| 0 <= k < plan.len() && (#[trigger] plan[k]).source == source
}

proof fn a_listed_source_is_planned(
    base: Seq<NodeView>,
    target: int,
    replacement: Option<Seq<NodeView>>,
    above: int,
    here: usize,
)
    requires
        can_merge(base, target, replacement),
        merge_plan(base, target, replacement).len() <= usize::MAX,
        is_planned(merge_plan(base, target, replacement), above),
        combined(base, target, replacement)[above].contains(here),
    ensures
        is_planned(merge_plan(base, target, replacement), here as int),
{
    let plan = merge_plan(base, target, replacement);
    let kids = combined(base, target, replacement);
    plan_facts(base, target, replacement);
    let q = choose|k: int| 0 <= k < plan.len() && (#[trigger] plan[k]).source == above;
    assert(sources_below(plan, q, plan.len() as int) == kids[plan[q].source as int]);
    below_comes_from_the_list(plan, q, plan.len() as int, here);
}

/// Every old folder outside the one that was replaced is still in the map.
pub proof fn no_other_folder_is_lost(
    base: Seq<NodeView>,
    target: int,
    replacement: Option<Seq<NodeView>>,
    i: int,
)
    requires
        can_merge(base, target, replacement),
        merge_plan(base, target, replacement).len() <= usize::MAX,
        0 <= i < base.len(),
        !lies_in(base, i, target),
    ensures
        is_planned(merge_plan(base, target, replacement), i),
    decreases i,
{
    let plan = merge_plan(base, target, replacement);
    plan_facts(base, target, replacement);
    if i == 0 {
        assert(plan[0].source == 0);
    } else {
        let p = base[i].parent->0 as int;
        no_other_folder_is_lost(base, target, replacement, p);
        let children = base[p].children;
        let instead = match replacement {
            Some(_) => Some(base.len() as usize),
            None => None,
        };
        assert(children == children_of(base, p, base.len() as int));
        a_child_is_listed(base, p, base.len() as int, i);
        let k = choose|k: int| 0 <= k < children.len() && children[k] == i as usize;
        redirected_keeps(children, target, instead, children.len() as int, k);
        a_listed_source_is_planned(base, target, replacement, p, i as usize);
    }
}

/// A folder is listed by the folder above it.
pub proof fn a_child_is_listed(tree: Seq<NodeView>, p: int, n: int, i: int)
    requires
        0 <= i < n <= tree.len() <= usize::MAX,
        tree[i].parent == Some(p as usize),
    ensures
        children_of(tree, p, n).contains(i as usize),
    decreases n,
{
    let all = children_of(tree, p, n);
    if i == n - 1 {
        assert(all[all.len() - 1] == i as usize);
    } else {
        a_child_is_listed(tree, p, n - 1, i);
        let rest = children_of(tree, p, n - 1);
        let k = choose|k: int| 0 <= k < rest.len() && rest[k] == i as usize;
        assert(all[k] == i as usize);
    }
}

/// Every folder that was newly scanned is in the map.
pub proof fn new_folders_are_taken_in(
    base: Seq<NodeView>,
    target: int,
    new: Seq<NodeView>,
    j: int,
)
    requires
        can_merge(base, target, Some(new)),
        merge_plan(base, target, Some(new)).len() <= usize::MAX,
        0 <= j < new.len(),
    ensures
        is_planned(merge_plan(base, target, Some(new)), base.len() + j),
    decreases j,
{
    let start = base.len() as int;
    let kids = combined(base, target, Some(new));
    if j == 0 && target == 0 {
        plan_facts(base, target, Some(new));
        assert(merge_plan(base, target, Some(new))[0].source == start);
    } else if j == 0 {
        let p = base[target].parent->0 as int;
        stands_outside(base, p, target);
        no_other_folder_is_lost(base, target, Some(new), p);
        let children = base[p].children;
        assert(children == children_of(base, p, base.len() as int));
        a_child_is_listed(base, p, base.len() as int, target);
        let k = choose|k: int| 0 <= k < children.len() && children[k] == target as usize;
        redirected_keeps(children, target, Some(start as usize), children.len() as int, k);
        a_listed_source_is_planned(base, target, Some(new), p, start as usize);
    } else {
        let p = new[j].parent->0 as int;
        new_folders_are_taken_in(base, target, new, p);
        let children = new[p].children;
        assert(children == children_of(new, p, new.len() as int));
        a_child_is_listed(new, p, new.len() as int, j);
        let k = choose|k: int| 0 <= k < children.len() && children[k] == j as usize;
        assert(kids[start + p] == shifted(children, start));
        assert(kids[start + p][k] == (start + j) as usize);
        a_listed_source_is_planned(base, target, Some(new), start + p, (start + j) as usize);
    }
}

proof fn stands_outside(tree: Seq<NodeView>, i: int, top: int)
    requires
        i < top,
    ensures
        !lies_in(tree, i, top),
    decreases i,
{
    if 0 <= i && tree[i].parent is Some && tree[i].parent->0 < i {
        stands_outside(tree, tree[i].parent->0 as int, top);
    }
}

proof fn children_are_increasing(tree: Seq<NodeView>, p: int, n: int)
    requires
        0 <= n <= tree.len() <= usize::MAX,
    ensures
        children_of(tree, p, n).no_duplicates(),
        forall|k: int|
            0 <= k < children_of(tree, p, n).len() ==> (#[trigger] children_of(tree, p, n)[k]) < n,
    decreases n,
{
    if n > 0 {
        children_are_increasing(tree, p, n - 1);
        let rest = children_of(tree, p, n - 1);
        let all = children_of(tree, p, n);
        assert forall|k: int| 0 <= k < all.len() implies (#[trigger] all[k]) < n by {
            if k < rest.len() {
                assert(all[k] == rest[k]);
            }
        }
        assert forall|i: int, j: int| 0 <= i < all.len() && 0 <= j < all.len() && i != j implies all[i]
            != all[j] by {
            if i < rest.len() {
                assert(all[i] == rest[i]);
            }
            if j < rest.len() {
                assert(all[j] == rest[j]);
            }
        }
    }
}

proof fn redirected_stays_distinct(
    children: Seq<usize>,
    target: int,
    replacement: Option<usize>,
    n: int,
)
    requires
        0 <= n <= children.len(),
        children.no_duplicates(),
        replacement matches Some(r) ==> !children.contains(r),
    ensures
        redirected(children, target, replacement, n).no_duplicates(),
        forall|i: int|
            0 <= i < redirected(children, target, replacement, n).len() ==> exists|k: int|
                0 <= k < n && (#[trigger] children[k] == redirected(
                    children,
                    target,
                    replacement,
                    n,
                )[i] || (children[k] == target && replacement == Some(
                    #[trigger] redirected(children, target, replacement, n)[i],
                ))),
    decreases n,
{
    if n > 0 {
        redirected_stays_distinct(children, target, replacement, n - 1);
        let rest = redirected(children, target, replacement, n - 1);
        let all = redirected(children, target, replacement, n);
        let last = children[n - 1];
        assert forall|i: int| 0 <= i < all.len() implies exists|k: int|
            0 <= k < n && (#[trigger] children[k] == all[i] || (children[k] == target && replacement
                == Some(#[trigger] all[i]))) by {
            if i < rest.len() {
                assert(all[i] == rest[i]);
                let k = choose|k: int|
                    0 <= k < n - 1 && (#[trigger] children[k] == rest[i] || (children[k] == target
                        && replacement == Some(rest[i])));
                assert(children[k] == all[i] || (children[k] == target && replacement == Some(
                    all[i],
                )));
            } else {
                assert(children[n - 1] == all[i] || (children[n - 1] == target && replacement
                    == Some(all[i])));
            }
        }
        assert forall|i: int| 0 <= i < rest.len() && all.len() > rest.len() implies rest[i]
            != all[rest.len() as int] by {
            let k = choose|k: int|
                0 <= k < n - 1 && (#[trigger] children[k] == rest[i] || (children[k] == target
                    && replacement == Some(rest[i])));
            assert(children.contains(children[k]) && children.contains(last));
            assert(children[k] != last);
        }
        assert forall|i: int, j: int| 0 <= i < all.len() && 0 <= j < all.len() && i != j implies all[i]
            != all[j] by {
            if i < rest.len() {
                assert(all[i] == rest[i]);
            }
            if j < rest.len() {
                assert(all[j] == rest[j]);
            }
        }
    }
}

/// The folder that lists a source.
spec fn lister(base: Seq<NodeView>, target: int, replacement: Option<Seq<NodeView>>, y: int) -> int {
    let start = base.len() as int;
    if y < start {
        base[y].parent->0 as int
    } else if y == start {
        base[target].parent->0 as int
    } else {
        start + replacement->0[y - start].parent->0
    }
}

/// Each source is listed by one folder, once.
proof fn sources_are_listed_once(
    base: Seq<NodeView>,
    target: int,
    replacement: Option<Seq<NodeView>>,
    above: int,
)
    requires
        can_merge(base, target, replacement),
        0 <= above < combined(base, target, replacement).len(),
    ensures
        combined(base, target, replacement)[above].no_duplicates(),
        forall|y: usize| #[trigger]
            combined(base, target, replacement)[above].contains(y) ==> lister(
                base,
                target,
                replacement,
                y as int,
            ) == above && y > above,
{
    let kids = combined(base, target, replacement);
    let start = base.len() as int;
    crate::merge::combined_is_ordered(base, target, replacement);
    if above < start {
        let children = base[above].children;
        let instead = match replacement {
            Some(_) => Some(start as usize),
            None => None,
        };
        assert(children == children_of(base, above, start));
        children_are_increasing(base, above, start);
        children_follow(base, above, start);
        redirected_stays_distinct(children, target, instead, children.len() as int);
        assert forall|y: usize| #[trigger] kids[above].contains(y) implies lister(
            base,
            target,
            replacement,
            y as int,
        ) == above && y > above by {
            let i = choose|i: int| 0 <= i < kids[above].len() && kids[above][i] == y;
            redirected_has(children, target, instead, children.len() as int, y);
            if children.contains(y) {
                let j = choose|j: int| 0 <= j < children.len() && children[j] == y;
                assert(base[children[j] as int].parent == Some(above as usize));
            } else {
                let j = choose|j: int| 0 <= j < children.len() && children[j] == target;
                assert(base[children[j] as int].parent == Some(above as usize));
            }
        }
    } else {
        let new = replacement->0;
        let children = new[above - start].children;
        assert(children == children_of(new, above - start, new.len() as int));
        assert(kids[above] == shifted(children, start));
        children_are_increasing(new, above - start, new.len() as int);
        children_follow(new, above - start, new.len() as int);
        assert forall|i: int, j: int|
            0 <= i < kids[above].len() && 0 <= j < kids[above].len() && i != j implies kids[above][i]
            != kids[above][j] by {
            assert(children[i] != children[j]);
            assert(children[i] < new.len() && children[j] < new.len());
        }
        assert forall|y: usize| #[trigger] kids[above].contains(y) implies lister(
            base,
            target,
            replacement,
            y as int,
        ) == above && y > above by {
            let j = choose|j: int| 0 <= j < kids[above].len() && kids[above][j] == y;
            assert(new[children[j] as int].parent == Some((above - start) as usize));
            assert(y == start + children[j]);
        }
    }
}

proof fn below_is_in_order(list: Seq<Placement>, at: int, n: int, i: int)
    requires
        0 <= i < n <= list.len(),
        list[i].parent == Some(at as usize),
    ensures
        sources_below(list, at, i).len() < sources_below(list, at, n).len(),
        sources_below(list, at, n)[sources_below(list, at, i).len() as int] == list[i].source,
    decreases n,
{
    if i < n - 1 {
        below_is_in_order(list, at, n - 1, i);
    }
}

/// Every folder of a merged map comes from another source: none comes twice.
pub proof fn each_folder_comes_once(
    base: Seq<NodeView>,
    target: int,
    replacement: Option<Seq<NodeView>>,
    i: int,
    j: int,
)
    requires
        can_merge(base, target, replacement),
        merge_plan(base, target, replacement).len() <= usize::MAX,
        0 <= i < j < merge_plan(base, target, replacement).len(),
    ensures
        merge_plan(base, target, replacement)[i].source != merge_plan(
            base,
            target,
            replacement,
        )[j].source,
    decreases j,
{
    let plan = merge_plan(base, target, replacement);
    let kids = combined(base, target, replacement);
    let n = plan.len() as int;
    plan_facts(base, target, replacement);
    if plan[i].source == plan[j].source {
        let y = plan[j].source;
        let q = plan[j].parent->0 as int;
        assert(plan[j].parent matches Some(p) ==> p < j);
        source_is_a_child(kids, plan, j);
        assert(plan[q].source < kids.len());
        sources_are_listed_once(base, target, replacement, plan[q].source as int);
        if i == 0 {
            // The root is listed by no folder of the map.
            root_is_listed_nowhere(base, target, replacement, q);
        } else {
            let p = plan[i].parent->0 as int;
            assert(plan[i].parent matches Some(p) ==> p < i);
            source_is_a_child(kids, plan, i);
            assert(plan[p].source < kids.len());
            sources_are_listed_once(base, target, replacement, plan[p].source as int);
            assert(plan[p].source == plan[q].source);
            if p < q {
                each_folder_comes_once(base, target, replacement, p, q);
            } else if q < p {
                each_folder_comes_once(base, target, replacement, q, p);
            }
            assert(p == q);
            below_is_in_order(plan, p, n, i);
            below_is_in_order(plan, p, n, j);
            below_is_in_order(plan, p, j, i);
            assert(sources_below(plan, p, n) == kids[plan[p].source as int]);
            assert(false);
        }
    }
}

proof fn root_is_listed_nowhere(
    base: Seq<NodeView>,
    target: int,
    replacement: Option<Seq<NodeView>>,
    q: int,
)
    requires
        can_merge(base, target, replacement),
        merge_plan(base, target, replacement).len() <= usize::MAX,
        0 <= q < merge_plan(base, target, replacement).len(),
    ensures
        !combined(base, target, replacement)[merge_plan(
            base,
            target,
            replacement,
        )[q].source as int].contains(root_source(base, target)),
{
    let plan = merge_plan(base, target, replacement);
    let kids = combined(base, target, replacement);
    plan_facts(base, target, replacement);
    assert(plan[q].source < kids.len());
    sources_are_listed_once(base, target, replacement, plan[q].source as int);
    if target == 0 {
        only_new_folders(base, replacement, q);
    }
}

proof fn only_new_folders(base: Seq<NodeView>, replacement: Option<Seq<NodeView>>, q: int)
    requires
        can_merge(base, 0, replacement),
        merge_plan(base, 0, replacement).len() <= usize::MAX,
        0 <= q < merge_plan(base, 0, replacement).len(),
    ensures
        merge_plan(base, 0, replacement)[q].source >= base.len(),
{
    if merge_plan(base, 0, replacement)[q].source < base.len() {
        plan_facts(base, 0, replacement);
        replaced_folders_are_gone(base, 0, replacement, q);
        lies_in_the_root(base, merge_plan(base, 0, replacement)[q].source as int);
    }
}

proof fn lies_in_the_root(tree: Seq<NodeView>, i: int)
    requires
        shaped(tree),
        0 <= i < tree.len(),
    ensures
        lies_in(tree, i, 0),
    decreases i,
{
    if i > 0 {
        assert(tree[i].parent is Some);
        lies_in_the_root(tree, tree[i].parent->0 as int);
    }
}

proof fn children_show_their_sources(
    plan: Seq<Placement>,
    tree: Seq<NodeView>,
    k: int,
    n: int,
)
    requires
        0 <= n <= plan.len() == tree.len() <= usize::MAX,
        forall|j: int| 0 <= j < tree.len() ==> (#[trigger] tree[j]).parent == plan[j].parent,
    ensures
        sources_below(plan, k, n) == Seq::new(
            children_of(tree, k, n).len(),
            |j: int| plan[children_of(tree, k, n)[j] as int].source,
        ),
    decreases n,
{
    if n > 0 {
        children_show_their_sources(plan, tree, k, n - 1);
        assert(tree[n - 1].parent == plan[n - 1].parent);
        assert(sources_below(plan, k, n) =~= Seq::new(
            children_of(tree, k, n).len(),
            |j: int| plan[children_of(tree, k, n)[j] as int].source,
        ));
    } else {
        assert(sources_below(plan, k, n) =~= Seq::new(
            children_of(tree, k, n).len(),
            |j: int| plan[children_of(tree, k, n)[j] as int].source,
        ));
    }
}

/// Subfolders keep their order: those of a merged folder come from the subfolders
/// of its source, one by one, and the replacement stands where the target stood.
pub proof fn siblings_keep_their_order(
    base: Seq<NodeView>,
    target: int,
    replacement: Option<Seq<NodeView>>,
    direct: Map<usize, NodeView>,
    tree: Seq<NodeView>,
    k: int,
)
    requires
        can_merge(base, target, replacement),
        is_merge(base, target, replacement, direct, tree),
        shaped(tree),
        0 <= k < tree.len(),
    ensures
        ({
            let plan = merge_plan(base, target, replacement);
            let source = plan[k].source as int;
            let instead = match replacement {
                Some(_) => Some(base.len() as usize),
                None => None,
            };
            Seq::new(tree[k].children.len(), |j: int| plan[tree[k].children[j] as int].source)
                == if source < base.len() {
                redirected(
                    base[source].children,
                    target,
                    instead,
                    base[source].children.len() as int,
                )
            } else {
                shifted(replacement->0[source - base.len()].children, base.len() as int)
            }
        }),
{
    let plan = merge_plan(base, target, replacement);
    let kids = combined(base, target, replacement);
    let n = plan.len() as int;
    plan_facts(base, target, replacement);
    assert forall|j: int| 0 <= j < tree.len() implies (#[trigger] tree[j]).parent == plan[j].parent by {
        other_folders_stay(base, target, replacement, direct, tree, j);
    }
    children_show_their_sources(plan, tree, k, n);
    assert(tree[k].children == children_of(tree, k, n));
    assert(sources_below(plan, k, n) == kids[plan[k].source as int]);
    assert(plan[k].source < kids.len());
}

/// The sizes of the folders, before `n`, whose parent stands at `p`.
spec fn listed_bytes(tree: Seq<NodeView>, p: int, n: int) -> nat
    decreases n,
{
    if n <= 0 {
        0
    } else {
        listed_bytes(tree, p, n - 1) + if tree[n - 1].parent == Some(p as usize) {
            tree[n - 1].bytes as nat
        } else {
            0nat
        }
    }
}

proof fn subfolder_bytes_are_listed(tree: Seq<NodeView>, p: int, n: int)
    requires
        0 <= n <= tree.len(),
    ensures
        subfolder_totals(tree, p, 0).bytes == saturated(
            listed_bytes(tree, p, n) + subfolder_totals(tree, p, n).bytes,
        ),
    decreases n,
{
    if n > 0 {
        subfolder_bytes_are_listed(tree, p, n - 1);
    }
}

/// The sizes of sources.
spec fn source_bytes(
    base: Seq<NodeView>,
    replacement: Option<Seq<NodeView>>,
    sources: Seq<usize>,
) -> nat
    decreases sources.len(),
{
    if sources.len() == 0 {
        0
    } else {
        source_bytes(base, replacement, sources.drop_last()) + source_node(
            base,
            replacement,
            sources.last() as int,
        ).bytes as nat
    }
}

proof fn listed_bytes_come_from_sources(
    base: Seq<NodeView>,
    replacement: Option<Seq<NodeView>>,
    plan: Seq<Placement>,
    tree: Seq<NodeView>,
    p: int,
    n: int,
)
    requires
        0 <= n <= plan.len() == tree.len(),
        forall|j: int| 0 <= j < tree.len() ==> (#[trigger] tree[j]).parent == plan[j].parent,
        forall|j: int|
            0 <= j < tree.len() && (#[trigger] tree[j]).parent == Some(p as usize) ==> tree[j].bytes
                == source_node(base, replacement, plan[j].source as int).bytes,
    ensures
        listed_bytes(tree, p, n) == source_bytes(base, replacement, sources_below(plan, p, n)),
    decreases n,
{
    if n > 0 {
        listed_bytes_come_from_sources(base, replacement, plan, tree, p, n - 1);
        assert(tree[n - 1].parent == plan[n - 1].parent);
        let rest = sources_below(plan, p, n - 1);
        if plan[n - 1].parent == Some(p as usize) {
            assert(rest.push(plan[n - 1].source).drop_last() =~= rest);
        }
    }
}

proof fn old_listed_bytes(
    base: Seq<NodeView>,
    replacement: Option<Seq<NodeView>>,
    p: int,
    n: int,
)
    requires
        0 <= n <= base.len() <= usize::MAX,
    ensures
        listed_bytes(base, p, n) == source_bytes(base, replacement, children_of(base, p, n)),
    decreases n,
{
    if n > 0 {
        old_listed_bytes(base, replacement, p, n - 1);
        let rest = children_of(base, p, n - 1);
        if base[n - 1].parent == Some(p as usize) {
            assert(rest.push((n - 1) as usize).drop_last() =~= rest);
        }
    }
}

proof fn new_listed_bytes(
    base: Seq<NodeView>,
    new: Seq<NodeView>,
    p: int,
    n: int,
)
    requires
        0 <= n <= new.len(),
        base.len() + new.len() <= usize::MAX,
    ensures
        listed_bytes(new, p, n) == source_bytes(
            base,
            Some(new),
            shifted(children_of(new, p, n), base.len() as int),
        ),
    decreases n,
{
    let start = base.len() as int;
    let all = shifted(children_of(new, p, n), start);
    if n > 0 {
        new_listed_bytes(base, new, p, n - 1);
        let rest = children_of(new, p, n - 1);
        if new[n - 1].parent == Some(p as usize) {
            assert(all.drop_last() =~= shifted(rest, start));
            assert(all.last() == start + n - 1);
        }
    }
}

proof fn redirected_without_target(
    children: Seq<usize>,
    target: int,
    replacement: Option<usize>,
    n: int,
)
    requires
        0 <= n <= children.len(),
        forall|k: int| 0 <= k < children.len() ==> children[k] != target,
    ensures
        redirected(children, target, replacement, n) == children.take(n),
    decreases n,
{
    if n > 0 {
        redirected_without_target(children, target, replacement, n - 1);
        assert(children.take(n) =~= children.take(n - 1).push(children[n - 1]));
    } else {
        assert(children.take(0) =~= seq![]);
    }
}

/// Sizes of a merged map add up where those of both maps do and the way up
/// from the target was read anew.
pub proof fn merged_sizes_add_up(
    base: Seq<NodeView>,
    target: int,
    replacement: Option<Seq<NodeView>>,
    direct: Map<usize, NodeView>,
    tree: Seq<NodeView>,
)
    requires
        can_merge(base, target, replacement),
        is_merge(base, target, replacement, direct, tree),
        tree.len() <= usize::MAX,
        sizes_add_up(base),
        replacement matches Some(r) ==> sizes_add_up(r),
        covers_the_way_up(base, target, direct),
    ensures
        sizes_add_up(tree),
{
    let plan = merge_plan(base, target, replacement);
    let kids = combined(base, target, replacement);
    let start = base.len() as int;
    let n = plan.len() as int;
    plan_facts(base, target, replacement);
    assert forall|j: int| 0 <= j < tree.len() implies (#[trigger] tree[j]).parent == plan[j].parent by {
        other_folders_stay(base, target, replacement, direct, tree, j);
    }
    assert forall|k: int| 0 <= k < tree.len() implies (#[trigger] tree[k]).bytes == saturated(
        tree[k].own_bytes + subfolder_totals(tree, k, 0).bytes,
    ) by {
        other_folders_stay(base, target, replacement, direct, tree, k);
        let s = plan[k].source as int;
        assert(plan[k].source < kids.len());
        if !is_open(base, direct, plan[k].source) {
            assert forall|j: int| 0 <= j < tree.len() && (#[trigger] tree[j]).parent == Some(
                k as usize,
            ) implies tree[j].bytes == source_node(base, replacement, plan[j].source as int).bytes by {
                other_folders_stay(base, target, replacement, direct, tree, j);
                source_is_a_child(kids, plan, j);
                child_is_not_open(base, target, replacement, direct, s, plan[j].source);
            }
            listed_bytes_come_from_sources(base, replacement, plan, tree, k, n);
            assert(sources_below(plan, k, n) == kids[s]);
            subfolder_bytes_are_listed(tree, k, n);
            if s < start {
                let children = base[s].children;
                assert(children == children_of(base, s, start));
                children_follow(base, s, start);
                assert forall|j: int| 0 <= j < children.len() implies children[j] != target by {
                    if children[j] == target {
                        assert(base[target].parent == Some(s as usize));
                    }
                }
                let instead = match replacement {
                    Some(_) => Some(start as usize),
                    None => None,
                };
                redirected_without_target(children, target, instead, children.len() as int);
                assert(children.take(children.len() as int) =~= children);
                old_listed_bytes(base, replacement, s, start);
                subfolder_bytes_are_listed(base, s, start);
                assert(base[s].bytes == saturated(
                    base[s].own_bytes + subfolder_totals(base, s, 0).bytes,
                ));
            } else {
                let new = replacement->0;
                let m = new.len() as int;
                assert(new[s - start].children == children_of(new, s - start, m));
                new_listed_bytes(base, new, s - start, m);
                subfolder_bytes_are_listed(new, s - start, m);
                assert(new[s - start].bytes == saturated(
                    new[s - start].own_bytes + subfolder_totals(new, s - start, 0).bytes,
                ));
            }
        }
    }
}

/// Below a folder that was not read anew, no folder was.
proof fn child_is_not_open(
    base: Seq<NodeView>,
    target: int,
    replacement: Option<Seq<NodeView>>,
    direct: Map<usize, NodeView>,
    s: int,
    child: usize,
)
    requires
        can_merge(base, target, replacement),
        covers_the_way_up(base, target, direct),
        0 <= s < combined(base, target, replacement).len(),
        !is_open(base, direct, s as usize),
        combined(base, target, replacement)[s].contains(child),
        combined(base, target, replacement).len() <= usize::MAX,
    ensures
        !is_open(base, direct, child),
{
    let kids = combined(base, target, replacement);
    let start = base.len() as int;
    if is_open(base, direct, child) {
        if s < start {
            let children = base[s].children;
            let instead = match replacement {
                Some(_) => Some(start as usize),
                None => None,
            };
            redirected_has(children, target, instead, children.len() as int, child);
            assert(children == children_of(base, s, start));
            children_follow(base, s, start);
            let j = choose|j: int| 0 <= j < children.len() && children[j] == child;
            assert(base[child as int].parent == Some(s as usize));
            assert(direct.contains_key(child));
            assert(false);
        } else {
            let new = replacement->0;
            let children = new[s - start].children;
            let j = choose|j: int| 0 <= j < kids[s].len() && kids[s][j] == child;
            assert(children == children_of(new, s - start, new.len() as int));
            children_follow(new, s - start, new.len() as int);
            assert(children[j] < new.len());
            assert(false);
        }
    }
}

} // verus!
