//! What the root of a map shows: the totals of every folder below it.
use vstd::prelude::*;
use crate::tree::{added_up, saturated, shaped, subfolder_totals, totals_in_any_order, NodeView, Totals};

verus! {

/// The starting totals of the first `n` folders together.
pub open spec fn all_starting(raw: Seq<NodeView>, partial: bool, n: int) -> Totals
    decreases n,
{
    if n <= 0 {
        Totals::nothing()
    } else {
        all_starting(raw, partial, n - 1).plus(raw[n - 1].starting_totals(partial))
    }
}

/// The totals of the folders from `from` on whose parent stands before `bound`.
spec fn frontier(tree: Seq<NodeView>, bound: int, from: int) -> Totals
    decreases tree.len() - from,
{
    if from >= tree.len() {
        Totals::nothing()
    } else {
        let rest = frontier(tree, bound, from + 1);
        if tree[from].parent is Some && (tree[from].parent->0 as int) < bound {
            tree[from].totals().plus(rest)
        } else {
            rest
        }
    }
}

proof fn frontier_splits(tree: Seq<NodeView>, n: int, from: int)
    requires
        0 <= n <= from,
        n < usize::MAX,
    ensures
        frontier(tree, n + 1, from) == frontier(tree, n, from).plus(subfolder_totals(tree, n, from)),
    decreases tree.len() - from,
{
    if from >= tree.len() {
        totals_in_any_order(Totals::nothing(), Totals::nothing(), Totals::nothing());
    } else {
        frontier_splits(tree, n, from + 1);
        let a = frontier(tree, n, from + 1);
        let b = subfolder_totals(tree, n, from + 1);
        let t = tree[from].totals();
        totals_in_any_order(t, a, b);
        totals_in_any_order(a, t, b);
    }
}

proof fn frontier_is_constant(raw: Seq<NodeView>, tree: Seq<NodeView>, partial: bool, n: int)
    requires
        shaped(raw),
        added_up(raw, tree, partial),
        1 <= n <= raw.len(),
    ensures
        all_starting(raw, partial, n).plus(frontier(tree, n, n)) == all_starting(
            raw,
            partial,
            raw.len() as int,
        ),
    decreases raw.len() - n,
{
    if n == raw.len() {
        totals_in_any_order(all_starting(raw, partial, n), Totals::nothing(), Totals::nothing());
    } else {
        frontier_is_constant(raw, tree, partial, n + 1);
        frontier_splits(tree, n, n + 1);
        let w = all_starting(raw, partial, n);
        let s = raw[n].starting_totals(partial);
        let f = frontier(tree, n, n + 1);
        let k = subfolder_totals(tree, n, n + 1);
        assert(tree[n] == raw[n].with_totals(s.plus(subfolder_totals(tree, n, 0))));
        assert forall|i: int| 0 <= i < tree.len() implies ((#[trigger] tree[i]).parent matches Some(
            p,
        ) ==> p < i) by {
            assert(tree[i].parent == raw[i].parent);
        }
        crate::tree::subfolder_totals_start_after(tree, n, 0);
        assert(tree[n].totals() == s.plus(k));
        assert(tree[n].parent == raw[n].parent);
        assert(frontier(tree, n, n) == tree[n].totals().plus(f));
        // w + s + (f + k) == w + ((s + k) + f)
        totals_in_any_order(w, s, f.plus(k));
        totals_in_any_order(s, k, f);
        totals_in_any_order(f, k, s);
        assert(s.plus(f.plus(k)) == s.plus(k).plus(f));
    }
}

proof fn frontier_of_root(tree: Seq<NodeView>, from: int)
    ensures
        frontier(tree, 1, from) == subfolder_totals(tree, 0, from),
    decreases tree.len() - from,
{
    if from < tree.len() {
        frontier_of_root(tree, from + 1);
    }
}

/// The root of a map shows the totals of all folders together, each counted once.
pub proof fn root_shows_everything(raw: Seq<NodeView>, tree: Seq<NodeView>, partial: bool)
    requires
        shaped(raw),
        added_up(raw, tree, partial),
    ensures
        tree[0].totals() == all_starting(raw, partial, raw.len() as int),
{
    frontier_is_constant(raw, tree, partial, 1);
    frontier_of_root(tree, 1);
    let s = raw[0].starting_totals(partial);
    totals_in_any_order(s, Totals::nothing(), Totals::nothing());
    assert(all_starting(raw, partial, 1) == Totals::nothing().plus(s)) by {
        assert(all_starting(raw, partial, 0) == Totals::nothing());
    }
    assert(tree[0] == raw[0].with_totals(s.plus(subfolder_totals(tree, 0, 0))));
    assert(tree[0].parent == raw[0].parent);
    assert(subfolder_totals(tree, 0, 0) == subfolder_totals(tree, 0, 1));
}

/// The direct files of the first `n` folders, in bytes.
pub open spec fn own_sum(tree: Seq<NodeView>, n: int) -> nat
    decreases n,
{
    if n <= 0 {
        0
    } else {
        own_sum(tree, n - 1) + tree[n - 1].own_bytes as nat
    }
}

/// How many files the first `n` folders hold.
pub open spec fn file_sum(tree: Seq<NodeView>, n: int) -> nat
    decreases n,
{
    if n <= 0 {
        0
    } else {
        file_sum(tree, n - 1) + tree[n - 1].files as nat
    }
}

/// Before totals are added, folders together hold their direct files.
pub proof fn starting_totals_are_direct_files(raw: Seq<NodeView>, partial: bool, n: int)
    requires
        0 <= n <= raw.len(),
        forall|i: int| 0 <= i < raw.len() ==> (#[trigger] raw[i]).bytes == 0,
    ensures
        all_starting(raw, partial, n).bytes == saturated(own_sum(raw, n) as int),
        all_starting(raw, partial, n).files == saturated(file_sum(raw, n) as int),
    decreases n,
{
    if n > 0 {
        starting_totals_are_direct_files(raw, partial, n - 1);
        assert(raw[n - 1].bytes == 0);
    }
}

/// Sums over folders with the same direct files are the same.
pub proof fn sums_agree(a: Seq<NodeView>, b: Seq<NodeView>, n: int)
    requires
        0 <= n <= a.len(),
        n <= b.len(),
        forall|i: int|
            0 <= i < n ==> (#[trigger] a[i]).own_bytes == b[i].own_bytes && a[i].files == b[i].files,
    ensures
        own_sum(a, n) == own_sum(b, n),
        file_sum(a, n) == file_sum(b, n),
    decreases n,
{
    if n > 0 {
        sums_agree(a, b, n - 1);
        assert(a[n - 1].own_bytes == b[n - 1].own_bytes);
    }
}

/// Changing one folder changes the sums by what changed there.
pub proof fn sums_change_at_one_folder(a: Seq<NodeView>, b: Seq<NodeView>, at: int, n: int)
    requires
        0 <= at < a.len(),
        a.len() == b.len(),
        0 <= n <= a.len(),
        forall|i: int|
            0 <= i < n && i != at ==> (#[trigger] a[i]).own_bytes == b[i].own_bytes && a[i].files
                == b[i].files,
    ensures
        at < n ==> own_sum(b, n) == own_sum(a, n) + b[at].own_bytes - a[at].own_bytes,
        at < n ==> file_sum(b, n) == file_sum(a, n) + b[at].files - a[at].files,
        at >= n ==> own_sum(b, n) == own_sum(a, n) && file_sum(b, n) == file_sum(a, n),
    decreases n,
{
    if n > 0 {
        sums_change_at_one_folder(a, b, at, n - 1);
        if n - 1 != at {
            assert(a[n - 1].own_bytes == b[n - 1].own_bytes);
        }
    }
}

} // verus!
