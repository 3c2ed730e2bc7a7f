//! What a folder of a map shows of everything at and below it.
use vstd::prelude::*;
use crate::time::Timestamp;
use crate::tree::{added_up, shaped, subfolder_totals, subfolder_totals_start_after, totals_in_any_order, NodeView, Totals};

verus! {

/// Whether folder `j` is folder `i` or lies somewhere below it.
pub open spec fn is_below(tree: Seq<NodeView>, j: int, i: int) -> bool
    decreases j,
{
    j == i || (tree[j].parent is Some && tree[j].parent->0 < j && is_below(
        tree,
        tree[j].parent->0 as int,
        i,
    ))
}

/// Whether a number shows a sum: the sum itself, or the largest number where it does not fit.
pub open spec fn shows_sum(shown: u64, sum: int) -> bool {
    if sum <= 0xFFFF_FFFF_FFFF_FFFF {
        shown == sum
    } else {
        shown == 0xFFFF_FFFF_FFFF_FFFF
    }
}

/// Whether a date that may be unknown is known and not before `b`, where that is known.
pub open spec fn not_before(a: Option<Timestamp>, b: Option<Timestamp>) -> bool {
    b is Some ==> a is Some && a->0@ >= b->0@
}

/// The bytes of the files that lie directly in those of the first `n` folders
/// that are at or below folder `i`.
pub open spec fn bytes_below(tree: Seq<NodeView>, i: int, n: int) -> int
    decreases n,
{
    if n <= 0 {
        0
    } else {
        bytes_below(tree, i, n - 1) + if is_below(tree, n - 1, i) {
            tree[n - 1].own_bytes as int
        } else {
            0
        }
    }
}

/// How many files lie directly in those of the first `n` folders that are at or
/// below folder `i`.
pub open spec fn files_below(tree: Seq<NodeView>, i: int, n: int) -> int
    decreases n,
{
    if n <= 0 {
        0
    } else {
        files_below(tree, i, n - 1) + if is_below(tree, n - 1, i) {
            tree[n - 1].files as int
        } else {
            0
        }
    }
}

/// The starting totals of those of the first `n` folders that are at or below folder `i`.
spec fn all_below(raw: Seq<NodeView>, partial: bool, i: int, n: int) -> Totals
    decreases n,
{
    if n <= 0 {
        Totals::nothing()
    } else if is_below(raw, n - 1, i) {
        all_below(raw, partial, i, n - 1).plus(raw[n - 1].starting_totals(partial))
    } else {
        all_below(raw, partial, i, n - 1)
    }
}

/// The totals of the folders below folder `i`, from `from` on, whose parent
/// stands before `bound`.
spec fn edge(tree: Seq<NodeView>, i: int, bound: int, from: int) -> Totals
    decreases tree.len() - from,
{
    if from >= tree.len() {
        Totals::nothing()
    } else {
        let rest = edge(tree, i, bound, from + 1);
        if is_below(tree, from, i) && tree[from].parent is Some && (tree[from].parent->0 as int)
            < bound {
            tree[from].totals().plus(rest)
        } else {
            rest
        }
    }
}

proof fn edge_splits(tree: Seq<NodeView>, i: int, n: int, from: int)
    requires
        0 <= i <= n < from,
        n < usize::MAX,
        forall|j: int| 0 < j < tree.len() ==> (#[trigger] tree[j]).parent is Some && tree[j].parent->0
            < j,
    ensures
        edge(tree, i, n + 1, from) == if is_below(tree, n, i) {
            edge(tree, i, n, from).plus(subfolder_totals(tree, n, from))
        } else {
            edge(tree, i, n, from)
        },
    decreases tree.len() - from,
{
    if from >= tree.len() {
        totals_in_any_order(Totals::nothing(), Totals::nothing(), Totals::nothing());
    } else {
        edge_splits(tree, i, n, from + 1);
        let a = edge(tree, i, n, from + 1);
        let b = subfolder_totals(tree, n, from + 1);
        let t = tree[from].totals();
        totals_in_any_order(t, a, b);
        totals_in_any_order(a, t, b);
        if tree[from].parent == Some(n as usize) {
            assert(is_below(tree, from, i) == is_below(tree, n, i));
        }
    }
}

proof fn ways_stay(a: Seq<NodeView>, b: Seq<NodeView>, j: int, i: int)
    requires
        a.len() == b.len(),
        0 <= j < a.len(),
        forall|k: int| 0 <= k < a.len() ==> (#[trigger] a[k]).parent == b[k].parent,
    ensures
        is_below(a, j, i) == is_below(b, j, i),
    decreases j,
{
    assert(a[j].parent == b[j].parent);
    if a[j].parent is Some && a[j].parent->0 < j {
        ways_stay(a, b, a[j].parent->0 as int, i);
    }
}

/// Nothing that stands before a folder lies below it.
pub proof fn earlier_folders_are_not_below(tree: Seq<NodeView>, j: int, i: int)
    requires
        0 <= j < i,
    ensures
        !is_below(tree, j, i),
    decreases j,
{
    if tree[j].parent is Some && tree[j].parent->0 < j {
        earlier_folders_are_not_below(tree, tree[j].parent->0 as int, i);
    }
}

proof fn nothing_below_before(raw: Seq<NodeView>, partial: bool, i: int, n: int)
    requires
        0 <= n <= i,
    ensures
        all_below(raw, partial, i, n) == Totals::nothing(),
    decreases n,
{
    if n > 0 {
        nothing_below_before(raw, partial, i, n - 1);
        earlier_folders_are_not_below(raw, n - 1, i);
    }
}

proof fn edge_is_constant(raw: Seq<NodeView>, tree: Seq<NodeView>, partial: bool, i: int, n: int)
    requires
        shaped(raw),
        added_up(raw, tree, partial),
        0 <= i < n <= raw.len(),
    ensures
        all_below(raw, partial, i, n).plus(edge(tree, i, n, n)) == all_below(
            raw,
            partial,
            i,
            raw.len() as int,
        ),
    decreases raw.len() - n,
{
    let w = all_below(raw, partial, i, n);
    if n == raw.len() {
        totals_in_any_order(w, Totals::nothing(), Totals::nothing());
    } else {
        assert forall|k: int| 0 <= k < raw.len() implies (#[trigger] raw[k]).parent
            == tree[k].parent by {
            assert(tree[k].parent == raw[k].parent);
        }
        assert forall|k: int| 0 < k < tree.len() implies (#[trigger] tree[k]).parent is Some
            && tree[k].parent->0 < k by {
            assert(raw[k].parent == tree[k].parent);
        }
        assert(tree[0].parent == raw[0].parent);
        edge_is_constant(raw, tree, partial, i, n + 1);
        edge_splits(tree, i, n, n + 1);
        ways_stay(raw, tree, n, i);
        let s = raw[n].starting_totals(partial);
        let f = edge(tree, i, n, n + 1);
        let k = subfolder_totals(tree, n, n + 1);
        assert(tree[n] == raw[n].with_totals(s.plus(subfolder_totals(tree, n, 0))));
        subfolder_totals_start_after(tree, n, 0);
        assert(tree[n].totals() == s.plus(k));
        if is_below(raw, n, i) {
            assert(edge(tree, i, n, n) == tree[n].totals().plus(f));
            totals_in_any_order(w, s, f.plus(k));
            totals_in_any_order(s, k, f);
            totals_in_any_order(f, k, s);
            assert(s.plus(f.plus(k)) == s.plus(k).plus(f));
        }
    }
}

proof fn edge_of_the_folder(tree: Seq<NodeView>, i: int, from: int)
    requires
        0 <= i < from,
        tree.len() <= usize::MAX,
        forall|j: int| 0 < j < tree.len() ==> (#[trigger] tree[j]).parent is Some && tree[j].parent->0
            < j,
    ensures
        edge(tree, i, i + 1, from) == subfolder_totals(tree, i, from),
    decreases tree.len() - from,
{
    if from < tree.len() {
        edge_of_the_folder(tree, i, from + 1);
        let p = tree[from].parent->0 as int;
        assert(is_below(tree, from, i) == is_below(tree, p, i));
        assert(is_below(tree, i, i));
        if p < i {
            earlier_folders_are_not_below(tree, p, i);
        }
    }
}

proof fn totals_are_those_below(raw: Seq<NodeView>, tree: Seq<NodeView>, partial: bool, i: int)
    requires
        shaped(raw),
        added_up(raw, tree, partial),
        0 <= i < raw.len(),
    ensures
        tree[i].totals() == all_below(raw, partial, i, raw.len() as int),
{
    assert forall|k: int| 0 < k < tree.len() implies (#[trigger] tree[k]).parent is Some
        && tree[k].parent->0 < k by {
        assert(raw[k].parent == tree[k].parent);
    }
    assert(tree[0].parent == raw[0].parent);
    edge_is_constant(raw, tree, partial, i, i + 1);
    edge_of_the_folder(tree, i, i + 1);
    nothing_below_before(raw, partial, i, i);
    let s = raw[i].starting_totals(partial);
    totals_in_any_order(s, Totals::nothing(), Totals::nothing());
    assert(tree[i] == raw[i].with_totals(s.plus(subfolder_totals(tree, i, 0))));
    subfolder_totals_start_after(tree, i, 0);
}

/// Whether `all` holds what the first `n` folders at and below `i` hold.
spec fn gathers_below(all: Totals, raw: Seq<NodeView>, partial: bool, i: int, n: int) -> bool {
    &&& shows_sum(all.bytes, bytes_below(raw, i, n))
    &&& shows_sum(all.files, files_below(raw, i, n))
    &&& forall|j: int|
        0 <= j < n && #[trigger] is_below(raw, j, i) ==> not_before(all.modified, raw[j].modified)
            && not_before(all.accessed, raw[j].accessed)
    &&& all.modified is Some ==> exists|j: int|
        0 <= j < n && #[trigger] is_below(raw, j, i) && raw[j].modified == all.modified
    &&& all.accessed is Some ==> exists|j: int|
        0 <= j < n && #[trigger] is_below(raw, j, i) && raw[j].accessed == all.accessed
    &&& all.missing_modified <==> exists|j: int|
        0 <= j < n && #[trigger] is_below(raw, j, i) && raw[j].missing_modified
    &&& all.missing_accessed <==> exists|j: int|
        0 <= j < n && #[trigger] is_below(raw, j, i) && raw[j].missing_accessed
    &&& all.incomplete <==> exists|j: int|
        0 <= j < n && #[trigger] is_below(raw, j, i) && (raw[j].incomplete || partial)
}

proof fn sums_are_not_negative(raw: Seq<NodeView>, i: int, n: int)
    ensures
        bytes_below(raw, i, n) >= 0,
        files_below(raw, i, n) >= 0,
    decreases n,
{
    if n > 0 {
        sums_are_not_negative(raw, i, n - 1);
    }
}

proof fn gathering_below(raw: Seq<NodeView>, partial: bool, i: int, n: int)
    requires
        0 <= n <= raw.len(),
        forall|j: int| 0 <= j < raw.len() ==> (#[trigger] raw[j]).bytes == 0,
    ensures
        gathers_below(all_below(raw, partial, i, n), raw, partial, i, n),
    decreases n,
{
    if n > 0 {
        gathering_below(raw, partial, i, n - 1);
        sums_are_not_negative(raw, i, n - 1);
        let before = all_below(raw, partial, i, n - 1);
        let node = raw[n - 1];
        assert(node.bytes == 0);
        let all = all_below(raw, partial, i, n);
        if is_below(raw, n - 1, i) {
            assert(all.modified is Some ==> exists|j: int|
                0 <= j < n && #[trigger] is_below(raw, j, i) && raw[j].modified == all.modified) by {
                if all.modified is Some && all.modified != node.modified {
                    assert(all.modified == before.modified);
                    let j = choose|j: int|
                        0 <= j < n - 1 && #[trigger] is_below(raw, j, i) && raw[j].modified
                            == before.modified;
                    assert(is_below(raw, j, i));
                }
            }
            assert(all.accessed is Some ==> exists|j: int|
                0 <= j < n && #[trigger] is_below(raw, j, i) && raw[j].accessed == all.accessed) by {
                if all.accessed is Some && all.accessed != node.accessed {
                    assert(all.accessed == before.accessed);
                    let j = choose|j: int|
                        0 <= j < n - 1 && #[trigger] is_below(raw, j, i) && raw[j].accessed
                            == before.accessed;
                    assert(is_below(raw, j, i));
                }
            }
            assert(all.missing_modified <==> before.missing_modified || node.missing_modified);
            assert(all.missing_accessed <==> before.missing_accessed || node.missing_accessed);
            assert(all.incomplete <==> before.incomplete || node.incomplete || partial);
        }
    }
}

/// A folder of a map that was added up shows all that lies at and below it: the
/// size and number of the files, the latest dates, and every mark. Nothing else
/// shows there, and nothing is counted twice.
pub proof fn folders_show_everything_below(
    raw: Seq<NodeView>,
    tree: Seq<NodeView>,
    partial: bool,
    i: int,
)
    requires
        shaped(raw),
        added_up(raw, tree, partial),
        0 <= i < raw.len(),
        forall|j: int| 0 <= j < raw.len() ==> (#[trigger] raw[j]).bytes == 0,
    ensures
        ({
            let n = raw.len() as int;
            &&& tree.len() == n
            &&& tree[i].path == raw[i].path
            &&& tree[i].parent == raw[i].parent
            &&& tree[i].children == raw[i].children
            &&& tree[i].own_bytes == raw[i].own_bytes
            &&& shows_sum(tree[i].bytes, bytes_below(raw, i, n))
            &&& shows_sum(tree[i].files, files_below(raw, i, n))
            &&& forall|j: int|
                0 <= j < n && #[trigger] is_below(raw, j, i) ==> not_before(
                    tree[i].modified,
                    raw[j].modified,
                ) && not_before(tree[i].accessed, raw[j].accessed)
            &&& tree[i].modified is Some ==> exists|j: int|
                0 <= j < n && #[trigger] is_below(raw, j, i) && raw[j].modified == tree[i].modified
            &&& tree[i].accessed is Some ==> exists|j: int|
                0 <= j < n && #[trigger] is_below(raw, j, i) && raw[j].accessed == tree[i].accessed
            &&& tree[i].missing_modified <==> exists|j: int|
                0 <= j < n && #[trigger] is_below(raw, j, i) && raw[j].missing_modified
            &&& tree[i].missing_accessed <==> exists|j: int|
                0 <= j < n && #[trigger] is_below(raw, j, i) && raw[j].missing_accessed
            &&& tree[i].incomplete <==> partial || exists|j: int|
                0 <= j < n && #[trigger] is_below(raw, j, i) && raw[j].incomplete
        }),
{
    let n = raw.len() as int;
    totals_are_those_below(raw, tree, partial, i);
    gathering_below(raw, partial, i, n);
    assert(is_below(raw, i, i));
    let all = all_below(raw, partial, i, n);
    assert(gathers_below(all, raw, partial, i, n));
    assert(tree[i].totals() == all);
    if exists|j: int| 0 <= j < n && #[trigger] is_below(raw, j, i) && raw[j].incomplete {
        let j = choose|j: int| 0 <= j < n && #[trigger] is_below(raw, j, i) && raw[j].incomplete;
        assert(is_below(raw, j, i) && (raw[j].incomplete || partial));
    }
}

} // verus!
