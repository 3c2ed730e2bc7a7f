//! What a map keeps of folders that could not be read.
use vstd::prelude::*;
use crate::below::{is_below, not_before};
use crate::merge_laws::{a_child_is_listed, below_comes_from_the_list, spreading_ends_in_rows};
use crate::preserve::{child_lists, children_follow, direct_files, files_in, graft, grafted, is_listed, kept, last_with_path, lost_children, lost_children_are_children, lost_children_have, parent_of, preserved_one, returning, same_but_children, source_is_a_child, trees_are_ordered};
use crate::path::PathView;
use crate::spread::{in_rows, sources_below, starting, Placement};
use crate::tree::{children_of, shaped, NodeView};

verus! {

/// How many files those of the first `n` folders show that lie directly in folder `p`.
pub open spec fn files_of_subfolders(tree: Seq<NodeView>, p: int, n: int) -> int
    decreases n,
{
    if n <= 0 {
        0
    } else {
        files_of_subfolders(tree, p, n - 1) + if tree[n - 1].parent == Some(p as usize) {
            tree[n - 1].files as int
        } else {
            0
        }
    }
}

/// Whether a number is that of the files directly in folder `i`: all its files but
/// those of its subfolders.
pub open spec fn is_direct_count(files: u64, tree: Seq<NodeView>, i: int) -> bool {
    let below = files_of_subfolders(tree, i, tree.len() as int);
    if tree[i].files >= below {
        files == tree[i].files - below
    } else {
        files == 0
    }
}

proof fn listed_files_are_those_of_subfolders(tree: Seq<NodeView>, p: int, n: int)
    requires
        0 <= n <= tree.len() <= usize::MAX,
    ensures
        files_in(tree, children_of(tree, p, n), children_of(tree, p, n).len() as int)
            == files_of_subfolders(tree, p, n),
    decreases n,
{
    if n > 0 {
        listed_files_are_those_of_subfolders(tree, p, n - 1);
        if tree[n - 1].parent == Some(p as usize) {
            let rest = children_of(tree, p, n - 1);
            let all = children_of(tree, p, n);
            assert(all == rest.push((n - 1) as usize));
            files_in_longer(tree, rest, (n - 1) as usize, rest.len() as int);
        }
    }
}

proof fn files_in_longer(tree: Seq<NodeView>, list: Seq<usize>, more: usize, n: int)
    requires
        0 <= n <= list.len(),
    ensures
        files_in(tree, list.push(more), n) == files_in(tree, list, n),
    decreases n,
{
    if n > 0 {
        files_in_longer(tree, list, more, n - 1);
    }
}

/// The files directly in a folder are all its files but those of its subfolders.
pub proof fn direct_files_are_what_subfolders_leave(tree: Seq<NodeView>, i: int)
    requires
        shaped(tree),
        0 <= i < tree.len(),
    ensures
        is_direct_count(direct_files(tree, i), tree, i),
{
    assert(tree[i].children == children_of(tree, i, tree.len() as int));
    listed_files_are_those_of_subfolders(tree, i, tree.len() as int);
}

/// Whether folder `i` is the last of a map with a path.
pub open spec fn is_last_with(tree: Seq<NodeView>, path: PathView, i: int) -> bool {
    &&& 0 <= i < tree.len()
    &&& tree[i].path.same(path)
    &&& forall|j: int| i < j < tree.len() ==> !(#[trigger] tree[j]).path.same(path)
}

proof fn the_last_with_a_path(tree: Seq<NodeView>, path: PathView, n: int)
    requires
        0 <= n <= tree.len(),
        forall|j: int| n <= j < tree.len() ==> !(#[trigger] tree[j]).path.same(path),
    ensures
        match last_with_path(tree, path, n) {
            Some(i) => is_last_with(tree, path, i),
            None => forall|j: int| 0 <= j < tree.len() ==> !(#[trigger] tree[j]).path.same(path),
        },
    decreases n,
{
    if n > 0 && !tree[n - 1].path.same(path) {
        the_last_with_a_path(tree, path, n - 1);
    }
}

/// Whether a folder is the old folder `s` again, with its direct files and dates, and
/// marked as partly known.
pub open spec fn is_again(node: NodeView, base: Seq<NodeView>, s: int) -> bool {
    &&& node.path == base[s].path
    &&& node.own_bytes == base[s].own_bytes
    &&& is_direct_count(node.files, base, s)
    &&& node.modified == base[s].modified
    &&& node.accessed == base[s].accessed
    &&& node.missing_modified == base[s].missing_modified
    &&& node.missing_accessed == base[s].missing_accessed
    &&& node.incomplete
    &&& node.bytes == 0
}

/// Whether a folder that could not be read shows the direct files that the old map
/// knew, and of the dates the later ones.
pub open spec fn is_kept(node: NodeView, found: NodeView, base: Seq<NodeView>, previous: int) -> bool {
    let old = base[previous];
    &&& node.path == found.path
    &&& node.parent == found.parent
    &&& node.bytes == found.bytes
    &&& node.own_bytes == old.own_bytes
    &&& is_direct_count(node.files, base, previous)
    &&& not_before(node.modified, found.modified)
    &&& not_before(node.modified, old.modified)
    &&& node.modified == found.modified || node.modified == old.modified
    &&& not_before(node.accessed, found.accessed)
    &&& not_before(node.accessed, old.accessed)
    &&& node.accessed == found.accessed || node.accessed == old.accessed
    &&& node.missing_modified == (found.missing_modified || old.missing_modified)
    &&& node.missing_accessed == (found.missing_accessed || old.missing_accessed)
    &&& node.incomplete
}

/// Whether a folder is one from below the old folder `previous` again.
pub open spec fn comes_from_below(node: NodeView, base: Seq<NodeView>, previous: int) -> bool {
    exists|s: int|
        is_below(base, s, previous) && s != previous && #[trigger] is_again(node, base, s)
}

/// Whether folder `id` has a subfolder with a path.
pub open spec fn has_subfolder(tree: Seq<NodeView>, id: int, path: PathView) -> bool {
    exists|j: int|
        0 <= j < tree.len() && (#[trigger] tree[j]).parent == Some(id as usize) && tree[j].path.same(
            path,
        )
}

proof fn no_such_subfolder(tree: Seq<NodeView>, known: Seq<NodeView>, id: int, path: PathView)
    requires
        shaped(tree),
        0 <= id < tree.len(),
        known.len() == tree.len(),
        forall|j: int|
            0 <= j < tree.len() ==> (#[trigger] known[j]).path == tree[j].path && known[j].children
                == tree[j].children,
        !has_subfolder(tree, id, path),
    ensures
        !is_listed(known, known[id].children, path, known[id].children.len() as int),
{
    let children = known[id].children;
    assert(tree[id].children == children_of(tree, id, tree.len() as int));
    children_follow(tree, id, tree.len() as int);
    if is_listed(known, children, path, children.len() as int) {
        let k = choose|k: int|
            0 <= k < children.len() && known[#[trigger] children[k] as int].path.same(path);
        assert(tree[children[k] as int].parent == Some(id as usize));
    }
}

proof fn all_below_come_along(
    base: Seq<NodeView>,
    list: Seq<Placement>,
    c: int,
    s: int,
    i: int,
)
    requires
        shaped(base),
        0 <= c < base.len(),
        0 <= s < base.len(),
        is_below(base, s, c),
        0 <= i < list.len() <= usize::MAX,
        list[i].source == c,
        in_rows(child_lists(base), list, list.len() as int),
        forall|j: int| 0 <= j < list.len() ==> (#[trigger] list[j]).source < base.len(),
    ensures
        exists|j: int| 0 <= j < list.len() && (#[trigger] list[j]).source == s,
    decreases s,
{
    if s == c {
        assert(list[i].source == s);
    } else {
        let p = base[s].parent->0 as int;
        all_below_come_along(base, list, c, p, i);
        let q = choose|q: int| 0 <= q < list.len() && (#[trigger] list[q]).source == p;
        assert(base[p].children == children_of(base, p, base.len() as int));
        a_child_is_listed(base, p, base.len() as int, s);
        assert(sources_below(list, q, list.len() as int) == child_lists(
            base,
        )[list[q].source as int]);
        below_comes_from_the_list(list, q, list.len() as int, s as usize);
    }
}

proof fn grafts_stand_behind(
    tree: Seq<NodeView>,
    id: int,
    base: Seq<NodeView>,
    list: Seq<Placement>,
    n: int,
)
    requires
        0 <= id < tree.len(),
        0 <= n <= list.len(),
        tree.len() + list.len() <= usize::MAX,
        forall|k: int| 0 <= k < list.len() ==> ((#[trigger] list[k]).parent matches Some(p) ==> p < k),
    ensures
        ({
            let r = grafted(tree, id, base, list, n);
            &&& r.len() == tree.len() + n
            &&& forall|i: int| 0 <= i < tree.len() ==> same_but_children(tree[i], #[trigger] r[i])
            &&& forall|k: int|
                0 <= k < n ==> same_but_children(
                    graft(
                        base,
                        (#[trigger] list[k]).source as int,
                        parent_of(list[k], id, tree.len() as int),
                    ),
                    r[tree.len() + k],
                )
        }),
    decreases n,
{
    if n > 0 {
        grafts_stand_behind(tree, id, base, list, n - 1);
        let before = grafted(tree, id, base, list, n - 1);
        let node = graft(
            base,
            list[n - 1].source as int,
            parent_of(list[n - 1], id, tree.len() as int),
        );
        let r = grafted(tree, id, base, list, n);
        assert(list[n - 1].parent matches Some(p) ==> p < n - 1);
        assert(node.parent->0 < before.len());
        assert forall|i: int| 0 <= i < tree.len() implies same_but_children(
            tree[i],
            #[trigger] r[i],
        ) by {
            assert(same_but_children(tree[i], before[i]));
        }
        assert forall|k: int| 0 <= k < n implies same_but_children(
            graft(
                base,
                (#[trigger] list[k]).source as int,
                parent_of(list[k], id, tree.len() as int),
            ),
            r[tree.len() + k],
        ) by {
            if k < n - 1 {
                assert(before[tree.len() + k] == before[tree.len() + k]);
            }
        }
    }
}

proof fn sources_lie_below(
    base: Seq<NodeView>,
    list: Seq<Placement>,
    previous: int,
    k: int,
)
    requires
        shaped(base),
        0 <= previous < base.len(),
        0 <= k < list.len() <= usize::MAX,
        in_rows(child_lists(base), list, list.len() as int),
        forall|j: int| 0 <= j < list.len() ==> (#[trigger] list[j]).source < base.len(),
        forall|j: int|
            0 <= j < list.len() && (#[trigger] list[j]).parent is None
                ==> base[previous].children.contains(list[j].source),
    ensures
        is_below(base, list[k].source as int, previous),
        list[k].source != previous,
    decreases k,
{
    assert(base[previous].children == children_of(base, previous, base.len() as int));
    if list[k].parent is None {
        children_follow(base, previous, base.len() as int);
        assert(base[previous].children.contains(list[k].source));
        let c = list[k].source as int;
        assert(base[c].parent == Some(previous as usize));
        assert(is_below(base, previous, previous));
    } else {
        let p = list[k].parent->0 as int;
        assert(p < k);
        sources_lie_below(base, list, previous, p);
        source_is_a_child(child_lists(base), list, k);
        let above = list[p].source as int;
        assert(base[above].children == children_of(base, above, base.len() as int));
        children_follow(base, above, base.len() as int);
        assert(base[above].children.contains(list[k].source));
        above_of_below(base, above, previous);
    }
}

proof fn above_of_below(tree: Seq<NodeView>, j: int, i: int)
    requires
        is_below(tree, j, i),
    ensures
        j >= i,
    decreases j,
{
    if j != i {
        above_of_below(tree, tree[j].parent->0 as int, i);
    }
}

/// A folder that could not be read keeps what the old map knew of it, that is, of the
/// last folder there with its path: its direct files, the later dates, and every mark.
/// Other folders of the map stay as they are; what is added are folders from below it
/// in the old map, as they were, and every subfolder that was not found again comes
/// back with all that was below it. Without such a folder nothing changes.
pub proof fn unread_folders_keep_what_was_known(tree: Seq<NodeView>, id: int, base: Seq<NodeView>)
    requires
        shaped(base),
        shaped(tree),
        0 <= id < tree.len(),
        last_with_path(base, tree[id].path, base.len() as int) matches Some(previous)
            ==> tree.len() + returning(
            tree.update(id, kept(tree[id], base, previous)),
            id,
            base,
            previous,
        ).len() <= usize::MAX,
    ensures
        ({
            let r = preserved_one(tree, id, base);
            &&& (forall|j: int| 0 <= j < base.len() ==> !(#[trigger] base[j]).path.same(tree[id].path))
                ==> r == tree
            &&& forall|previous: int| #[trigger]
                is_last_with(base, tree[id].path, previous) ==> {
                    &&& r.len() >= tree.len()
                    &&& is_kept(r[id], tree[id], base, previous)
                    &&& forall|i: int|
                        0 <= i < tree.len() && i != id ==> same_but_children(tree[i], #[trigger] r[i])
                    &&& forall|k: int|
                        tree.len() <= k < r.len() ==> comes_from_below(
                            #[trigger] r[k],
                            base,
                            previous,
                        )
                    &&& forall|c: int, s: int|
                        #![trigger is_below(base, s, c), base[c]]
                        0 <= c < base.len() && base[c].parent == Some(previous as usize)
                            && !has_subfolder(tree, id, base[c].path) && 0 <= s < base.len()
                            && is_below(base, s, c) ==> exists|k: int|
                            tree.len() <= k < r.len() && is_again(#[trigger] r[k], base, s)
                }
        }),
{
    let n = base.len() as int;
    the_last_with_a_path(base, tree[id].path, n);
    if let Some(previous) = last_with_path(base, tree[id].path, n) {
        let known = tree.update(id, kept(tree[id], base, previous));
        let children = base[previous].children;
        let lost = lost_children(known, id, base, children, children.len() as int);
        let list = returning(known, id, base, previous);
        let kids = child_lists(base);
        trees_are_ordered(base);
        lost_children_are_children(known, id, base, children, children.len() as int);
        assert(children == children_of(base, previous, n));
        children_follow(base, previous, n);
        assert forall|k: int| 0 <= k < starting(lost).len() implies (
        #[trigger] starting(lost)[k]).source < kids.len() by {
            assert(children.contains(lost[k]));
        }
        spreading_ends_in_rows(kids, starting(lost), 0);
        assert forall|j: int| 0 <= j < list.len() && (
        #[trigger] list[j]).parent is None implies base[previous].children.contains(
            list[j].source,
        ) by {
            assert(list[j] == starting(lost)[j]);
            assert(children.contains(lost[j]));
        }
        grafts_stand_behind(known, id, base, list, list.len() as int);
        let r = preserved_one(tree, id, base);
        direct_files_are_what_subfolders_leave(base, previous);
        assert(same_but_children(known[id], r[id]));
        assert forall|i: int| 0 <= i < tree.len() && i != id implies same_but_children(
            tree[i],
            #[trigger] r[i],
        ) by {
            assert(known[i] == tree[i]);
        }
        assert forall|k: int| tree.len() <= k < r.len() implies comes_from_below(
            #[trigger] r[k],
            base,
            previous,
        ) by {
            let j = k - tree.len();
            assert(list[j].source < kids.len());
            let s = list[j].source as int;
            sources_lie_below(base, list, previous, j);
            direct_files_are_what_subfolders_leave(base, s);
            assert(is_again(r[k], base, s));
        }
        assert forall|c: int, s: int|
            #![trigger is_below(base, s, c), base[c]]
            0 <= c < base.len() && base[c].parent == Some(previous as usize) && !has_subfolder(
                tree,
                id,
                base[c].path,
            ) && 0 <= s < base.len() && is_below(base, s, c) implies exists|k: int|
            tree.len() <= k < r.len() && is_again(#[trigger] r[k], base, s) by {
            a_child_is_listed(base, previous, n, c);
            let m = choose|m: int| 0 <= m < children.len() && children[m] == c as usize;
            no_such_subfolder(tree, known, id, base[c].path);
            lost_children_have(known, id, base, children, children.len() as int, m);
            let i = choose|i: int| 0 <= i < lost.len() && lost[i] == c as usize;
            assert(list[i] == starting(lost)[i]);
            all_below_come_along(base, list, c, s, i);
            let j = choose|j: int| 0 <= j < list.len() && (#[trigger] list[j]).source == s;
            direct_files_are_what_subfolders_leave(base, s);
            assert(is_again(r[tree.len() + j], base, s));
        }
        assert forall|other: int| #[trigger] is_last_with(
            base,
            tree[id].path,
            other,
        ) implies other == previous by {
            if other < previous {
                assert(!base[previous].path.same(tree[id].path));
            } else if previous < other {
                assert(!base[other].path.same(tree[id].path));
            }
        }
    }
}

} // verus!
