//! Keeping what an earlier map knew of folders that can no longer be read.
use vstd::prelude::*;
use crate::path::PathView;
use crate::spread::{in_rows, lists_of, ordered, sources_below, sources_exist, spread, spread_out, starting, Placement};
use crate::time::later;
use crate::tree::{children_of, joined, join_folder, joining_keeps_the_nesting, joining_keeps_the_shape, latest, nested, saturated, shaped, totals_do_not_move_folders, tree_of, Node, NodeView};

verus! {

/// The children that each folder lists.
pub open spec fn child_lists(tree: Seq<NodeView>) -> Seq<Seq<usize>> {
    Seq::new(tree.len(), |i: int| tree[i].children)
}

/// The children of a tree's folder stand after it.
pub proof fn children_follow(tree: Seq<NodeView>, p: int, n: int)
    requires
        shaped(tree),
        0 <= p < tree.len(),
        0 <= n <= tree.len(),
    ensures
        forall|k: int|
            0 <= k < children_of(tree, p, n).len() ==> p < #[trigger] children_of(tree, p, n)[k] < n
                && tree[children_of(tree, p, n)[k] as int].parent == Some(p as usize),
    decreases n,
{
    if n > 0 {
        children_follow(tree, p, n - 1);
        if tree[n - 1].parent == Some(p as usize) {
            assert((tree[n - 1].parent->0 as int) < n - 1);
        }
    }
}

/// A tree lists children in order.
pub proof fn trees_are_ordered(tree: Seq<NodeView>)
    requires
        shaped(tree),
    ensures
        ordered(child_lists(tree)),
{
    let kids = child_lists(tree);
    assert forall|x: int, k: int| 0 <= x < kids.len() && 0 <= k < kids[x].len() implies x
        < #[trigger] kids[x][k] < kids.len() by {
        assert(tree[x].children == children_of(tree, x, tree.len() as int));
        children_follow(tree, x, tree.len() as int);
    }
}

/// The last folder with a path, among the first `n`.
pub open spec fn last_with_path(tree: Seq<NodeView>, path: PathView, n: int) -> Option<int>
    decreases n,
{
    if n <= 0 {
        None
    } else if tree[n - 1].path.same(path) {
        Some(n - 1)
    } else {
        last_with_path(tree, path, n - 1)
    }
}

/// How many files the first `n` listed folders hold.
pub open spec fn files_in(tree: Seq<NodeView>, folders: Seq<usize>, n: int) -> nat
    decreases n,
{
    if n <= 0 {
        0
    } else {
        files_in(tree, folders, n - 1) + tree[folders[n - 1] as int].files as nat
    }
}

/// How many files lie directly in a folder, as its totals tell.
pub open spec fn direct_files(tree: Seq<NodeView>, i: int) -> u64 {
    let below = files_in(tree, tree[i].children, tree[i].children.len() as int);
    if tree[i].files >= below {
        (tree[i].files - below) as u64
    } else {
        0
    }
}

/// A folder that could not be read, with what `previous` knew of its direct files.
pub open spec fn kept(node: NodeView, base: Seq<NodeView>, previous: int) -> NodeView {
    let old = base[previous];
    NodeView {
        own_bytes: old.own_bytes,
        files: direct_files(base, previous),
        modified: later(node.modified, old.modified),
        accessed: later(node.accessed, old.accessed),
        missing_modified: node.missing_modified || old.missing_modified,
        missing_accessed: node.missing_accessed || old.missing_accessed,
        incomplete: true,
        ..node
    }
}

/// Whether one of the first `n` listed folders has a path.
pub open spec fn is_listed(tree: Seq<NodeView>, folders: Seq<usize>, path: PathView, n: int) -> bool {
    exists|k: int| 0 <= k < n && tree[#[trigger] folders[k] as int].path.same(path)
}

/// Those of the first `n` old children that the folder at `id` does not have now.
pub open spec fn lost_children(
    tree: Seq<NodeView>,
    id: int,
    base: Seq<NodeView>,
    children: Seq<usize>,
    n: int,
) -> Seq<usize>
    decreases n,
{
    if n <= 0 {
        seq![]
    } else {
        let rest = lost_children(tree, id, base, children, n - 1);
        let c = children[n - 1];
        if is_listed(tree, tree[id].children, base[c as int].path, tree[id].children.len() as int) {
            rest
        } else {
            rest.push(c)
        }
    }
}

/// An old folder that takes its place again.
pub open spec fn graft(base: Seq<NodeView>, source: int, parent: usize) -> NodeView {
    NodeView {
        bytes: 0,
        files: direct_files(base, source),
        parent: Some(parent),
        children: seq![],
        incomplete: true,
        ..base[source]
    }
}

/// Where the parent of a placement stands: at `top`, or behind the `start` folders that were there.
pub open spec fn parent_of(placement: Placement, top: int, start: int) -> usize {
    match placement.parent {
        None => top as usize,
        Some(p) => (start + p) as usize,
    }
}

/// The tree with the first `n` placements grafted on.
pub open spec fn grafted(
    tree: Seq<NodeView>,
    id: int,
    base: Seq<NodeView>,
    list: Seq<Placement>,
    n: int,
) -> Seq<NodeView>
    decreases n,
{
    if n <= 0 {
        tree
    } else {
        joined(
            grafted(tree, id, base, list, n - 1),
            graft(
                base,
                list[n - 1].source as int,
                parent_of(list[n - 1], id, tree.len() as int),
            ),
        )
    }
}

/// The old folders that come back below the folder at `id`.
pub open spec fn returning(tree: Seq<NodeView>, id: int, base: Seq<NodeView>, previous: int) -> Seq<
    Placement,
> {
    let children = base[previous].children;
    spread(
        child_lists(base),
        starting(lost_children(tree, id, base, children, children.len() as int)),
        0,
    )
}

/// The tree with what `base` knew of the unreadable folder at `id`: its direct
/// files, and the subfolders that were not found again.
pub open spec fn preserved_one(tree: Seq<NodeView>, id: int, base: Seq<NodeView>) -> Seq<NodeView> {
    match last_with_path(base, tree[id].path, base.len() as int) {
        None => tree,
        Some(previous) => {
            let known = tree.update(id, kept(tree[id], base, previous));
            let list = returning(known, id, base, previous);
            grafted(known, id, base, list, list.len() as int)
        },
    }
}

/// The tree with what `base` knew of the first `n` unreadable folders.
pub open spec fn preserved(
    tree: Seq<NodeView>,
    failed: Seq<usize>,
    base: Seq<NodeView>,
    n: int,
) -> Seq<NodeView>
    decreases n,
{
    if n <= 0 {
        tree
    } else {
        preserved_one(preserved(tree, failed, base, n - 1), failed[n - 1] as int, base)
    }
}

fn find_last(base: &Vec<Node>, node: &Node) -> (r: Option<usize>)
    ensures
        match r {
            Some(i) => i < base@.len() && last_with_path(
                tree_of(base@),
                node@.path,
                base@.len() as int,
            ) == Some(i as int) && tree_of(base@)[i as int].path.same(node@.path),
            None => last_with_path(tree_of(base@), node@.path, base@.len() as int) is None,
        },
{
    let mut n: usize = base.len();
    while n > 0
        invariant
            n <= base@.len(),
            last_with_path(tree_of(base@), node@.path, n as int) == last_with_path(
                tree_of(base@),
                node@.path,
                base@.len() as int,
            ),
        decreases n,
    {
        assert(tree_of(base@)[n - 1] == base@[n - 1]@);
        if base[n - 1].path.same(&node.path) {
            return Some(n - 1);
        }
        n = n - 1;
    }
    None
}

/// How many files lie directly in a folder, as its totals tell.
pub fn count_direct_files(base: &Vec<Node>, i: usize) -> (r: u64)
    requires
        i < base@.len(),
        forall|k: int|
            0 <= k < base@[i as int].children@.len() ==> (#[trigger] base@[i as int].children@[k])
                < base@.len(),
    ensures
        r == direct_files(tree_of(base@), i as int),
{
    let ghost tree = tree_of(base@);
    let children = &base[i].children;
    assert(tree[i as int].children == children@);
    let mut below: u64 = 0;
    let mut k: usize = 0;
    while k < children.len()
        invariant
            k <= children@.len(),
            tree == tree_of(base@),
            forall|j: int| 0 <= j < children@.len() ==> (#[trigger] children@[j]) < base@.len(),
            below == saturated(files_in(tree, children@, k as int) as int),
        decreases children@.len() - k,
    {
        let c: usize = children[k];
        assert(tree[c as int] == base@[c as int]@);
        below = below.saturating_add(base[c].files);
        k += 1;
    }
    assert(tree[i as int].files == base@[i as int].files);
    base[i].files.saturating_sub(below)
}

/// A copy of the children that each folder lists.
pub fn copy_child_lists(nodes: &Vec<Node>) -> (r: Vec<Vec<usize>>)
    ensures
        lists_of(r@) == child_lists(tree_of(nodes@)),
        r@.len() == nodes@.len(),
{
    let mut r: Vec<Vec<usize>> = Vec::new();
    let mut i: usize = 0;
    while i < nodes.len()
        invariant
            i <= nodes@.len(),
            r@.len() == i,
            forall|j: int| 0 <= j < i ==> (#[trigger] r@[j])@ == nodes@[j].children@,
        decreases nodes@.len() - i,
    {
        r.push(copy_positions(&nodes[i].children));
        i += 1;
    }
    assert(lists_of(r@) =~= child_lists(tree_of(nodes@)));
    r
}

/// A copy of a list of positions.
pub fn copy_positions(list: &Vec<usize>) -> (r: Vec<usize>)
    ensures
        r@ == list@,
{
    let mut r: Vec<usize> = Vec::new();
    let mut i: usize = 0;
    while i < list.len()
        invariant
            i <= list@.len(),
            r@ == list@.take(i as int),
        decreases list@.len() - i,
    {
        r.push(list[i]);
        i += 1;
        assert(r@ =~= list@.take(i as int));
    }
    assert(r@ =~= list@);
    r
}

fn lists_path(nodes: &Vec<Node>, id: usize, node: &Node) -> (r: bool)
    requires
        id < nodes@.len(),
        forall|k: int|
            0 <= k < nodes@[id as int].children@.len() ==> (#[trigger] nodes@[id as int].children@[k])
                < nodes@.len(),
    ensures
        r == is_listed(
            tree_of(nodes@),
            tree_of(nodes@)[id as int].children,
            node@.path,
            tree_of(nodes@)[id as int].children.len() as int,
        ),
{
    let ghost tree = tree_of(nodes@);
    let children = &nodes[id].children;
    assert(tree[id as int].children == children@);
    let mut k: usize = 0;
    while k < children.len()
        invariant
            k <= children@.len(),
            tree == tree_of(nodes@),
            tree[id as int].children == children@,
            forall|j: int| 0 <= j < children@.len() ==> (#[trigger] children@[j]) < nodes@.len(),
            forall|j: int| 0 <= j < k ==> !tree[(#[trigger] children@[j]) as int].path.same(node@.path),
        decreases children@.len() - k,
    {
        let c: usize = children[k];
        assert(tree[c as int] == nodes@[c as int]@);
        if nodes[c].path.same(&node.path) {
            assert(tree[children@[k as int] as int].path.same(node@.path));
            return true;
        }
        k += 1;
    }
    false
}

impl Node {
    /// Takes over what was known of the direct files.
    fn keep(&mut self, base: &Vec<Node>, previous: usize)
        requires
            previous < base@.len(),
            forall|k: int|
                0 <= k < base@[previous as int].children@.len() ==> (
                #[trigger] base@[previous as int].children@[k]) < base@.len(),
        ensures
            final(self)@ == kept(old(self)@, tree_of(base@), previous as int),
    {
        let old_node = &base[previous];
        assert(tree_of(base@)[previous as int] == old_node@);
        self.own_bytes = old_node.own_bytes;
        self.files = count_direct_files(base, previous);
        self.modified = latest(self.modified, old_node.modified);
        self.accessed = latest(self.accessed, old_node.accessed);
        self.missing_modified = self.missing_modified || old_node.missing_modified;
        self.missing_accessed = self.missing_accessed || old_node.missing_accessed;
        self.incomplete = true;
    }
}

/// A copied source lies in the child list of the copy above it.
pub proof fn source_is_a_child(kids: Seq<Seq<usize>>, list: Seq<Placement>, k: int)
    requires
        in_rows(kids, list, list.len() as int),
        0 <= k < list.len() <= usize::MAX,
        list[k].parent is Some,
    ensures
        kids[list[list[k].parent->0 as int].source as int].contains(list[k].source),
{
    let p = list[k].parent->0 as int;
    below_has(list, p, list.len() as int, k);
    assert(sources_below(list, p, list.len() as int) == kids[list[p].source as int]);
}

proof fn below_has(list: Seq<Placement>, at: int, n: int, k: int)
    requires
        0 <= k < n <= list.len(),
        list[k].parent == Some(at as usize),
    ensures
        sources_below(list, at, n).contains(list[k].source),
    decreases n,
{
    if k == n - 1 {
        let s = sources_below(list, at, n);
        assert(s[s.len() - 1] == list[k].source);
    } else {
        below_has(list, at, n - 1, k);
        let s = sources_below(list, at, n - 1);
        let i = choose|i: int| 0 <= i < s.len() && s[i] == list[k].source;
        assert(sources_below(list, at, n)[i] == list[k].source);
    }
}

/// Only old subfolders are lost.
pub proof fn lost_children_are_children(
    tree: Seq<NodeView>,
    id: int,
    base: Seq<NodeView>,
    children: Seq<usize>,
    n: int,
)
    requires
        0 <= n <= children.len(),
    ensures
        forall|k: int|
            0 <= k < lost_children(tree, id, base, children, n).len() ==> children.contains(
                #[trigger] lost_children(tree, id, base, children, n)[k],
            ),
    decreases n,
{
    if n > 0 {
        lost_children_are_children(tree, id, base, children, n - 1);
        let s = lost_children(tree, id, base, children, n);
        assert forall|k: int| 0 <= k < s.len() implies children.contains(#[trigger] s[k]) by {
            let rest = lost_children(tree, id, base, children, n - 1);
            if k < rest.len() {
                assert(s[k] == rest[k]);
            } else {
                assert(s[k] == children[n - 1]);
            }
        }
    }
}

/// Facts that hold of a scanned tree before totals are added.
pub open spec fn scanned(tree: Seq<NodeView>) -> bool {
    &&& shaped(tree)
    &&& forall|i: int| 0 <= i < tree.len() ==> (#[trigger] tree[i]).bytes == 0
}

/// Whether paths may be trusted to be nested after folders of `base` come back.
pub open spec fn both_nested(tree: Seq<NodeView>, base: Seq<NodeView>) -> bool {
    nested(tree) && nested(base) && shaped(base)
}

/// One more graft keeps the tree a tree.
proof fn grafting_keeps_the_tree(
    tree: Seq<NodeView>,
    id: int,
    base: Seq<NodeView>,
    list: Seq<Placement>,
    n: int,
    previous: int,
)
    requires
        0 <= n < list.len() <= usize::MAX,
        0 <= id < tree.len(),
        tree.len() + n < usize::MAX,
        in_rows(child_lists(base), list, list.len() as int),
        sources_exist(child_lists(base), list),
        scanned(grafted(tree, id, base, list, n)),
        grafted(tree, id, base, list, n).len() == tree.len() + n,
        0 <= previous < base.len(),
        tree[id].path.same(base[previous].path),
        forall|k: int|
            0 <= k < list.len() && (#[trigger] list[k]).parent is None ==> base[previous].children.contains(
                list[k].source,
            ),
        forall|k: int|
            0 <= k < n ==> (#[trigger] grafted(tree, id, base, list, n)[tree.len() + k]).path
                == base[list[k].source as int].path,
        forall|k: int|
            0 <= k < tree.len() ==> (#[trigger] grafted(tree, id, base, list, n)[k]).path
                == tree[k].path,
    ensures
        scanned(grafted(tree, id, base, list, n + 1)),
        grafted(tree, id, base, list, n + 1).len() == tree.len() + n + 1,
        both_nested(grafted(tree, id, base, list, n), base) ==> nested(
            grafted(tree, id, base, list, n + 1),
        ),
        forall|k: int|
            0 <= k < n + 1 ==> (#[trigger] grafted(tree, id, base, list, n + 1)[tree.len() + k]).path
                == base[list[k].source as int].path,
        forall|k: int|
            0 <= k < tree.len() ==> (#[trigger] grafted(tree, id, base, list, n + 1)[k]).path
                == tree[k].path,
{
    let now = grafted(tree, id, base, list, n);
    let parent = parent_of(list[n], id, tree.len() as int);
    let node = graft(base, list[n].source as int, parent);
    let more = joined(now, node);
    assert(more == grafted(tree, id, base, list, n + 1));
    assert(list[n].parent matches Some(p) ==> p < n);
    assert(parent < now.len());
    joining_keeps_the_shape(now, node);
    assert forall|i: int| 0 <= i < more.len() implies (#[trigger] more[i]).bytes == 0 by {
        if i < now.len() {
            assert(now[i].bytes == 0);
        }
    }
    assert forall|k: int| 0 <= k < n + 1 implies (#[trigger] more[tree.len() + k]).path
        == base[list[k].source as int].path by {
        if k < n {
            assert(now[tree.len() + k].path == base[list[k].source as int].path);
        }
    }
    assert forall|k: int| 0 <= k < tree.len() implies (#[trigger] more[k]).path == tree[k].path by {
        assert(now[k].path == tree[k].path);
    }
    if both_nested(now, base) {
        let above: int = match list[n].parent {
            None => previous,
            Some(p) => list[p as int].source as int,
        };
        let kids = child_lists(base);
        match list[n].parent {
            None => {
                assert(base[previous].children.contains(list[n].source));
                assert(now[id].path == tree[id].path);
            },
            Some(p) => {
                source_is_a_child(kids, list, n);
                assert(now[tree.len() + p].path == base[list[p as int].source as int].path);
            },
        }
        assert(list[above_index(list, n)].source < kids.len() || list[n].parent is None);
        assert(base[above].children.contains(list[n].source));
        let j = choose|j: int| 0 <= j < base[above].children.len() && base[above].children[j] == list[n].source;
        assert(base[above].children == children_of(base, above, base.len() as int));
        children_follow(base, above, base.len() as int);
        assert(base[list[n].source as int].parent == Some(above as usize));
        assert(base[list[n].source as int].path.is_inside(base[above].path));
        assert(now[parent as int].path.same(base[above].path));
        joining_keeps_the_nesting(now, node);
    }
}

spec fn above_index(list: Seq<Placement>, n: int) -> int {
    match list[n].parent {
        None => n,
        Some(p) => p as int,
    }
}

/// Whether a folder at `id` has a subfolder with a path.
pub open spec fn has_child(tree: Seq<NodeView>, id: int, path: PathView) -> bool {
    exists|j: int|
        0 <= j < tree.len() && (#[trigger] tree[j]).path.same(path) && tree[j].parent == Some(
            id as usize,
        )
}

/// Whether the folder at `id` shows what `base` knew of it: its direct files and
/// every subfolder.
pub open spec fn still_known(tree: Seq<NodeView>, id: int, base: Seq<NodeView>, previous: int) -> bool {
    &&& tree[id].own_bytes == base[previous].own_bytes
    &&& tree[id].files == direct_files(base, previous)
    &&& tree[id].incomplete
    &&& forall|k: int|
        0 <= k < base[previous].children.len() ==> has_child(
            tree,
            id,
            base[(#[trigger] base[previous].children[k]) as int].path,
        )
}

/// Whether a folder is the same but for the subfolders that it lists.
pub open spec fn same_but_children(a: NodeView, b: NodeView) -> bool {
    b == (NodeView { children: b.children, ..a })
}

/// Whether later folders left the earlier ones in their place.
pub open spec fn in_place(before: Seq<NodeView>, after: Seq<NodeView>) -> bool {
    &&& before.len() <= after.len()
    &&& forall|i: int|
        0 <= i < before.len() ==> (#[trigger] after[i]).path == before[i].path && after[i].parent
            == before[i].parent
}

proof fn children_stay_children(
    before: Seq<NodeView>,
    after: Seq<NodeView>,
    id: int,
    base: Seq<NodeView>,
    previous: int,
)
    requires
        in_place(before, after),
        0 <= id < before.len(),
        still_known(before, id, base, previous),
        same_but_children(before[id], after[id]),
    ensures
        still_known(after, id, base, previous),
{
    assert forall|k: int| 0 <= k < base[previous].children.len() implies has_child(
        after,
        id,
        base[(#[trigger] base[previous].children[k]) as int].path,
    ) by {
        let path = base[base[previous].children[k] as int].path;
        let j = choose|j: int|
            0 <= j < before.len() && (#[trigger] before[j]).path.same(path) && before[j].parent == Some(
                id as usize,
            );
        assert(after[j].path.same(path) && after[j].parent == Some(id as usize));
    }
}

/// An old subfolder that is not listed any more is lost.
pub proof fn lost_children_have(
    tree: Seq<NodeView>,
    id: int,
    base: Seq<NodeView>,
    children: Seq<usize>,
    n: int,
    k: int,
)
    requires
        0 <= k < n <= children.len(),
        !is_listed(
            tree,
            tree[id].children,
            base[children[k] as int].path,
            tree[id].children.len() as int,
        ),
    ensures
        lost_children(tree, id, base, children, n).contains(children[k]),
    decreases n,
{
    let s = lost_children(tree, id, base, children, n);
    if k == n - 1 {
        assert(s[s.len() - 1] == children[k]);
    } else {
        lost_children_have(tree, id, base, children, n - 1, k);
        let rest = lost_children(tree, id, base, children, n - 1);
        let i = choose|i: int| 0 <= i < rest.len() && rest[i] == children[k];
        assert(s[i] == children[k]);
    }
}

/// Brings back what `base` knew of one unreadable folder.
fn preserve_one(nodes: &mut Vec<Node>, id: usize, base: &Vec<Node>, kids: &Vec<Vec<usize>>)
    requires
        id < old(nodes)@.len(),
        scanned(tree_of(old(nodes)@)),
        ordered(child_lists(tree_of(base@))),
        lists_of(kids@) == child_lists(tree_of(base@)),
    ensures
        tree_of(final(nodes)@) == preserved_one(tree_of(old(nodes)@), id as int, tree_of(base@)),
        scanned(tree_of(final(nodes)@)),
        in_place(tree_of(old(nodes)@), tree_of(final(nodes)@)),
        forall|i: int|
            0 <= i < old(nodes)@.len() && i != id ==> same_but_children(
                tree_of(old(nodes)@)[i],
                #[trigger] tree_of(final(nodes)@)[i],
            ),
        last_with_path(
            tree_of(base@),
            tree_of(old(nodes)@)[id as int].path,
            base@.len() as int,
        ) matches Some(previous) ==> still_known(
            tree_of(final(nodes)@),
            id as int,
            tree_of(base@),
            previous,
        ),
        both_nested(tree_of(old(nodes)@), tree_of(base@)) ==> nested(tree_of(final(nodes)@)),
{
    let ghost before = tree_of(nodes@);
    let ghost tree = tree_of(base@);
    let previous: usize = match find_last(base, &nodes[id]) {
        None => {
            assert(before[id as int] == nodes@[id as int]@);
            return;
        },
        Some(i) => i,
    };
    assert(before[id as int] == nodes@[id as int]@);
    assert forall|x: int, k: int|
        0 <= x < base@.len() && 0 <= k < base@[x].children@.len() implies #[trigger] base@[x].children@[k]
        < base@.len() by {
        assert(child_lists(tree)[x][k] < tree.len());
    }
    nodes[id].keep(base, previous);
    let ghost known = before.update(id as int, kept(before[id as int], tree, previous as int));
    assert(tree_of(nodes@) =~= known);
    proof {
        totals_do_not_move_folders(before, known);
        assert(nodes.len() == known.len());
        children_follow(known, id as int, known.len() as int);
        assert(known[id as int].children == children_of(known, id as int, known.len() as int));
    }
    assert(nodes@[id as int]@ == known[id as int]);
    let mut lost: Vec<usize> = Vec::new();
    let mut i: usize = 0;
    let ghost children = tree[previous as int].children;
    assert(children == base@[previous as int].children@);
    while i < base[previous].children.len()
        invariant
            i <= children.len(),
            previous < base@.len(),
            id < nodes@.len(),
            tree == tree_of(base@),
            known == tree_of(nodes@),
            children == base@[previous as int].children@,
            forall|k: int| 0 <= k < children.len() ==> (#[trigger] children[k]) < base@.len(),
            forall|k: int|
                0 <= k < nodes@[id as int].children@.len() ==> (
                #[trigger] nodes@[id as int].children@[k]) < nodes@.len(),
            lost@ == lost_children(known, id as int, tree, children, i as int),
        decreases children.len() - i,
    {
        let c: usize = base[previous].children[i];
        assert(tree[c as int] == base@[c as int]@);
        if !lists_path(nodes, id, &base[c]) {
            lost.push(c);
        }
        i += 1;
    }
    proof {
        lost_children_are_children(known, id as int, tree, children, children.len() as int);
        assert forall|k: int| 0 <= k < lost@.len() implies (#[trigger] lost@[k]) < kids@.len() by {
            assert(children.contains(lost@[k]));
            let j = choose|j: int| 0 <= j < children.len() && children[j] == lost@[k];
            assert(base@[previous as int].children@[j] < base@.len());
            assert(kids@.len() == lists_of(kids@).len());
        }
    }
    let list = spread_out(kids, &lost);
    let ghost placements = list@;
    proof {
        assert forall|k: int| 0 <= k < placements.len() && (
        #[trigger] placements[k]).parent is None implies tree[previous as int].children.contains(
            placements[k].source,
        ) by {
            assert(placements[k] == starting(lost@)[k]);
            assert(children.contains(lost@[k]));
        }
        assert(placements == returning(known, id as int, tree, previous as int));
    }
    let start: usize = nodes.len();
    let mut n: usize = 0;
    while n < list.len()
        invariant
            n <= placements.len(),
            placements == list@,
            start == known.len(),
            id < start,
            tree == tree_of(base@),
            previous < base@.len(),
            known[id as int].path.same(tree[previous as int].path),
            nodes@.len() == start + n,
            in_rows(child_lists(tree), placements, placements.len() as int),
            sources_exist(child_lists(tree), placements),
            forall|x: int, k: int|
                0 <= x < base@.len() && 0 <= k < base@[x].children@.len()
                    ==> #[trigger] base@[x].children@[k] < base@.len(),
            forall|k: int|
                0 <= k < placements.len() && (
                #[trigger] placements[k]).parent is None ==> tree[previous as int].children.contains(
                    placements[k].source,
                ),
            tree_of(nodes@) == grafted(known, id as int, tree, placements, n as int),
            scanned(tree_of(nodes@)),
            both_nested(known, tree) ==> nested(tree_of(nodes@)),
            forall|k: int|
                0 <= k < n ==> (#[trigger] grafted(known, id as int, tree, placements, n as int)[start
                    + k]).path == tree[placements[k].source as int].path,
            forall|k: int|
                0 <= k < start ==> (#[trigger] grafted(known, id as int, tree, placements, n as int)[k]).path
                    == known[k].path,
            forall|k: int|
                0 <= k < start ==> same_but_children(known[k], #[trigger] tree_of(nodes@)[k]),
            forall|k: int|
                0 <= k < n ==> (#[trigger] tree_of(nodes@)[start + k]).parent == Some(
                    parent_of(placements[k], id as int, start as int),
                ),
        decreases placements.len() - n,
    {
        let p: Placement = list[n];
        assert(p.source < child_lists(tree).len());
        assert(p.parent matches Some(q) ==> q < n);
        assert(nodes.len() == start + n);
        let parent: usize = match p.parent {
            None => id,
            Some(q) => start + q,
        };
        let files: u64 = count_direct_files(base, p.source);
        let mut node = base[p.source].clone();
        assert(node@ == tree[p.source as int]);
        node.bytes = 0;
        node.files = files;
        node.parent = Some(parent);
        node.children = Vec::new();
        node.incomplete = true;
        assert(node@ =~= graft(tree, p.source as int, parent));
        assert(list.len() == placements.len());
        let ghost so_far = tree_of(nodes@);
        join_folder(nodes, node);
        proof {
            assert(tree_of(nodes@).len() == nodes.len());
            assert forall|k: int| 0 <= k < start implies same_but_children(
                known[k],
                #[trigger] tree_of(nodes@)[k],
            ) by {
                assert(same_but_children(known[k], so_far[k]));
            }
            assert forall|k: int| 0 <= k < n + 1 implies (#[trigger] tree_of(
                nodes@,
            )[start + k]).parent == Some(parent_of(placements[k], id as int, start as int)) by {
                if k < n {
                    assert(so_far[start + k].parent == Some(
                        parent_of(placements[k], id as int, start as int),
                    ));
                }
            }
            grafting_keeps_the_tree(known, id as int, tree, placements, n as int, previous as int);
        }
        n += 1;
    }
    proof {
        let after = tree_of(nodes@);
        assert forall|i: int| 0 <= i < before.len() implies (#[trigger] after[i]).path
            == before[i].path && after[i].parent == before[i].parent by {
            assert(same_but_children(known[i], after[i]));
        }
        assert forall|k: int| 0 <= k < children.len() implies has_child(
            after,
            id as int,
            tree[(#[trigger] children[k]) as int].path,
        ) by {
            let path = tree[children[k] as int].path;
            let now = known[id as int].children;
            if is_listed(known, now, path, now.len() as int) {
                let j = choose|j: int| 0 <= j < now.len() && known[#[trigger] now[j] as int].path.same(path);
                assert(known[now[j] as int].parent == Some(id));
                assert(same_but_children(known[now[j] as int], after[now[j] as int]));
            } else {
                lost_children_have(
                    known,
                    id as int,
                    tree,
                    children,
                    children.len() as int,
                    k,
                );
                let j = choose|j: int| 0 <= j < lost@.len() && lost@[j] == children[k];
                assert(placements[j] == starting(lost@)[j]);
                assert(after[start + j].parent == Some(
                    parent_of(placements[j], id as int, start as int),
                ));
                assert(after[start + j].path == path);
            }
        }
        assert(same_but_children(known[id as int], after[id as int]));
    }
}

/// Only folders whose own listing failed fall back on `base`; an error further
/// down does not discard what was read beside it.
pub fn preserve_failed(nodes: &mut Vec<Node>, failed: &Vec<usize>, base: &Vec<Node>)
    requires
        scanned(tree_of(old(nodes)@)),
        forall|k: int| 0 <= k < failed@.len() ==> (#[trigger] failed@[k]) < old(nodes)@.len(),
        ordered(child_lists(tree_of(base@))),
    ensures
        tree_of(final(nodes)@) == preserved(
            tree_of(old(nodes)@),
            failed@,
            tree_of(base@),
            failed@.len() as int,
        ),
        scanned(tree_of(final(nodes)@)),
        in_place(tree_of(old(nodes)@), tree_of(final(nodes)@)),
        forall|i: int|
            0 <= i < old(nodes)@.len() && !failed@.contains(i as usize) ==> same_but_children(
                tree_of(old(nodes)@)[i],
                #[trigger] tree_of(final(nodes)@)[i],
            ),
        forall|k: int|
            0 <= k < failed@.len() ==> (last_with_path(
                tree_of(base@),
                tree_of(old(nodes)@)[(#[trigger] failed@[k]) as int].path,
                base@.len() as int,
            ) matches Some(previous) ==> still_known(
                tree_of(final(nodes)@),
                failed@[k] as int,
                tree_of(base@),
                previous,
            )),
        both_nested(tree_of(old(nodes)@), tree_of(base@)) ==> nested(tree_of(final(nodes)@)),
{
    let ghost before = tree_of(nodes@);
    let kids = copy_child_lists(base);
    let mut i: usize = 0;
    while i < failed.len()
        invariant
            i <= failed@.len(),
            nodes@.len() >= before.len(),
            scanned(tree_of(nodes@)),
            forall|k: int| 0 <= k < failed@.len() ==> (#[trigger] failed@[k]) < before.len(),
            ordered(child_lists(tree_of(base@))),
            lists_of(kids@) == child_lists(tree_of(base@)),
            tree_of(nodes@) == preserved(before, failed@, tree_of(base@), i as int),
            both_nested(before, tree_of(base@)) ==> nested(tree_of(nodes@)),
            in_place(before, tree_of(nodes@)),
            forall|j: int|
                0 <= j < before.len() && !failed@.contains(j as usize) ==> same_but_children(
                    before[j],
                    #[trigger] tree_of(nodes@)[j],
                ),
            forall|k: int|
                0 <= k < i ==> (last_with_path(
                    tree_of(base@),
                    before[(#[trigger] failed@[k]) as int].path,
                    base@.len() as int,
                ) matches Some(previous) ==> still_known(
                    tree_of(nodes@),
                    failed@[k] as int,
                    tree_of(base@),
                    previous,
                )),
        decreases failed@.len() - i,
    {
        let ghost so_far = tree_of(nodes@);
        preserve_one(nodes, failed[i], base, &kids);
        proof {
            let after = tree_of(nodes@);
            assert(failed@.contains(failed@[i as int]));
            assert forall|j: int|
                0 <= j < before.len() && !failed@.contains(j as usize) implies same_but_children(
                before[j],
                #[trigger] after[j],
            ) by {
                assert(same_but_children(before[j], so_far[j]));
                assert(same_but_children(so_far[j], after[j]));
            }
            assert forall|k: int| 0 <= k < i + 1 implies (last_with_path(
                tree_of(base@),
                before[(#[trigger] failed@[k]) as int].path,
                base@.len() as int,
            ) matches Some(previous) ==> still_known(
                after,
                failed@[k] as int,
                tree_of(base@),
                previous,
            )) by {
                let at = failed@[k] as int;
                assert(so_far[at].path == before[at].path);
                if at != failed@[i as int] && last_with_path(
                    tree_of(base@),
                    before[at].path,
                    base@.len() as int,
                ) is Some {
                    let previous = last_with_path(
                        tree_of(base@),
                        before[at].path,
                        base@.len() as int,
                    )->0;
                    children_stay_children(so_far, after, at, tree_of(base@), previous);
                }
            }
        }
        i += 1;
    }
}

} // verus!
