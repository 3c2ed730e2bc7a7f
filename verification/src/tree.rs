//! Folders, their totals, and the tree they form.
use vstd::prelude::*;
use crate::path::{FolderPath, PathView};
use crate::time::{later, later_is_associative_and_commutative, Timestamp};

verus! {

/// One folder of a map. `own_bytes` counts the files directly inside it; once
/// totals have been added up, `bytes`, `files` and the dates cover the whole
/// subtree.
#[derive(Debug)]
pub struct Node {
    pub path: FolderPath,
    pub parent: Option<usize>,
    pub children: Vec<usize>,
    pub bytes: u64,
    pub own_bytes: u64,
    pub files: u64,
    pub modified: Option<Timestamp>,
    pub accessed: Option<Timestamp>,
    pub missing_modified: bool,
    pub missing_accessed: bool,
    pub incomplete: bool,
}

/// What a `Node` holds.
#[verifier::ext_equal]
pub struct NodeView {
    pub path: PathView,
    pub parent: Option<usize>,
    pub children: Seq<usize>,
    pub bytes: u64,
    pub own_bytes: u64,
    pub files: u64,
    pub modified: Option<Timestamp>,
    pub accessed: Option<Timestamp>,
    pub missing_modified: bool,
    pub missing_accessed: bool,
    pub incomplete: bool,
}

impl View for Node {
    type V = NodeView;

    open spec fn view(&self) -> NodeView {
        NodeView {
            path: self.path@,
            parent: self.parent,
            children: self.children@,
            bytes: self.bytes,
            own_bytes: self.own_bytes,
            files: self.files,
            modified: self.modified,
            accessed: self.accessed,
            missing_modified: self.missing_modified,
            missing_accessed: self.missing_accessed,
            incomplete: self.incomplete,
        }
    }
}

/// What a list of folders holds.
pub open spec fn tree_of(nodes: Seq<Node>) -> Seq<NodeView> {
    Seq::new(nodes.len(), |i: int| nodes[i]@)
}

/// A sum that stops at the largest `u64`.
pub open spec fn saturated(n: int) -> u64 {
    if n > u64::MAX {
        u64::MAX
    } else {
        n as u64
    }
}

/// What is added up over a subtree.
#[derive(Clone, Copy, Debug)]
pub struct Totals {
    pub bytes: u64,
    pub files: u64,
    pub modified: Option<Timestamp>,
    pub accessed: Option<Timestamp>,
    pub missing_modified: bool,
    pub missing_accessed: bool,
    pub incomplete: bool,
}

impl Totals {
    /// The totals of nothing.
    pub open spec fn nothing() -> Totals {
        Totals {
            bytes: 0,
            files: 0,
            modified: None,
            accessed: None,
            missing_modified: false,
            missing_accessed: false,
            incomplete: false,
        }
    }

    /// Both totals together: sizes and counts add up, dates take the latest, marks spread.
    pub open spec fn plus(self, other: Totals) -> Totals {
        Totals {
            bytes: saturated(self.bytes + other.bytes),
            files: saturated(self.files + other.files),
            modified: later(self.modified, other.modified),
            accessed: later(self.accessed, other.accessed),
            missing_modified: self.missing_modified || other.missing_modified,
            missing_accessed: self.missing_accessed || other.missing_accessed,
            incomplete: self.incomplete || other.incomplete,
        }
    }
}

/// Totals can be put together in any order.
pub proof fn totals_in_any_order(a: Totals, b: Totals, c: Totals)
    ensures
        a.plus(b) == b.plus(a),
        a.plus(b).plus(c) == a.plus(b.plus(c)),
        a.plus(b).plus(c) == a.plus(c).plus(b),
        a.plus(Totals::nothing()) == a,
        Totals::nothing().plus(a) == a,
{
    later_is_associative_and_commutative(a.modified, b.modified, c.modified);
    later_is_associative_and_commutative(a.accessed, b.accessed, c.accessed);
    later_is_associative_and_commutative(b.modified, c.modified, a.modified);
    later_is_associative_and_commutative(b.accessed, c.accessed, a.accessed);
}

impl NodeView {
    /// The totals that a folder shows.
    pub open spec fn totals(self) -> Totals {
        Totals {
            bytes: self.bytes,
            files: self.files,
            modified: self.modified,
            accessed: self.accessed,
            missing_modified: self.missing_modified,
            missing_accessed: self.missing_accessed,
            incomplete: self.incomplete,
        }
    }

    /// The totals of a folder before its subfolders are added: its direct
    /// files join what it holds already, and a partial map marks it.
    pub open spec fn starting_totals(self, partial: bool) -> Totals {
        Totals {
            bytes: saturated(self.bytes + self.own_bytes),
            incomplete: self.incomplete || partial,
            ..self.totals()
        }
    }

    /// The same folder with other totals.
    pub open spec fn with_totals(self, totals: Totals) -> NodeView {
        NodeView {
            bytes: totals.bytes,
            files: totals.files,
            modified: totals.modified,
            accessed: totals.accessed,
            missing_modified: totals.missing_modified,
            missing_accessed: totals.missing_accessed,
            incomplete: totals.incomplete,
            ..self
        }
    }
}

/// The totals of the subfolders of folder `p` that stand at or after `from`.
pub open spec fn subfolder_totals(tree: Seq<NodeView>, p: int, from: int) -> Totals
    decreases tree.len() - from,
{
    if from >= tree.len() {
        Totals::nothing()
    } else {
        let rest = subfolder_totals(tree, p, from + 1);
        if tree[from].parent == Some(p as usize) {
            tree[from].totals().plus(rest)
        } else {
            rest
        }
    }
}

/// Every folder but those without a parent stands after its parent.
pub open spec fn parents_first(tree: Seq<NodeView>) -> bool {
    forall|i: int| 0 <= i < tree.len() ==> ((#[trigger] tree[i]).parent matches Some(p) ==> p < i)
}

/// Whether `tree` is `raw` with every total added up: each folder holds its own
/// starting totals and those of all its subfolders.
pub open spec fn added_up(raw: Seq<NodeView>, tree: Seq<NodeView>, partial: bool) -> bool {
    &&& tree.len() == raw.len()
    &&& forall|i: int|
        #![trigger tree[i]]
        0 <= i < raw.len() ==> tree[i] == raw[i].with_totals(
            raw[i].starting_totals(partial).plus(subfolder_totals(tree, i, 0)),
        )
}

/// The same totals follow from the same folders.
proof fn subfolder_totals_agree(a: Seq<NodeView>, b: Seq<NodeView>, p: int, from: int)
    requires
        a.len() == b.len(),
        0 <= from,
        forall|i: int| from <= i < a.len() ==> a[i].parent == b[i].parent && a[i].totals() == b[i].totals(),
    ensures
        subfolder_totals(a, p, from) == subfolder_totals(b, p, from),
    decreases a.len() - from,
{
    if from < a.len() {
        subfolder_totals_agree(a, b, p, from + 1);
    }
}

/// Subfolders stand after their folder, so earlier positions add nothing.
pub proof fn subfolder_totals_start_after(tree: Seq<NodeView>, p: int, from: int)
    requires
        parents_first(tree),
        0 <= from <= p + 1,
        p < tree.len() <= usize::MAX,
    ensures
        subfolder_totals(tree, p, from) == subfolder_totals(tree, p, p + 1),
    decreases p + 1 - from,
{
    if from < p + 1 {
        subfolder_totals_start_after(tree, p, from + 1);
        assert(tree[from].parent != Some(p as usize));
    }
}

proof fn later_folders_add_up_alike(
    raw: Seq<NodeView>,
    a: Seq<NodeView>,
    b: Seq<NodeView>,
    partial: bool,
    n: int,
)
    requires
        added_up(raw, a, partial),
        added_up(raw, b, partial),
        parents_first(raw),
        0 <= n <= raw.len() <= usize::MAX,
    ensures
        forall|i: int| n <= i < raw.len() ==> a[i] == b[i],
    decreases raw.len() - n,
{
    if n < raw.len() {
        later_folders_add_up_alike(raw, a, b, partial, n + 1);
        assert forall|i: int| 0 <= i < raw.len() implies ((#[trigger] a[i]).parent matches Some(
            p,
        ) ==> p < i) && (b[i].parent matches Some(p) ==> p < i) by {
            assert(a[i].parent == raw[i].parent && b[i].parent == raw[i].parent);
        }
        assert(parents_first(b)) by {
            assert forall|i: int| 0 <= i < b.len() implies ((#[trigger] b[i]).parent matches Some(
                p,
            ) ==> p < i) by {
                assert(a[i].parent == b[i].parent);
            }
        }
        subfolder_totals_start_after(a, n, 0);
        subfolder_totals_start_after(b, n, 0);
        subfolder_totals_agree(a, b, n, n + 1);
    }
}

/// Adding up has one result.
pub proof fn adding_up_has_one_result(
    raw: Seq<NodeView>,
    a: Seq<NodeView>,
    b: Seq<NodeView>,
    partial: bool,
)
    requires
        added_up(raw, a, partial),
        added_up(raw, b, partial),
        parents_first(raw),
        raw.len() <= usize::MAX,
    ensures
        a == b,
{
    later_folders_add_up_alike(raw, a, b, partial, 0);
    assert(a =~= b);
}

/// The latest of two dates that may be unknown.
pub fn latest(a: Option<Timestamp>, b: Option<Timestamp>) -> (r: Option<Timestamp>)
    ensures
        r == later(a, b),
{
    match (a, b) {
        (None, _) => b,
        (_, None) => a,
        (Some(x), Some(y)) => if x.is_after(y) {
            a
        } else {
            b
        },
    }
}

impl NodeView {
    /// A folder of which nothing is known yet.
    pub open spec fn fresh(path: PathView, parent: Option<usize>) -> NodeView {
        NodeView {
            path,
            parent,
            children: seq![],
            bytes: 0,
            own_bytes: 0,
            files: 0,
            modified: None,
            accessed: None,
            missing_modified: false,
            missing_accessed: false,
            incomplete: false,
        }
    }
}

impl Clone for Node {
    fn clone(&self) -> (r: Node)
        ensures
            r@ == self@,
    {
        let mut children: Vec<usize> = Vec::new();
        let mut i: usize = 0;
        while i < self.children.len()
            invariant
                i <= self.children@.len(),
                children@ == self.children@.take(i as int),
            decreases self.children@.len() - i,
        {
            children.push(self.children[i]);
            i += 1;
            assert(children@ =~= self.children@.take(i as int));
        }
        assert(children@ =~= self.children@);
        Node {
            path: self.path.clone(),
            parent: self.parent,
            children,
            bytes: self.bytes,
            own_bytes: self.own_bytes,
            files: self.files,
            modified: self.modified,
            accessed: self.accessed,
            missing_modified: self.missing_modified,
            missing_accessed: self.missing_accessed,
            incomplete: self.incomplete,
        }
    }
}

impl Node {
    /// A folder of which nothing is known yet.
    pub fn new(path: FolderPath, parent: Option<usize>) -> (r: Node)
        ensures
            r@ == NodeView::fresh(path@, parent),
    {
        let r = Node {
            path,
            parent,
            children: Vec::new(),
            bytes: 0,
            own_bytes: 0,
            files: 0,
            modified: None,
            accessed: None,
            missing_modified: false,
            missing_accessed: false,
            incomplete: false,
        };
        assert(r@ =~= NodeView::fresh(path@, parent));
        r
    }

    /// The totals that the folder shows.
    pub fn totals(&self) -> (r: Totals)
        ensures
            r == self@.totals(),
    {
        Totals {
            bytes: self.bytes,
            files: self.files,
            modified: self.modified,
            accessed: self.accessed,
            missing_modified: self.missing_modified,
            missing_accessed: self.missing_accessed,
            incomplete: self.incomplete,
        }
    }

    /// Adds the totals of a subfolder.
    pub fn add(&mut self, other: &Totals)
        ensures
            final(self)@ == old(self)@.with_totals(old(self)@.totals().plus(*other)),
    {
        self.bytes = self.bytes.saturating_add(other.bytes);
        self.files = self.files.saturating_add(other.files);
        self.modified = latest(self.modified, other.modified);
        self.accessed = latest(self.accessed, other.accessed);
        self.missing_modified = self.missing_modified || other.missing_modified;
        self.missing_accessed = self.missing_accessed || other.missing_accessed;
        self.incomplete = self.incomplete || other.incomplete;
    }

    /// Lets the direct files join the size, and marks the folder where the map is partial.
    fn start_totals(&mut self, partial: bool)
        ensures
            final(self)@ == old(self)@.with_totals(old(self)@.starting_totals(partial)),
    {
        self.bytes = self.bytes.saturating_add(self.own_bytes);
        self.incomplete = self.incomplete || partial;
    }
}

/// Adds the totals of each folder to its parent, from the last folder to the
/// first. Direct files join the folder's size on the way, and `partial` marks
/// every folder incomplete.
pub fn aggregate(nodes: &mut Vec<Node>, partial: bool)
    requires
        parents_first(tree_of(old(nodes)@)),
    ensures
        added_up(tree_of(old(nodes)@), tree_of(final(nodes)@), partial),
{
    let ghost before = tree_of(nodes@);
    let mut n: usize = nodes.len();
    proof {
        assert forall|i: int| 0 <= i < before.len() implies #[trigger] tree_of(nodes@)[i]
            == before[i].with_totals(
            before[i].totals().plus(subfolder_totals(tree_of(nodes@), i, n as int)),
        ) by {
            totals_in_any_order(before[i].totals(), Totals::nothing(), Totals::nothing());
        }
    }
    while n > 0
        invariant
            n <= nodes@.len(),
            nodes@.len() == before.len() <= usize::MAX,
            parents_first(before),
            forall|i: int|
                0 <= i < n ==> #[trigger] tree_of(nodes@)[i] == before[i].with_totals(
                    before[i].totals().plus(subfolder_totals(tree_of(nodes@), i, n as int)),
                ),
            forall|i: int|
                n <= i < before.len() ==> #[trigger] tree_of(nodes@)[i] == before[i].with_totals(
                    before[i].starting_totals(partial).plus(
                        subfolder_totals(tree_of(nodes@), i, n as int),
                    ),
                ),
        decreases n,
    {
        let ghost start = tree_of(nodes@);
        n = n - 1;
        assert(start[n as int].parent == before[n as int].parent);
        nodes[n].start_totals(partial);
        if let Some(parent) = nodes[n].parent {
            let totals = nodes[n].totals();
            nodes[parent].add(&totals);
        }
        proof {
            aggregate_step(before, start, tree_of(nodes@), n as int, partial);
        }
    }
}

/// One round of `aggregate`: folder `id` is finished and handed to its parent.
proof fn aggregate_step(
    before: Seq<NodeView>,
    start: Seq<NodeView>,
    now: Seq<NodeView>,
    id: int,
    partial: bool,
)
    requires
        0 <= id < before.len() <= usize::MAX,
        start.len() == before.len(),
        now.len() == before.len(),
        parents_first(before),
        forall|i: int|
            0 <= i < id + 1 ==> #[trigger] start[i] == before[i].with_totals(
                before[i].totals().plus(subfolder_totals(start, i, id + 1)),
            ),
        forall|i: int|
            id + 1 <= i < before.len() ==> #[trigger] start[i] == before[i].with_totals(
                before[i].starting_totals(partial).plus(subfolder_totals(start, i, id + 1)),
            ),
        now[id] == start[id].with_totals(start[id].starting_totals(partial)),
        start[id].parent matches Some(p) ==> now[p as int] == start[p as int].with_totals(
            start[p as int].totals().plus(now[id].totals()),
        ),
        forall|i: int|
            0 <= i < before.len() && i != id && start[id].parent != Some(i as usize)
                ==> #[trigger] now[i] == start[i],
    ensures
        forall|i: int|
            0 <= i < id ==> #[trigger] now[i] == before[i].with_totals(
                before[i].totals().plus(subfolder_totals(now, i, id)),
            ),
        forall|i: int|
            id <= i < before.len() ==> #[trigger] now[i] == before[i].with_totals(
                before[i].starting_totals(partial).plus(subfolder_totals(now, i, id)),
            ),
{
    assert(start[id].parent == before[id].parent);
    assert(forall|i: int| 0 <= i < before.len() ==> (#[trigger] now[i]).parent == before[i].parent);
    assert forall|i: int| 0 <= i < before.len() implies #[trigger] now[i] == before[i].with_totals(
        (if i < id {
            before[i].totals()
        } else {
            before[i].starting_totals(partial)
        }).plus(subfolder_totals(now, i, id)),
    ) by {
        assert(now[i].parent == before[i].parent);
        let old_kids = subfolder_totals(start, i, id + 1);
        subfolder_totals_agree(start, now, i, id + 1);
        if i == id {
            let raw = before[i].totals();
            totals_in_any_order(raw, old_kids, Totals::nothing());
            assert(now[id].parent != Some(id as usize));
            assert(start[i].starting_totals(partial) == before[i].starting_totals(partial).plus(
                old_kids,
            ));
        } else if now[id].parent == Some(i as usize) {
            assert(i < id);
            let raw = before[i].totals();
            totals_in_any_order(raw, old_kids, now[id].totals());
            totals_in_any_order(now[id].totals(), old_kids, raw);
        } else {
            assert(start[id].parent != Some(i as usize));
            assert(now[i] == start[i]);
        }
    }
}

/// The positions, below `n`, of the folders whose parent stands at `p`.
pub open spec fn children_of(tree: Seq<NodeView>, p: int, n: int) -> Seq<usize>
    decreases n,
{
    if n <= 0 {
        seq![]
    } else if tree[n - 1].parent == Some(p as usize) {
        children_of(tree, p, n - 1).push((n - 1) as usize)
    } else {
        children_of(tree, p, n - 1)
    }
}

/// Whether folders form one tree: the first is the root, each other one stands
/// after its parent, and each lists its children in order.
pub open spec fn shaped(tree: Seq<NodeView>) -> bool {
    &&& 0 < tree.len() <= usize::MAX
    &&& tree[0].parent is None
    &&& forall|i: int|
        0 < i < tree.len() ==> (#[trigger] tree[i]).parent is Some && (tree[i].parent->0 as int) < i
    &&& forall|i: int|
        0 <= i < tree.len() ==> (#[trigger] tree[i]).children == children_of(
            tree,
            i,
            tree.len() as int,
        )
}

/// Whether two lists of positions are equal.
fn same_positions(a: &Vec<usize>, b: &Vec<usize>) -> (r: bool)
    ensures
        r == (a@ == b@),
{
    if a.len() != b.len() {
        return false;
    }
    let mut i: usize = 0;
    while i < a.len()
        invariant
            i <= a@.len(),
            a@.len() == b@.len(),
            forall|j: int| 0 <= j < i ==> a@[j] == b@[j],
        decreases a@.len() - i,
    {
        if a[i] != b[i] {
            return false;
        }
        i += 1;
    }
    assert(a@ =~= b@);
    true
}

/// Whether folders form one tree.
pub fn is_shaped(nodes: &Vec<Node>) -> (r: bool)
    ensures
        r == shaped(tree_of(nodes@)),
{
    let ghost tree = tree_of(nodes@);
    let n: usize = nodes.len();
    if n == 0 {
        return false;
    }
    assert(tree[0] == nodes@[0]@);
    if nodes[0].parent.is_some() {
        return false;
    }
    let mut lists: Vec<Vec<usize>> = Vec::new();
    lists.push(Vec::new());
    assert(lists@[0]@ =~= children_of(tree, 0, 1)) by {
        assert(children_of(tree, 0, 0) =~= seq![]);
    }
    let mut i: usize = 1;
    while i < n
        invariant
            1 <= i <= n,
            n == nodes@.len(),
            tree == tree_of(nodes@),
            lists@.len() == i,
            tree[0].parent is None,
            forall|k: int| 0 <= k < i ==> (#[trigger] lists@[k])@ == children_of(tree, k, i as int),
            forall|k: int|
                0 < k < i ==> (#[trigger] tree[k]).parent is Some && (tree[k].parent->0 as int) < k,
        decreases n - i,
    {
        assert(tree[i as int] == nodes@[i as int]@);
        let p: usize = match nodes[i].parent {
            Some(p) if p < i => p,
            _ => {
                return false;
            },
        };
        let ghost before = lists@;
        lists[p].push(i);
        lists.push(Vec::new());
        proof {
            assert forall|k: int| 0 <= k < i + 1 implies (#[trigger] lists@[k])@ == children_of(
                tree,
                k,
                i + 1,
            ) by {
                if k < i {
                    assert(before[k]@ == children_of(tree, k, i as int));
                    assert(k == p ==> lists@[k]@ =~= before[k]@.push(i));
                } else {
                    no_children(tree, k, i + 1);
                    assert(lists@[k]@ =~= seq![]);
                }
            }
        }
        i += 1;
    }
    let mut j: usize = 0;
    while j < n
        invariant
            j <= n,
            n == nodes@.len(),
            tree == tree_of(nodes@),
            lists@.len() == n,
            forall|k: int| 0 <= k < n ==> (#[trigger] lists@[k])@ == children_of(tree, k, n as int),
            forall|k: int|
                0 <= k < j ==> (#[trigger] tree[k]).children == children_of(tree, k, n as int),
        decreases n - j,
    {
        assert(tree[j as int] == nodes@[j as int]@);
        if !same_positions(&nodes[j].children, &lists[j]) {
            assert(tree[j as int].children != children_of(tree, j as int, n as int));
            return false;
        }
        j += 1;
    }
    true
}

/// Whether every folder but the root lies directly inside its parent.
pub open spec fn nested(tree: Seq<NodeView>) -> bool {
    forall|i: int|
        0 < i < tree.len() && (#[trigger] tree[i]).parent is Some ==> tree[i].path.is_inside(
            tree[tree[i].parent->0 as int].path,
        )
}

/// Whether every folder's size is that of its direct files and its subfolders.
pub open spec fn sizes_add_up(tree: Seq<NodeView>) -> bool {
    forall|i: int|
        0 <= i < tree.len() ==> (#[trigger] tree[i]).bytes == saturated(
            tree[i].own_bytes + subfolder_totals(tree, i, 0).bytes,
        )
}

/// The folders with one more, which its parent lists as its last child.
pub open spec fn joined(tree: Seq<NodeView>, node: NodeView) -> Seq<NodeView> {
    let listed = match node.parent {
        None => tree,
        Some(p) => tree.update(
            p as int,
            NodeView {
                children: tree[p as int].children.push(tree.len() as usize),
                ..tree[p as int]
            },
        ),
    };
    listed.push(node)
}

/// Equal parents give equal children.
pub proof fn children_agree(a: Seq<NodeView>, b: Seq<NodeView>, p: int, n: int)
    requires
        0 <= n <= a.len(),
        n <= b.len(),
        forall|i: int| 0 <= i < n ==> (#[trigger] a[i]).parent == b[i].parent,
    ensures
        children_of(a, p, n) == children_of(b, p, n),
    decreases n,
{
    if n > 0 {
        children_agree(a, b, p, n - 1);
        assert(a[n - 1].parent == b[n - 1].parent);
    }
}

/// A folder that none names as its parent has no children.
pub proof fn no_children(tree: Seq<NodeView>, p: int, n: int)
    requires
        0 <= n <= tree.len(),
        forall|i: int| 0 <= i < n ==> (#[trigger] tree[i]).parent != Some(p as usize),
    ensures
        children_of(tree, p, n) == Seq::<usize>::empty(),
    decreases n,
{
    if n > 0 {
        no_children(tree, p, n - 1);
        assert(tree[n - 1].parent != Some(p as usize));
    }
}

/// A tree stays one when a folder without children joins it.
pub proof fn joining_keeps_the_shape(tree: Seq<NodeView>, node: NodeView)
    requires
        shaped(tree),
        tree.len() < usize::MAX,
        node.parent is Some,
        node.parent->0 < tree.len(),
        node.children == Seq::<usize>::empty(),
    ensures
        shaped(joined(tree, node)),
{
    let more = joined(tree, node);
    let n = tree.len() as int;
    assert(forall|i: int| 0 <= i < n ==> (#[trigger] more[i]).parent == tree[i].parent);
    assert forall|i: int| 0 <= i < more.len() implies (#[trigger] more[i]).children == children_of(
        more,
        i,
        more.len() as int,
    ) by {
        children_agree(more, tree, i, n);
        if i == n {
            assert forall|j: int| 0 <= j < n implies (#[trigger] tree[j]).parent != Some(
                n as usize,
            ) by {
                if j > 0 {
                    assert((tree[j].parent->0 as int) < j);
                }
            }
            no_children(tree, n, n);
        } else {
            assert(tree[i].children == children_of(tree, i, n));
        }
    }
}

/// Paths stay nested when a folder joins that lies directly inside its parent.
pub proof fn joining_keeps_the_nesting(tree: Seq<NodeView>, node: NodeView)
    requires
        nested(tree),
        shaped(tree),
        node.parent is Some,
        node.parent->0 < tree.len(),
        node.path.is_inside(tree[node.parent->0 as int].path),
    ensures
        nested(joined(tree, node)),
{
    let more = joined(tree, node);
    assert forall|i: int| 0 < i < more.len() && (
    #[trigger] more[i]).parent is Some implies more[i].path.is_inside(
        more[more[i].parent->0 as int].path,
    ) by {
        if i < tree.len() {
            assert(more[i].parent == tree[i].parent && more[i].path == tree[i].path);
            assert((tree[i].parent->0 as int) < i);
            assert(more[more[i].parent->0 as int].path == tree[tree[i].parent->0 as int].path);
        }
    }
}

/// Appends a folder and lists it as the last child of its parent.
pub fn join_folder(nodes: &mut Vec<Node>, node: Node)
    requires
        node.parent matches Some(p) ==> p < old(nodes)@.len(),
    ensures
        tree_of(final(nodes)@) == joined(tree_of(old(nodes)@), node@),
{
    let ghost before = tree_of(nodes@);
    let id: usize = nodes.len();
    if let Some(p) = node.parent {
        nodes[p].children.push(id);
        assert(tree_of(nodes@) =~= before.update(
            p as int,
            NodeView { children: before[p as int].children.push(id), ..before[p as int] },
        ));
    }
    let ghost listed = tree_of(nodes@);
    nodes.push(node);
    assert(tree_of(nodes@) =~= listed.push(node@));
}

/// A tree keeps its shape and nesting when only totals change.
pub proof fn totals_do_not_move_folders(a: Seq<NodeView>, b: Seq<NodeView>)
    requires
        a.len() == b.len(),
        forall|i: int|
            0 <= i < a.len() ==> (#[trigger] b[i]).parent == a[i].parent && b[i].children
                == a[i].children && b[i].path == a[i].path,
    ensures
        shaped(a) ==> shaped(b),
        nested(a) && shaped(a) ==> nested(b),
{
    if shaped(a) {
        assert forall|i: int| 0 <= i < b.len() implies (#[trigger] b[i]).children == children_of(
            b,
            i,
            b.len() as int,
        ) by {
            children_agree(b, a, i, a.len() as int);
            assert(a[i].children == children_of(a, i, a.len() as int));
        }
        assert(forall|i: int| 0 <= i < a.len() ==> b[i].parent == (#[trigger] a[i]).parent);
        if nested(a) {
            assert forall|i: int| 0 < i < b.len() && (
            #[trigger] b[i]).parent is Some implies b[i].path.is_inside(
                b[b[i].parent->0 as int].path,
            ) by {
                assert(a[i].path.is_inside(a[a[i].parent->0 as int].path));
                assert((a[i].parent->0 as int) < i);
            }
        }
    }
}

/// Adding up gives every folder the size of its direct files and its
/// subfolders, where no size was there before.
pub proof fn adding_up_gives_sizes(raw: Seq<NodeView>, tree: Seq<NodeView>, partial: bool)
    requires
        added_up(raw, tree, partial),
        forall|i: int| 0 <= i < raw.len() ==> (#[trigger] raw[i]).bytes == 0,
    ensures
        sizes_add_up(tree),
{
    assert forall|i: int| 0 <= i < tree.len() implies (#[trigger] tree[i]).bytes == saturated(
        tree[i].own_bytes + subfolder_totals(tree, i, 0).bytes,
    ) by {
        assert(raw[i].bytes == 0);
    }
}

/// A partial map marks every folder.
pub proof fn partial_maps_mark_every_folder(raw: Seq<NodeView>, tree: Seq<NodeView>)
    requires
        added_up(raw, tree, true),
    ensures
        forall|i: int| 0 <= i < tree.len() ==> (#[trigger] tree[i]).incomplete,
{
}

/// Whether totals cover others: putting those in once more changes nothing.
pub open spec fn covers(all: Totals, part: Totals) -> bool {
    &&& part.bytes <= all.bytes
    &&& part.files <= all.files
    &&& later(all.modified, part.modified) == all.modified
    &&& later(all.accessed, part.accessed) == all.accessed
    &&& part.missing_modified ==> all.missing_modified
    &&& part.missing_accessed ==> all.missing_accessed
    &&& part.incomplete ==> all.incomplete
}

proof fn sums_cover_their_parts(a: Totals, b: Totals, part: Totals)
    requires
        covers(a, part) || covers(b, part),
    ensures
        covers(a.plus(b), part),
{
    later_is_associative_and_commutative(a.modified, b.modified, part.modified);
    later_is_associative_and_commutative(a.accessed, b.accessed, part.accessed);
    later_is_associative_and_commutative(b.modified, a.modified, part.modified);
    later_is_associative_and_commutative(b.accessed, a.accessed, part.accessed);
}

proof fn subfolder_counts(tree: Seq<NodeView>, p: int, from: int, i: int)
    requires
        0 <= from <= i < tree.len(),
        tree[i].parent == Some(p as usize),
    ensures
        covers(subfolder_totals(tree, p, from), tree[i].totals()),
    decreases i - from,
{
    let rest = subfolder_totals(tree, p, from + 1);
    if from < i {
        subfolder_counts(tree, p, from + 1, i);
        sums_cover_their_parts(tree[from].totals(), rest, tree[i].totals());
    } else {
        sums_cover_their_parts(tree[i].totals(), rest, tree[i].totals());
    }
}

/// The totals of a folder cover those of every subfolder: no subfolder is
/// larger, holds more files or has later dates than the folder around it, and
/// what is missing in one is missing in the other.
pub proof fn totals_cover_the_subfolders(
    raw: Seq<NodeView>,
    tree: Seq<NodeView>,
    partial: bool,
    i: int,
)
    requires
        added_up(raw, tree, partial),
        0 <= i < tree.len() <= usize::MAX,
        tree[i].parent is Some,
        tree[i].parent->0 < tree.len(),
    ensures
        covers(tree[tree[i].parent->0 as int].totals(), tree[i].totals()),
{
    let p = tree[i].parent->0 as int;
    subfolder_counts(tree, p, 0, i);
    sums_cover_their_parts(
        raw[p].starting_totals(partial),
        subfolder_totals(tree, p, 0),
        tree[i].totals(),
    );
    assert(tree[p] == raw[p].with_totals(
        raw[p].starting_totals(partial).plus(subfolder_totals(tree, p, 0)),
    ));
}

/// What makes a subfolder incomplete makes every folder around it incomplete.
pub proof fn incompleteness_spreads_up(
    raw: Seq<NodeView>,
    tree: Seq<NodeView>,
    partial: bool,
    i: int,
)
    requires
        added_up(raw, tree, partial),
        0 <= i < tree.len() <= usize::MAX,
        tree[i].parent is Some,
        tree[i].parent->0 < tree.len(),
        tree[i].incomplete,
    ensures
        tree[tree[i].parent->0 as int].incomplete,
{
    totals_cover_the_subfolders(raw, tree, partial, i);
}

/// Adds the totals of each folder to its parent, from the last folder to the
/// first, but only to parents that are `open`.
pub fn add_up_where(nodes: &mut Vec<Node>, open: &Vec<bool>)
    requires
        parents_first(tree_of(old(nodes)@)),
        open@.len() == old(nodes)@.len(),
    ensures
        added_where(tree_of(old(nodes)@), tree_of(final(nodes)@), open@),
{
    let ghost before = tree_of(nodes@);
    let mut n: usize = nodes.len();
    proof {
        assert forall|i: int| 0 <= i < before.len() implies #[trigger] tree_of(nodes@)[i]
            == open_node(before, tree_of(nodes@), open@, i, n as int) by {
            totals_in_any_order(before[i].totals(), Totals::nothing(), Totals::nothing());
        }
    }
    while n > 0
        invariant
            n <= nodes@.len(),
            nodes@.len() == before.len() <= usize::MAX,
            open@.len() == before.len(),
            parents_first(before),
            forall|i: int|
                0 <= i < before.len() ==> #[trigger] tree_of(nodes@)[i] == open_node(
                    before,
                    tree_of(nodes@),
                    open@,
                    i,
                    n as int,
                ),
        decreases n,
    {
        let ghost start = tree_of(nodes@);
        n = n - 1;
        assert(start[n as int].parent == before[n as int].parent);
        if let Some(parent) = nodes[n].parent {
            if open[parent] {
                let totals = nodes[n].totals();
                nodes[parent].add(&totals);
            }
        }
        proof {
            add_up_where_step(before, start, tree_of(nodes@), open@, n as int);
        }
    }
}

/// Folder `i`, with the subfolders from `from` on where it is open.
pub open spec fn open_node(
    raw: Seq<NodeView>,
    tree: Seq<NodeView>,
    open: Seq<bool>,
    i: int,
    from: int,
) -> NodeView {
    if open[i] {
        raw[i].with_totals(raw[i].totals().plus(subfolder_totals(tree, i, from)))
    } else {
        raw[i]
    }
}

/// Whether `tree` is `raw` with the totals of subfolders added to every open folder.
pub open spec fn added_where(raw: Seq<NodeView>, tree: Seq<NodeView>, open: Seq<bool>) -> bool {
    &&& tree.len() == raw.len()
    &&& forall|i: int|
        0 <= i < raw.len() ==> #[trigger] tree[i] == open_node(raw, tree, open, i, 0)
}

proof fn add_up_where_step(
    before: Seq<NodeView>,
    start: Seq<NodeView>,
    now: Seq<NodeView>,
    open: Seq<bool>,
    id: int,
)
    requires
        0 <= id < before.len() <= usize::MAX,
        start.len() == before.len(),
        now.len() == before.len(),
        parents_first(before),
        forall|i: int|
            0 <= i < before.len() ==> #[trigger] start[i] == open_node(
                before,
                start,
                open,
                i,
                id + 1,
            ),
        start[id].parent matches Some(p) ==> now[p as int] == if open[p as int] {
            start[p as int].with_totals(start[p as int].totals().plus(start[id].totals()))
        } else {
            start[p as int]
        },
        forall|i: int|
            0 <= i < before.len() && start[id].parent != Some(i as usize) ==> #[trigger] now[i]
                == start[i],
    ensures
        forall|i: int|
            0 <= i < before.len() ==> #[trigger] now[i] == open_node(before, now, open, i, id),
{
    assert(start[id].parent == before[id].parent);
    assert(now[id] == start[id]);
    assert forall|i: int| 0 <= i < before.len() implies #[trigger] now[i] == open_node(
        before,
        now,
        open,
        i,
        id,
    ) by {
        assert(forall|j: int| 0 <= j < before.len() ==> (#[trigger] now[j]).parent == before[j].parent);
        assert(start[i] == open_node(before, start, open, i, id + 1));
        let old_kids = subfolder_totals(start, i, id + 1);
        assert forall|j: int| id + 1 <= j < before.len() implies start[j].parent == now[j].parent
            && start[j].totals() == now[j].totals() by {
            assert(now[j] == start[j]);
        }
        subfolder_totals_agree(start, now, i, id + 1);
        if now[id].parent == Some(i as usize) {
            let raw = before[i].totals();
            totals_in_any_order(raw, old_kids, now[id].totals());
            totals_in_any_order(now[id].totals(), old_kids, raw);
        }
    }
}

} // verus!
