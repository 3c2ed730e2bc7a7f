//! Putting a refreshed folder back into its map.
use std::collections::HashMap;
use vstd::prelude::*;
use crate::preserve::children_follow;
use crate::scan::{copy_texts, texts_of, ProgressView, Report, ReportView, MAX_ISSUES};
use crate::spread::{in_rows, lists_of, ordered, sources_exist, spread, spread_out, starting, Placement};
use crate::tree::{added_where, add_up_where, children_of, joined, join_folder, joining_keeps_the_shape, no_children, saturated, shaped, totals_do_not_move_folders, tree_of, Node, NodeView};

verus! {

/// The children of an old folder: the target gives way to `replacement`, or to nothing.
pub open spec fn redirected(children: Seq<usize>, target: int, replacement: Option<usize>, n: int) -> Seq<
    usize,
>
    decreases n,
{
    if n <= 0 {
        seq![]
    } else {
        let rest = redirected(children, target, replacement, n - 1);
        if children[n - 1] != target {
            rest.push(children[n - 1])
        } else {
            match replacement {
                Some(r) => rest.push(r),
                None => rest,
            }
        }
    }
}

/// Positions in a tree that stands behind `start` other folders.
pub open spec fn shifted(children: Seq<usize>, start: int) -> Seq<usize> {
    Seq::new(children.len(), |k: int| (start + children[k]) as usize)
}

/// The children of all folders, old ones first, then those of the replacement.
pub open spec fn combined(
    base: Seq<NodeView>,
    target: int,
    replacement: Option<Seq<NodeView>>,
) -> Seq<Seq<usize>> {
    let start = base.len();
    let instead = match replacement {
        Some(_) => Some(start as usize),
        None => None,
    };
    let new = match replacement {
        Some(r) => r,
        None => seq![],
    };
    Seq::new(
        start + new.len(),
        |i: int|
            if i < start {
                redirected(base[i].children, target, instead, base[i].children.len() as int)
            } else {
                shifted(new[i - start].children, start as int)
            },
    )
}

/// Where the root of the merged map comes from: it is the old root, unless that
/// is replaced.
pub open spec fn root_source(base: Seq<NodeView>, target: int) -> usize {
    if target == 0 {
        base.len() as usize
    } else {
        0
    }
}

/// Where each folder of the merged map comes from, and below which it lies.
pub open spec fn merge_plan(
    base: Seq<NodeView>,
    target: int,
    replacement: Option<Seq<NodeView>>,
) -> Seq<Placement> {
    spread(combined(base, target, replacement), starting(seq![root_source(base, target)]), 0)
}

/// The folder at a source: an old one, or one of the replacement.
pub open spec fn source_node(
    base: Seq<NodeView>,
    replacement: Option<Seq<NodeView>>,
    source: int,
) -> NodeView {
    if source < base.len() {
        base[source]
    } else {
        replacement->0[source - base.len()]
    }
}

/// An old folder with newly read direct files.
pub open spec fn with_direct(node: NodeView, direct: NodeView) -> NodeView {
    NodeView {
        own_bytes: direct.own_bytes,
        bytes: direct.own_bytes,
        files: direct.files,
        modified: direct.modified,
        accessed: direct.accessed,
        missing_modified: direct.missing_modified,
        missing_accessed: direct.missing_accessed,
        incomplete: node.incomplete || direct.incomplete,
        ..node
    }
}

/// What was newly read, by the position of the folder.
pub open spec fn direct_views(direct: Map<usize, Node>) -> Map<usize, NodeView> {
    Map::new(|i: usize| direct.contains_key(i), |i: usize| direct[i]@)
}

/// Whether an old folder's direct files were newly read.
pub open spec fn is_open(base: Seq<NodeView>, direct: Map<usize, NodeView>, source: usize) -> bool {
    source < base.len() && direct.contains_key(source)
}

/// The folder that a placement stands for, before subfolders are added.
pub open spec fn merged_node(
    base: Seq<NodeView>,
    replacement: Option<Seq<NodeView>>,
    direct: Map<usize, NodeView>,
    placement: Placement,
) -> NodeView {
    let node = source_node(base, replacement, placement.source as int);
    NodeView {
        parent: placement.parent,
        children: seq![],
        ..if is_open(base, direct, placement.source) {
            with_direct(node, direct[placement.source])
        } else {
            node
        }
    }
}

/// The merged map's first `n` folders, before subfolders are added.
pub open spec fn merged_nodes(
    base: Seq<NodeView>,
    replacement: Option<Seq<NodeView>>,
    direct: Map<usize, NodeView>,
    plan: Seq<Placement>,
    n: int,
) -> Seq<NodeView>
    decreases n,
{
    if n <= 0 {
        seq![]
    } else {
        joined(
            merged_nodes(base, replacement, direct, plan, n - 1),
            merged_node(base, replacement, direct, plan[n - 1]),
        )
    }
}

/// Which folders of the merged map are added up anew.
pub open spec fn reopened(
    base: Seq<NodeView>,
    direct: Map<usize, NodeView>,
    plan: Seq<Placement>,
) -> Seq<bool> {
    Seq::new(plan.len(), |k: int| is_open(base, direct, plan[k].source))
}

/// Whether a map is the old one with the target replaced and the folders around it added up anew.
pub open spec fn is_merge(
    base: Seq<NodeView>,
    target: int,
    replacement: Option<Seq<NodeView>>,
    direct: Map<usize, NodeView>,
    tree: Seq<NodeView>,
) -> bool {
    let plan = merge_plan(base, target, replacement);
    tree.len() == plan.len() && added_where(
        merged_nodes(base, replacement, direct, plan, plan.len() as int),
        tree,
        reopened(base, direct, plan),
    )
}

/// Texts, but no more than the first `limit`.
pub open spec fn at_most(texts: Seq<Seq<char>>, limit: int) -> Seq<Seq<char>> {
    if texts.len() > limit {
        texts.take(limit)
    } else {
        texts
    }
}

/// The progress of a merged map.
pub open spec fn merged_progress(
    base: ReportView,
    target: int,
    replacement: Option<ReportView>,
    tree: Seq<NodeView>,
) -> ProgressView {
    ProgressView {
        bytes: tree[0].bytes,
        files: tree[0].files,
        folders: tree.len() as usize,
        current: base.nodes[target].path,
        records: 0,
        total_records: 0,
        errors: match replacement {
            Some(r) => saturated(base.progress.errors + r.progress.errors),
            None => base.progress.errors,
        },
        skipped: match replacement {
            Some(r) => saturated(base.progress.skipped + r.progress.skipped),
            None => base.progress.skipped,
        },
        ..base.progress
    }
}

/// The problems that a merged map tells.
pub open spec fn merged_issues(base: ReportView, replacement: Option<ReportView>) -> Seq<Seq<char>> {
    match replacement {
        Some(r) => at_most(base.issues + r.issues, MAX_ISSUES as int),
        None => base.issues,
    }
}

/// The folders of an optional report.
pub open spec fn nodes_of(report: Option<ReportView>) -> Option<Seq<NodeView>> {
    match report {
        Some(r) => Some(r.nodes),
        None => None,
    }
}

/// What an optional report holds.
pub open spec fn view_of(report: Option<&Report>) -> Option<ReportView> {
    match report {
        Some(r) => Some(r@),
        None => None,
    }
}

/// Whether a merge makes sense: both maps are trees, and the root is replaced by
/// another one, if at all.
pub open spec fn can_merge(
    base: Seq<NodeView>,
    target: int,
    replacement: Option<Seq<NodeView>>,
) -> bool {
    &&& shaped(base)
    &&& 0 <= target < base.len()
    &&& target == 0 ==> replacement is Some
    &&& replacement matches Some(r) ==> shaped(r) && base.len() + r.len() <= usize::MAX
}

proof fn redirected_stays_behind(
    children: Seq<usize>,
    target: int,
    replacement: Option<usize>,
    x: int,
    bound: int,
    n: int,
)
    requires
        0 <= n <= children.len(),
        forall|k: int| 0 <= k < children.len() ==> x < #[trigger] children[k] < bound,
        replacement matches Some(r) ==> x < r < bound,
    ensures
        forall|k: int|
            0 <= k < redirected(children, target, replacement, n).len() ==> x
                < #[trigger] redirected(children, target, replacement, n)[k] < bound,
    decreases n,
{
    if n > 0 {
        redirected_stays_behind(children, target, replacement, x, bound, n - 1);
        let rest = redirected(children, target, replacement, n - 1);
        let all = redirected(children, target, replacement, n);
        assert forall|k: int| 0 <= k < all.len() implies x < #[trigger] all[k] < bound by {
            if k < rest.len() {
                assert(all[k] == rest[k]);
            } else {
                assert(x < children[n - 1] < bound);
            }
        }
    }
}

/// The combined lists are in order.
pub proof fn combined_is_ordered(
    base: Seq<NodeView>,
    target: int,
    replacement: Option<Seq<NodeView>>,
)
    requires
        can_merge(base, target, replacement),
    ensures
        ordered(combined(base, target, replacement)),
{
    let kids = combined(base, target, replacement);
    let start = base.len() as int;
    assert forall|x: int, k: int| 0 <= x < kids.len() && 0 <= k < kids[x].len() implies x
        < #[trigger] kids[x][k] < kids.len() by {
        if x < start {
            let children = base[x].children;
            assert(children == children_of(base, x, base.len() as int));
            children_follow(base, x, base.len() as int);
            let instead = match replacement {
                Some(_) => Some(start as usize),
                None => None,
            };
            redirected_stays_behind(
                children,
                target,
                instead,
                x,
                kids.len() as int,
                children.len() as int,
            );
        } else {
            let new = replacement->0;
            assert(new[x - start].children == children_of(new, x - start, new.len() as int));
            children_follow(new, x - start, new.len() as int);
        }
    }
}

fn redirect(children: &Vec<usize>, target: usize, replacement: Option<usize>) -> (r: Vec<usize>)
    ensures
        r@ == redirected(children@, target as int, replacement, children@.len() as int),
{
    let mut r: Vec<usize> = Vec::new();
    let mut i: usize = 0;
    while i < children.len()
        invariant
            i <= children@.len(),
            r@ == redirected(children@, target as int, replacement, i as int),
        decreases children@.len() - i,
    {
        let c: usize = children[i];
        if c != target {
            r.push(c);
        } else if let Some(instead) = replacement {
            r.push(instead);
        }
        i += 1;
    }
    r
}

fn shift(children: &Vec<usize>, start: usize, bound: usize) -> (r: Vec<usize>)
    requires
        start + bound <= usize::MAX,
        forall|k: int| 0 <= k < children@.len() ==> (#[trigger] children@[k]) < bound,
    ensures
        r@ == shifted(children@, start as int),
{
    let mut r: Vec<usize> = Vec::new();
    let mut i: usize = 0;
    while i < children.len()
        invariant
            i <= children@.len(),
            start + bound <= usize::MAX,
            forall|k: int| 0 <= k < children@.len() ==> (#[trigger] children@[k]) < bound,
            r@ == shifted(children@, start as int).take(i as int),
        decreases children@.len() - i,
    {
        r.push(start + children[i]);
        i += 1;
        assert(r@ =~= shifted(children@, start as int).take(i as int));
    }
    assert(r@ =~= shifted(children@, start as int));
    r
}

fn combine(base: &Vec<Node>, target: usize, replacement: Option<&Vec<Node>>) -> (r: Vec<Vec<usize>>)
    requires
        can_merge(
            tree_of(base@),
            target as int,
            match replacement {
                Some(n) => Some(tree_of(n@)),
                None => None,
            },
        ),
    ensures
        lists_of(r@) == combined(
            tree_of(base@),
            target as int,
            match replacement {
                Some(n) => Some(tree_of(n@)),
                None => None,
            },
        ),
{
    let ghost tree = tree_of(base@);
    let ghost new_tree = match replacement {
        Some(n) => Some(tree_of(n@)),
        None => None,
    };
    let ghost kids = combined(tree, target as int, new_tree);
    let start: usize = base.len();
    let instead: Option<usize> = match replacement {
        Some(_) => Some(start),
        None => None,
    };
    let mut r: Vec<Vec<usize>> = Vec::new();
    let mut i: usize = 0;
    while i < start
        invariant
            i <= start == base@.len(),
            tree == tree_of(base@),
            kids == combined(tree, target as int, new_tree),
            instead == (match new_tree {
                Some(_) => Some(start),
                None => None,
            }),
            r@.len() == i,
            forall|k: int| 0 <= k < i ==> (#[trigger] r@[k])@ == kids[k],
        decreases start - i,
    {
        assert(tree[i as int] == base@[i as int]@);
        r.push(redirect(&base[i].children, target, instead));
        i += 1;
    }
    if let Some(new) = replacement {
        let mut j: usize = 0;
        while j < new.len()
            invariant
                j <= new@.len(),
                start == base@.len(),
                tree == tree_of(base@),
                new_tree == Some(tree_of(new@)),
                kids == combined(tree, target as int, new_tree),
                can_merge(tree, target as int, new_tree),
                r@.len() == start + j,
                forall|k: int| 0 <= k < start + j ==> (#[trigger] r@[k])@ == kids[k],
            decreases new@.len() - j,
        {
            proof {
                let t = tree_of(new@);
                assert(t[j as int] == new@[j as int]@);
                assert(t[j as int].children == children_of(t, j as int, t.len() as int));
                children_follow(t, j as int, t.len() as int);
            }
            r.push(shift(&new[j].children, start, new.len()));
            j += 1;
        }
    }
    assert(lists_of(r@) =~= kids);
    r
}

/// The first `n` folders of a plan form a tree.
pub open spec fn planned(
    base: Seq<NodeView>,
    replacement: Option<Seq<NodeView>>,
    direct: Map<usize, NodeView>,
    plan: Seq<Placement>,
    tree: Seq<NodeView>,
    n: int,
) -> bool {
    &&& tree == merged_nodes(base, replacement, direct, plan, n)
    &&& tree.len() == n
    &&& n > 0 ==> shaped(tree)
    &&& forall|k: int|
        0 <= k < n ==> {
            let m = merged_node(base, replacement, direct, plan[k]);
            let t = #[trigger] tree[k];
            t == (NodeView { children: t.children, ..m })
        }
}

/// One more folder of a plan keeps the tree.
pub proof fn planning_goes_on(
    base: Seq<NodeView>,
    replacement: Option<Seq<NodeView>>,
    direct: Map<usize, NodeView>,
    plan: Seq<Placement>,
    tree: Seq<NodeView>,
    n: int,
)
    requires
        planned(base, replacement, direct, plan, tree, n),
        0 <= n < plan.len() <= usize::MAX,
        n < usize::MAX,
        n == 0 <==> plan[n].parent is None,
        plan[n].parent matches Some(p) ==> p < n,
    ensures
        planned(
            base,
            replacement,
            direct,
            plan,
            joined(tree, merged_node(base, replacement, direct, plan[n])),
            n + 1,
        ),
{
    let node = merged_node(base, replacement, direct, plan[n]);
    let more = joined(tree, node);
    if n == 0 {
        assert(more =~= seq![node]);
        no_children(more, 0, 1);
    } else {
        joining_keeps_the_shape(tree, node);
    }
    assert forall|k: int| 0 <= k < n + 1 implies {
        let m = merged_node(base, replacement, direct, plan[k]);
        let t = #[trigger] more[k];
        t == (NodeView { children: t.children, ..m })
    } by {
        if k < n {
            let m = merged_node(base, replacement, direct, plan[k]);
            assert(tree[k] == (NodeView { children: tree[k].children, ..m }));
        }
    }
}

/// Puts a refreshed folder, or its absence, into a map. Folders around the
/// target show their newly read direct files and are added up anew; all others
/// stay as they were.
pub fn merge(
    base: &Report,
    target: usize,
    replacement: Option<&Report>,
    direct: &HashMap<usize, Node>,
) -> (r: Result<Report, String>)
    requires
        can_merge(base@.nodes, target as int, nodes_of(view_of(replacement))),
    ensures
        match r {
            Err(e) => replacement is Some && !replacement->0@.nodes[0].path.same(
                base@.nodes[target as int].path,
            ) && e@ == "재스캔 경로가 일치하지 않습니다."@,
            Ok(m) => {
                &&& replacement matches Some(new) ==> new@.nodes[0].path.same(
                    base@.nodes[target as int].path,
                )
                &&& is_merge(
                    base@.nodes,
                    target as int,
                    nodes_of(view_of(replacement)),
                    direct_views(direct@),
                    m@.nodes,
                )
                &&& shaped(m@.nodes)
                &&& m@.progress == merged_progress(
                    base@,
                    target as int,
                    view_of(replacement),
                    m@.nodes,
                )
                &&& m@.issues == merged_issues(base@, view_of(replacement))
                &&& m.cancelled == base.cancelled
                &&& !m.scanning
                &&& m.elapsed == base.elapsed
            },
        },
{
    broadcast use vstd::std_specs::hash::group_hash_axioms;

    let ghost old_tree = base@.nodes;
    let ghost new_tree = nodes_of(view_of(replacement));
    let ghost read = direct_views(direct@);
    assert(old_tree[target as int] == base.nodes@[target as int]@);
    if let Some(new) = replacement {
        assert(new@.nodes.len() == new.nodes@.len());
        assert(new@.nodes[0] == new.nodes@[0]@);
        if !new.nodes[0].path.same(&base.nodes[target].path) {
            return Err("재스캔 경로가 일치하지 않습니다.".to_string());
        }
    }
    let kids = combine(
        &base.nodes,
        target,
        match replacement {
            Some(new) => Some(&new.nodes),
            None => None,
        },
    );
    proof {
        combined_is_ordered(old_tree, target as int, new_tree);
    }
    let root: usize = if target == 0 {
        base.nodes.len()
    } else {
        0
    };
    let mut first: Vec<usize> = Vec::new();
    first.push(root);
    assert(old_tree.len() == base.nodes.len());
    assert(first@ =~= seq![root_source(old_tree, target as int)]);
    assert(kids@.len() == lists_of(kids@).len());
    let plan = spread_out(&kids, &first);
    let ghost list = plan@;
    assert(list == merge_plan(old_tree, target as int, new_tree));
    let mut nodes: Vec<Node> = Vec::new();
    let mut open: Vec<bool> = Vec::new();
    let mut k: usize = 0;
    assert(tree_of(nodes@) =~= seq![]);
    assert(list[0] == starting(first@)[0]);
    while k < plan.len()
        invariant
            k <= list.len(),
            list == plan@,
            old_tree == base@.nodes,
            new_tree == nodes_of(view_of(replacement)),
            read == direct_views(direct@),
            can_merge(old_tree, target as int, new_tree),
            in_rows(combined(old_tree, target as int, new_tree), list, list.len() as int),
            sources_exist(combined(old_tree, target as int, new_tree), list),
            list.len() > 0,
            list[0].parent is None,
            forall|j: int| 1 <= j < list.len() ==> (#[trigger] list[j]).parent is Some,
            nodes@.len() == k,
            open@ == reopened(old_tree, read, list).take(k as int),
            planned(old_tree, new_tree, read, list, tree_of(nodes@), k as int),
        decreases list.len() - k,
    {
        broadcast use vstd::std_specs::hash::group_hash_axioms;

        let p: Placement = plan[k];
        assert(plan.len() == list.len());
        assert(p.source < combined(old_tree, target as int, new_tree).len());
        assert(list[k as int].parent matches Some(q) ==> q < k);
        let mut changed: bool = false;
        let mut node: Node;
        if p.source < base.nodes.len() {
            node = base.nodes[p.source].clone();
            assert(node@ == old_tree[p.source as int]);
            if let Some(d) = direct.get(&p.source) {
                node.read_anew(d);
                changed = true;
            }
        } else {
            match replacement {
                None => {
                    assert(false);
                    node = Node::new(base.nodes[0].path.clone(), None);
                },
                Some(new) => {
                    let at: usize = p.source - base.nodes.len();
                    node = new.nodes[at].clone();
                    assert(node@ == new@.nodes[at as int]);
                },
            }
        }
        node.parent = p.parent;
        node.children = Vec::new();
        open.push(changed);
        proof {
            assert(node@ =~= merged_node(old_tree, new_tree, read, list[k as int]));
            planning_goes_on(old_tree, new_tree, read, list, tree_of(nodes@), k as int);
        }
        join_folder(&mut nodes, node);
        assert(nodes@.len() == tree_of(nodes@).len());
        k += 1;
        assert(open@ =~= reopened(old_tree, read, list).take(k as int));
    }
    assert(open@ =~= reopened(old_tree, read, list));
    let ghost raw = tree_of(nodes@);
    add_up_where(&mut nodes, &open);
    proof {
        let tree = tree_of(nodes@);
        assert forall|i: int| 0 <= i < raw.len() implies (#[trigger] tree[i]).parent == raw[i].parent
            && tree[i].children == raw[i].children && tree[i].path == raw[i].path by {}
        totals_do_not_move_folders(raw, tree);
        assert(tree[0] == nodes@[0]@);
    }
    let mut progress = base.progress.clone();
    progress.bytes = nodes[0].bytes;
    progress.files = nodes[0].files;
    progress.folders = nodes.len();
    progress.current = base.nodes[target].path.clone();
    progress.records = 0;
    progress.total_records = 0;
    let mut issues = copy_texts(&base.issues);
    if let Some(new) = replacement {
        progress.errors = progress.errors.saturating_add(new.progress.errors);
        progress.skipped = progress.skipped.saturating_add(new.progress.skipped);
        append_texts(&mut issues, &new.issues);
    }
    Ok(
        Report {
            nodes,
            progress,
            issues,
            cancelled: base.cancelled,
            scanning: false,
            elapsed: base.elapsed,
        },
    )
}

/// Appends texts as far as there is room for them.
pub fn append_texts(texts: &mut Vec<String>, more: &Vec<String>)
    ensures
        texts_of(final(texts)@) == at_most(
            texts_of(old(texts)@) + texts_of(more@),
            MAX_ISSUES as int,
        ),
{
    let ghost before = texts_of(texts@);
    let ghost added = texts_of(more@);
    if texts.len() > MAX_ISSUES {
        texts.truncate(MAX_ISSUES);
        assert(texts_of(texts@) =~= (before + added).take(MAX_ISSUES as int));
        return;
    }
    let mut i: usize = 0;
    assert(before + added.take(0) =~= before);
    while i < more.len() && texts.len() < MAX_ISSUES
        invariant
            i <= more@.len(),
            added == texts_of(more@),
            texts@.len() == before.len() + i,
            texts@.len() <= MAX_ISSUES,
            texts_of(texts@) == before + added.take(i as int),
        decreases more@.len() - i,
    {
        let ghost so_far = texts_of(texts@);
        let text = more[i].clone();
        assert(text@ == added[i as int]);
        texts.push(text);
        i += 1;
        assert(texts_of(texts@) =~= so_far.push(text@));
        assert(texts_of(texts@) =~= before + added.take(i as int));
    }
    proof {
        if before.len() + added.len() > MAX_ISSUES {
            assert(texts_of(texts@) =~= (before + added).take(MAX_ISSUES as int));
        } else {
            assert(added.take(i as int) =~= added);
        }
    }
}

impl Node {
    /// Shows newly read direct files.
    fn read_anew(&mut self, direct: &Node)
        ensures
            final(self)@ == with_direct(old(self)@, direct@),
    {
        self.own_bytes = direct.own_bytes;
        self.bytes = direct.own_bytes;
        self.files = direct.files;
        self.modified = direct.modified;
        self.accessed = direct.accessed;
        self.missing_modified = direct.missing_modified;
        self.missing_accessed = direct.missing_accessed;
        self.incomplete = self.incomplete || direct.incomplete;
    }
}

} // verus!
