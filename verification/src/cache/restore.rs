//! Showing a saved map again.
use vstd::prelude::*;
use crate::anchor::{Anchor, AnchorView};
use crate::cache::{decode_path, decode_time, index, is_path, key, key_bytes, number, numbers_survive, paths_survive, saved_index, saved_number, saved_path, saved_time, times_survive};
use crate::cache::snapshot::{fault, node_row, node_rows, optional_bytes, refusal, row_views, rows_of, told_root, validate, Cached, NodeRow, NodeRowView, Snapshot, SnapshotRow, SnapshotRowView, SnapshotView, MFT_ENGINE};
use crate::scan::{copy_texts, Progress, ProgressView, Report, ReportView, FOLDER_ENGINE};
use crate::time::{representable, timestamp_is_its_distance, Duration, Timestamp, NANOS_PER_SECOND};
use crate::tree::{children_of, joined, join_folder, joining_keeps_the_shape, no_children, shaped, tree_of, Node, NodeView};

verus! {

/// What concerns a saved map as a whole.
pub struct Header {
    pub saved_at: Timestamp,
    pub elapsed: Duration,
    pub expected: usize,
    pub progress: Progress,
}

/// What a `Header` holds.
#[verifier::ext_equal]
pub struct HeaderView {
    pub saved_at: Timestamp,
    pub elapsed: Duration,
    pub expected: usize,
    pub progress: ProgressView,
}

impl View for Header {
    type V = HeaderView;

    open spec fn view(&self) -> HeaderView {
        HeaderView {
            saved_at: self.saved_at,
            elapsed: self.elapsed,
            expected: self.expected,
            progress: self.progress@,
        }
    }
}

/// What a saved row says of the map as a whole, or what is wrong with it.
pub open spec fn header_of(row: SnapshotRowView) -> Result<HeaderView, Seq<char>> {
    if row.saved_seconds < 0 || row.saved_nanos >= NANOS_PER_SECOND {
        Err("Invalid saved date"@)
    } else if row.engine != MFT_ENGINE@ && row.engine != FOLDER_ENGINE@ {
        Err("Unknown cached scan engine"@)
    } else if row.elapsed_nanos >= NANOS_PER_SECOND {
        Err("Invalid cached duration"@)
    } else {
        match (
            saved_number(row.elapsed_seconds),
            saved_index(row.node_count),
            saved_number(row.bytes),
            saved_number(row.files),
            saved_number(row.errors),
            saved_number(row.skipped),
            saved_number(row.records),
            saved_number(row.total_records),
        ) {
            (Err(e), _, _, _, _, _, _, _) => Err(e),
            (_, Err(e), _, _, _, _, _, _) => Err(e),
            (_, _, Err(e), _, _, _, _, _) => Err(e),
            (_, _, _, Err(e), _, _, _, _) => Err(e),
            (_, _, _, _, Err(e), _, _, _) => Err(e),
            (_, _, _, _, _, Err(e), _, _) => Err(e),
            (_, _, _, _, _, _, Err(e), _) => Err(e),
            (_, _, _, _, _, _, _, Err(e)) => Err(e),
            (
                Ok(seconds),
                Ok(expected),
                Ok(bytes),
                Ok(files),
                Ok(errors),
                Ok(skipped),
                Ok(records),
                Ok(total_records),
            ) => Ok(
                HeaderView {
                    saved_at: Timestamp::at(row.saved_seconds * NANOS_PER_SECOND + row.saved_nanos),
                    elapsed: Duration { seconds, nanos: row.elapsed_nanos },
                    expected,
                    progress: ProgressView {
                        bytes,
                        files,
                        errors,
                        skipped,
                        records,
                        total_records,
                        ..ProgressView::starting(row.engine, row.note)
                    },
                },
            ),
        }
    }
}

/// The engine that a name means.
fn engine_named(name: &str) -> (r: Option<&'static str>)
    ensures
        match r {
            Some(e) => e@ == name@ && (name@ == MFT_ENGINE@ || name@ == FOLDER_ENGINE@),
            None => name@ != MFT_ENGINE@ && name@ != FOLDER_ENGINE@,
        },
{
    if crate::text::same_text(name, MFT_ENGINE) {
        Some(MFT_ENGINE)
    } else if crate::text::same_text(name, FOLDER_ENGINE) {
        Some(FOLDER_ENGINE)
    } else {
        None
    }
}

/// What a saved row says of the map as a whole.
pub fn read_header(row: &SnapshotRow) -> (r: Result<Header, String>)
    ensures
        match r {
            Ok(h) => header_of(row@) == Ok::<HeaderView, Seq<char>>(h@),
            Err(e) => header_of(row@) == Err::<HeaderView, Seq<char>>(e@),
        },
{
    if row.saved_seconds < 0 || row.saved_nanos >= 1_000_000_000 {
        return Err("Invalid saved date".to_string());
    }
    let nanos: i128 = row.saved_seconds as i128 * NANOS_PER_SECOND + row.saved_nanos as i128;
    let saved_at = match Timestamp::from_nanos(nanos) {
        Some(t) => t,
        None => {
            assert(false);
            return Err("Invalid saved date".to_string());
        },
    };
    let engine = match engine_named(row.engine.as_str()) {
        Some(e) => e,
        None => {
            return Err("Unknown cached scan engine".to_string());
        },
    };
    if row.elapsed_nanos >= 1_000_000_000 {
        return Err("Invalid cached duration".to_string());
    }
    let seconds: u64 = number(&row.elapsed_seconds)?;
    let elapsed = Duration { seconds, nanos: row.elapsed_nanos };
    let expected: usize = index(row.node_count)?;
    let bytes: u64 = number(&row.bytes)?;
    let files: u64 = number(&row.files)?;
    let errors: u64 = number(&row.errors)?;
    let skipped: u64 = number(&row.skipped)?;
    let records: u64 = number(&row.records)?;
    let total_records: u64 = number(&row.total_records)?;
    let progress = Progress {
        engine,
        note: row.note.clone(),
        bytes,
        files,
        errors,
        skipped,
        records,
        total_records,
        ..Default::default()
    };
    Ok(Header { saved_at, elapsed, expected, progress })
}

/// A saved instant that may be unknown.
pub open spec fn saved_optional_time(bytes: Option<Seq<u8>>) -> Result<Option<Timestamp>, Seq<char>> {
    match bytes {
        None => Ok(None),
        Some(b) => match saved_time(b) {
            Ok(t) => Ok(Some(t)),
            Err(e) => Err(e),
        },
    }
}

fn decode_optional_time(bytes: &Option<Vec<u8>>) -> (r: Result<Option<Timestamp>, String>)
    ensures
        match r {
            Ok(t) => saved_optional_time(optional_bytes(*bytes)) == Ok::<
                Option<Timestamp>,
                Seq<char>,
            >(t),
            Err(e) => saved_optional_time(optional_bytes(*bytes)) == Err::<
                Option<Timestamp>,
                Seq<char>,
            >(e@),
        },
{
    match bytes {
        None => Ok(None),
        Some(b) => {
            let t = decode_time(b)?;
            Ok(Some(t))
        },
    }
}

/// A saved parent that may be missing.
pub open spec fn saved_parent(parent: Option<i64>) -> Result<Option<usize>, Seq<char>> {
    match parent {
        None => Ok(None),
        Some(p) => match saved_index(p) {
            Ok(i) => Ok(Some(i)),
            Err(e) => Err(e),
        },
    }
}

/// Whether a parent fits the folder at `at`: the root has none, the others an earlier one.
pub open spec fn parent_fits(parent: Option<usize>, at: int) -> bool {
    if at == 0 {
        parent is None
    } else {
        parent matches Some(p) && p < at
    }
}

/// The folder in a saved row that stands at `at`, or what is wrong with it.
/// `anchor` tells how its path starts.
pub open spec fn node_of(row: NodeRowView, at: int, anchor: AnchorView, windows: bool) -> Result<
    NodeView,
    Seq<char>,
> {
    match (saved_index(row.id), saved_parent(row.parent)) {
        (Err(e), _) => Err(e),
        (Ok(id), _) if id != at => Err("Non-contiguous cached node IDs"@),
        (_, Err(e)) => Err(e),
        (Ok(_), Ok(parent)) => if !parent_fits(parent, at) {
            Err("Invalid cached parent index"@)
        } else if !(0 <= row.flags <= 7) {
            Err("Invalid cached node flags"@)
        } else {
            match (
                saved_path(row.path, windows),
                saved_number(row.bytes),
                saved_number(row.own_bytes),
                saved_number(row.files),
                saved_optional_time(row.modified),
                saved_optional_time(row.accessed),
            ) {
                (Err(e), _, _, _, _, _) => Err(e),
                (_, Err(e), _, _, _, _) => Err(e),
                (_, _, Err(e), _, _, _) => Err(e),
                (_, _, _, Err(e), _, _) => Err(e),
                (_, _, _, _, Err(e), _) => Err(e),
                (_, _, _, _, _, Err(e)) => Err(e),
                (Ok(units), Ok(bytes), Ok(own_bytes), Ok(files), Ok(modified), Ok(accessed)) => Ok(
                    NodeView {
                        path: anchor.path(units),
                        parent,
                        children: seq![],
                        bytes,
                        own_bytes,
                        files,
                        modified,
                        accessed,
                        missing_modified: row.flags % 2 == 1,
                        missing_accessed: row.flags / 2 % 2 == 1,
                        incomplete: row.flags / 4 == 1,
                    },
                ),
            }
        },
    }
}

fn read_node(row: &NodeRow, at: usize, anchor: &Anchor, windows: bool) -> (r: Result<
    Node,
    String,
>)
    ensures
        match r {
            Ok(n) => node_of(row@, at as int, anchor@, windows) == Ok::<NodeView, Seq<char>>(n@),
            Err(e) => node_of(row@, at as int, anchor@, windows) == Err::<NodeView, Seq<char>>(e@),
        },
{
    let id: usize = index(row.id)?;
    if id != at {
        return Err("Non-contiguous cached node IDs".to_string());
    }
    let parent: Option<usize> = match row.parent {
        None => None,
        Some(p) => {
            let i: usize = index(p)?;
            Some(i)
        },
    };
    let fits: bool = match parent {
        None => at == 0,
        Some(p) => at > 0 && p < at,
    };
    if !fits {
        return Err("Invalid cached parent index".to_string());
    }
    if row.flags < 0 || row.flags > 7 {
        return Err("Invalid cached node flags".to_string());
    }
    let units = decode_path(&row.path, windows)?;
    let bytes: u64 = number(&row.bytes)?;
    let own_bytes: u64 = number(&row.own_bytes)?;
    let files: u64 = number(&row.files)?;
    let modified = decode_optional_time(&row.modified)?;
    let accessed = decode_optional_time(&row.accessed)?;
    let flags: i64 = row.flags;
    let r = Node {
        path: anchor.read(&units),
        parent,
        children: Vec::new(),
        bytes,
        own_bytes,
        files,
        modified,
        accessed,
        missing_modified: flags % 2 == 1,
        missing_accessed: flags / 2 % 2 == 1,
        incomplete: flags / 4 == 1,
    };
    assert(r@.children =~= seq![]);
    Ok(r)
}

/// What a list of anchors holds.
pub open spec fn anchor_views(anchors: Seq<Anchor>) -> Seq<AnchorView> {
    Seq::new(anchors.len(), |i: int| anchors[i]@)
}

/// The folders in the first `n` rows, or what is wrong with the first bad one.
pub open spec fn nodes_of(
    rows: Seq<NodeRowView>,
    anchors: Seq<AnchorView>,
    n: int,
    windows: bool,
) -> Result<Seq<NodeView>, Seq<char>>
    decreases n,
{
    if n <= 0 {
        Ok(seq![])
    } else {
        match nodes_of(rows, anchors, n - 1, windows) {
            Err(e) => Err(e),
            Ok(tree) => match node_of(rows[n - 1], n - 1, anchors[n - 1], windows) {
                Err(e) => Err(e),
                Ok(node) => Ok(joined(tree, node)),
            },
        }
    }
}

proof fn errors_stay(
    rows: Seq<NodeRowView>,
    anchors: Seq<AnchorView>,
    m: int,
    n: int,
    windows: bool,
)
    requires
        m <= n,
        nodes_of(rows, anchors, m, windows) is Err,
    ensures
        nodes_of(rows, anchors, n, windows) == nodes_of(rows, anchors, m, windows),
    decreases n,
{
    if 0 < n && m < n {
        errors_stay(rows, anchors, m, n - 1, windows);
    }
}

/// The folders in saved rows. `anchors` tells how each row's path starts.
fn read_nodes(rows: &Vec<NodeRow>, anchors: &Vec<Anchor>, windows: bool) -> (r: Result<
    Vec<Node>,
    String,
>)
    requires
        anchors@.len() == rows@.len(),
    ensures
        match r {
            Ok(nodes) => nodes_of(
                row_views(rows@),
                anchor_views(anchors@),
                rows@.len() as int,
                windows,
            ) == Ok::<Seq<NodeView>, Seq<char>>(tree_of(nodes@)) && nodes@.len() == rows@.len() && (rows@.len() > 0 ==> shaped(
                tree_of(nodes@),
            )),
            Err(e) => nodes_of(
                row_views(rows@),
                anchor_views(anchors@),
                rows@.len() as int,
                windows,
            ) == Err::<Seq<NodeView>, Seq<char>>(e@),
        },
{
    let ghost views = row_views(rows@);
    let ghost starts = anchor_views(anchors@);
    let mut nodes: Vec<Node> = Vec::new();
    let mut i: usize = 0;
    assert(tree_of(nodes@) =~= seq![]);
    while i < rows.len()
        invariant
            i <= rows@.len(),
            anchors@.len() == rows@.len(),
            views == row_views(rows@),
            starts == anchor_views(anchors@),
            nodes@.len() == i,
            i > 0 ==> shaped(tree_of(nodes@)),
            nodes_of(views, starts, i as int, windows) == Ok::<Seq<NodeView>, Seq<char>>(
                tree_of(nodes@),
            ),
        decreases rows@.len() - i,
    {
        let ghost before = tree_of(nodes@);
        assert(views[i as int] == rows@[i as int]@ && starts[i as int] == anchors@[i as int]@);
        assert(rows.len() == rows@.len());
        match read_node(&rows[i], i, &anchors[i], windows) {
            Err(e) => {
                proof {
                    errors_stay(views, starts, i + 1, rows@.len() as int, windows);
                }
                return Err(e);
            },
            Ok(node) => {
                let ghost fresh = node@;
                join_folder(&mut nodes, node);
                proof {
                    assert(tree_of(nodes@).len() == nodes.len());
                    if i == 0 {
                        assert(tree_of(nodes@) =~= seq![fresh]);
                        no_children(tree_of(nodes@), 0, 1);
                    } else {
                        joining_keeps_the_shape(before, fresh);
                    }
                }
            },
        }
        i += 1;
    }
    Ok(nodes)
}

/// What a `Cached` holds.
#[verifier::ext_equal]
pub struct CachedView {
    pub report: ReportView,
    pub saved_at: Timestamp,
}

impl View for Cached {
    type V = CachedView;

    open spec fn view(&self) -> CachedView {
        CachedView { report: self.report@, saved_at: self.saved_at }
    }
}

/// The map in saved rows, or what is wrong with them. `root` is the absolute
/// path of the first folder.
pub open spec fn restored(
    snapshot: SnapshotView,
    anchors: Seq<AnchorView>,
    root: Result<Seq<u16>, Seq<char>>,
    windows: bool,
) -> Result<CachedView, Seq<char>> {
    match header_of(snapshot.row) {
        Err(e) => Err(e),
        Ok(header) => match nodes_of(snapshot.nodes, anchors, snapshot.nodes.len() as int, windows) {
            Err(e) => Err(e),
            Ok(tree) => if tree.len() != header.expected {
                Err("Incomplete cached snapshot"@)
            } else if fault(tree) is Some {
                Err(fault(tree)->0)
            } else if root is Err {
                Err(root->Err_0)
            } else if key_bytes(root->Ok_0, windows) != snapshot.row.root_key {
                Err("Cached root path does not match its key"@)
            } else if header.progress.bytes != tree[0].bytes || header.progress.files
                != tree[0].files {
                Err("Cached progress totals do not match"@)
            } else {
                Ok(
                    CachedView {
                        report: ReportView {
                            nodes: tree,
                            progress: ProgressView {
                                folders: tree.len() as usize,
                                current: tree[0].path,
                                ..header.progress
                            },
                            issues: snapshot.issues,
                            cancelled: false,
                            scanning: false,
                            elapsed: header.elapsed,
                        },
                        saved_at: header.saved_at,
                    },
                )
            },
        },
    }
}

/// The map in saved rows. Rows that do not fit together are refused. `anchors`
/// tells how each row's path starts, and `root` is the first one in absolute
/// form, or why it has none.
pub fn load(
    snapshot: &Snapshot,
    anchors: &Vec<Anchor>,
    root: &Result<Vec<u16>, String>,
    windows: bool,
) -> (r: Result<Cached, String>)
    requires
        anchors@.len() == snapshot@.nodes.len(),
    ensures
        match r {
            Ok(c) => restored(snapshot@, anchor_views(anchors@), told_root(*root), windows) == Ok::<
                CachedView,
                Seq<char>,
            >(c@) && shaped(c@.report.nodes),
            Err(e) => restored(snapshot@, anchor_views(anchors@), told_root(*root), windows) == Err::<
                CachedView,
                Seq<char>,
            >(e@),
        },
{
    let header = read_header(&snapshot.row)?;
    let nodes = read_nodes(&snapshot.nodes, anchors, windows)?;
    if nodes.len() != header.expected {
        return Err("Incomplete cached snapshot".to_string());
    }
    validate(&nodes)?;
    let root_key: Vec<u8> = match root {
        Ok(units) => key(units, windows),
        Err(e) => {
            return Err(e.clone());
        },
    };
    if !same_bytes(&root_key, &snapshot.row.root_key) {
        return Err("Cached root path does not match its key".to_string());
    }
    let mut progress = header.progress;
    assert(tree_of(nodes@)[0] == nodes@[0]@);
    if progress.bytes != nodes[0].bytes || progress.files != nodes[0].files {
        return Err("Cached progress totals do not match".to_string());
    }
    progress.folders = nodes.len();
    progress.current = nodes[0].path.clone();
    Ok(
        Cached {
            report: Report {
                nodes,
                progress,
                issues: copy_texts(&snapshot.issues),
                cancelled: false,
                scanning: false,
                elapsed: header.elapsed,
            },
            saved_at: header.saved_at,
        },
    )
}

/// Whether two byte sequences are equal.
fn same_bytes(a: &Vec<u8>, b: &Vec<u8>) -> (r: bool)
    ensures
        r == (a@ == b@),
{
    if a.len() != b.len() {
        return false;
    }
    let mut i: usize = 0;
    while i < a.len()
        invariant
            i <= a@.len(),
            a@.len() == b@.len(),
            forall|j: int| 0 <= j < i ==> a@[j] == b@[j],
        decreases a@.len() - i,
    {
        if a[i] != b[i] {
            return false;
        }
        i += 1;
    }
    assert(a@ =~= b@);
    true
}

/// Whether every date of a folder can be saved.
pub open spec fn dates_fit(tree: Seq<NodeView>) -> bool {
    forall|i: int|
        0 <= i < tree.len() ==> ((#[trigger] tree[i]).modified matches Some(t) ==> representable(t@))
            && (tree[i].accessed matches Some(t) ==> representable(t@))
}

/// Whether every path of a map can be saved.
pub open spec fn paths_fit(tree: Seq<NodeView>, windows: bool) -> bool {
    forall|i: int|
        0 <= i < tree.len() ==> is_path((#[trigger] tree[i]).path.written, windows)
}

/// Whether anchors read the paths of a map as they are written.
pub open spec fn anchors_fit(anchors: Seq<AnchorView>, tree: Seq<NodeView>) -> bool {
    &&& anchors.len() == tree.len()
    &&& forall|i: int| 0 <= i < tree.len() ==> (#[trigger] anchors[i]).reads(tree[i].path)
}

proof fn a_folder_survives(tree: Seq<NodeView>, anchor: AnchorView, i: int, windows: bool)
    requires
        shaped(tree),
        dates_fit(tree),
        paths_fit(tree, windows),
        0 <= i < tree.len() <= i64::MAX,
        anchor.reads(tree[i].path),
    ensures
        node_of(node_row(tree[i], i, windows), i, anchor, windows) == Ok::<
            NodeView,
            Seq<char>,
        >(NodeView { children: seq![], ..tree[i] }),
        saved_path(node_row(tree[i], i, windows).path, windows) == Ok::<Seq<u16>, Seq<char>>(
            tree[i].path.written,
        ),
{
    let n = tree[i];
    numbers_survive(n.bytes);
    numbers_survive(n.own_bytes);
    numbers_survive(n.files);
    paths_survive(n.path.written, windows);
    if let Some(t) = n.modified {
        times_survive(t);
    }
    if let Some(t) = n.accessed {
        times_survive(t);
    }
    let row = node_row(n, i, windows);
    let back = node_of(row, i, anchor, windows);
    assert(saved_index(row.id) == Ok::<usize, Seq<char>>(i as usize));
    if let Some(p) = n.parent {
        assert(p < i);
        assert(saved_index(p as i64) == Ok::<usize, Seq<char>>(p));
    }
    assert(saved_parent(row.parent) == Ok::<Option<usize>, Seq<char>>(n.parent));
    assert(parent_fits(n.parent, i));
    assert(back is Ok);
    assert(back->Ok_0 =~= NodeView { children: seq![], ..n });
}

/// The first `n` folders as they stand before the rest joins them.
spec fn part(tree: Seq<NodeView>, n: int) -> Seq<NodeView> {
    Seq::new(n as nat, |i: int| NodeView { children: children_of(tree, i, n), ..tree[i] })
}

proof fn folders_survive(
    tree: Seq<NodeView>,
    anchors: Seq<AnchorView>,
    n: int,
    windows: bool,
)
    requires
        shaped(tree),
        dates_fit(tree),
        paths_fit(tree, windows),
        anchors_fit(anchors, tree),
        0 <= n <= tree.len() <= i64::MAX,
    ensures
        nodes_of(node_rows(tree, windows), anchors, n, windows) == Ok::<
            Seq<NodeView>,
            Seq<char>,
        >(part(tree, n)),
        forall|i: int|
            0 <= i < n ==> saved_path(
                (#[trigger] node_rows(tree, windows)[i]).path,
                windows,
            ) == Ok::<Seq<u16>, Seq<char>>(tree[i].path.written),
    decreases n,
{
    if n == 0 {
        assert(part(tree, 0) =~= seq![]);
    } else {
        folders_survive(tree, anchors, n - 1, windows);
        assert(anchors[n - 1].reads(tree[n - 1].path));
        a_folder_survives(tree, anchors[n - 1], n - 1, windows);
        let before = part(tree, n - 1);
        let node = NodeView { children: seq![], ..tree[n - 1] };
        let now = joined(before, node);
        assert(tree[n - 1].parent matches Some(p) ==> p < n - 1);
        assert(now.len() == n);
        assert forall|i: int| 0 <= i < n implies #[trigger] now[i] == part(tree, n)[i] by {
            if i == n - 1 {
                assert forall|j: int| 0 <= j < n implies (#[trigger] tree[j]).parent != Some(
                    i as usize,
                ) by {
                    if j > 0 {
                        assert((tree[j].parent->0 as int) < j);
                    }
                }
                no_children(tree, i, n);
            } else if tree[n - 1].parent == Some(i as usize) {
                assert(now[i].children =~= children_of(tree, i, n));
            }
        }
        assert(now =~= part(tree, n));
    }
}

/// Whether a report can be saved and shown again: a finished map without fault,
/// whose progress shows the root's totals and whose engine is known.
pub open spec fn can_be_kept(
    report: ReportView,
    saved_at: Timestamp,
    root: Seq<u16>,
    windows: bool,
) -> bool {
    &&& refusal(report, saved_at@, Ok(root)) is None
    &&& shaped(report.nodes)
    &&& report.nodes.len() <= i64::MAX
    &&& dates_fit(report.nodes)
    &&& paths_fit(report.nodes, windows)
    &&& report.progress.engine == MFT_ENGINE@ || report.progress.engine == FOLDER_ENGINE@
    &&& report.progress.bytes == report.nodes[0].bytes
    &&& report.progress.files == report.nodes[0].files
    &&& report.elapsed.nanos < NANOS_PER_SECOND
    &&& representable(saved_at@)
}

/// Loading gives back what was saved: the whole tree with its dates and marks,
/// the progress, the problems, and the date of saving. Only the progress's
/// folder count and current folder are those of the map itself. Every saved
/// path is read as the units that it was written from.
pub proof fn loading_gives_back_what_was_saved(
    report: ReportView,
    saved_at: Timestamp,
    anchors: Seq<AnchorView>,
    root: Seq<u16>,
    windows: bool,
)
    requires
        can_be_kept(report, saved_at, root, windows),
        anchors_fit(anchors, report.nodes),
    ensures
        forall|i: int|
            0 <= i < report.nodes.len() ==> saved_path(
                (#[trigger] rows_of(report, saved_at@, root, windows).nodes[i]).path,
                windows,
            ) == Ok::<Seq<u16>, Seq<char>>(report.nodes[i].path.written),
        restored(
            rows_of(report, saved_at@, root, windows),
            anchors,
            Ok(root),
            windows,
        ) == Ok::<CachedView, Seq<char>>(
            CachedView {
                report: ReportView {
                    progress: ProgressView {
                        folders: report.nodes.len() as usize,
                        current: report.nodes[0].path,
                        ..report.progress
                    },
                    ..report
                },
                saved_at,
            },
        ),
{
    let tree = report.nodes;
    let p = report.progress;
    let rows = rows_of(report, saved_at@, root, windows);
    numbers_survive(report.elapsed.seconds);
    numbers_survive(p.bytes);
    numbers_survive(p.files);
    numbers_survive(p.errors);
    numbers_survive(p.skipped);
    numbers_survive(p.records);
    numbers_survive(p.total_records);
    timestamp_is_its_distance(saved_at);
    assert(saved_index(rows.row.node_count) == Ok::<usize, Seq<char>>(tree.len() as usize));
    assert(rows.row.saved_seconds * NANOS_PER_SECOND + rows.row.saved_nanos == saved_at@);
    let header = header_of(rows.row);
    assert(header is Ok);
    folders_survive(tree, anchors, tree.len() as int, windows);
    assert(part(tree, tree.len() as int) =~= tree) by {
        assert forall|i: int| 0 <= i < tree.len() implies #[trigger] part(tree, tree.len() as int)[i]
            == tree[i] by {
            assert(tree[i].children == children_of(tree, i, tree.len() as int));
        }
    }
    let back = restored(rows, anchors, Ok(root), windows);
    assert(back is Ok);
    assert(back->Ok_0.report.progress =~= ProgressView {
        folders: tree.len() as usize,
        current: tree[0].path,
        ..p
    });
}

} // verus!
