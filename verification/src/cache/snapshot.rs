//! A whole saved map: its rows, and the way there and back.
use std::sync::Arc;
use vstd::prelude::*;
use crate::bytes::le_bytes;
use crate::cache::{encode_path, encode_time, key, key_bytes, number_bytes, path_bytes, time_bytes};
use crate::path::FolderPath;
use crate::scan::{copy_texts, texts_of, Report, ReportView};
use crate::time::{Timestamp, NANOS_PER_SECOND};
use crate::tree::{nested, parents_first, saturated, shaped, sizes_add_up, subfolder_totals, tree_of, Node, NodeView};

verus! {

/// The engine that reads a volume's records.
pub const MFT_ENGINE: &'static str = "MFT 고속";

/// A saved map and when it was saved.
#[derive(Debug)]
pub struct Cached {
    pub report: Report,
    pub saved_at: Timestamp,
}

/// What is asked of the keeper of saved maps.
#[derive(Debug)]
pub enum Request {
    Load { generation: u64, root: Option<FolderPath> },
    Save { generation: u64, report: Arc<Report>, saved_at: Timestamp },
}

/// What the keeper of saved maps answers.
#[allow(inconsistent_fields)]
#[derive(Debug)]
pub enum Event {
    Loaded { generation: u64, result: Result<Option<Cached>, String> },
    Saved { generation: u64, result: Result<Timestamp, String> },
}

/// What is wrong with the place of folder `id`.
pub open spec fn place_fault(tree: Seq<NodeView>, id: int) -> Option<Seq<char>> {
    match tree[id].parent {
        None => Some("Missing cached parent"@),
        Some(p) => if p >= id || !tree[id].path.is_inside(tree[p as int].path) {
            Some("Invalid cached hierarchy"@)
        } else {
            None
        },
    }
}

/// What is wrong with the places of the folders from 1 to `n`, told of the last one.
pub open spec fn places_fault(tree: Seq<NodeView>, n: int) -> Option<Seq<char>>
    decreases n,
{
    if n < 1 {
        None
    } else if place_fault(tree, n) is Some {
        place_fault(tree, n)
    } else {
        places_fault(tree, n - 1)
    }
}

/// What is wrong with a map that is saved or shown again.
pub open spec fn fault(tree: Seq<NodeView>) -> Option<Seq<char>> {
    if tree.len() == 0 || tree[0].parent is Some || !tree[0].path.absolute {
        Some("Invalid cached root"@)
    } else if places_fault(tree, tree.len() - 1) is Some {
        places_fault(tree, tree.len() - 1)
    } else if !sizes_add_up(tree) {
        Some("Cached size totals do not match"@)
    } else {
        None
    }
}

proof fn no_fault_up_to(tree: Seq<NodeView>, n: int, i: int)
    requires
        places_fault(tree, n) is None,
        1 <= i <= n,
    ensures
        place_fault(tree, i) is None,
    decreases n,
{
    if i < n {
        no_fault_up_to(tree, n - 1, i);
    }
}

/// The size of a folder's direct files and of the subfolders from `from` on.
spec fn size_from(tree: Seq<NodeView>, i: int, from: int) -> u64 {
    saturated(tree[i].own_bytes + subfolder_totals(tree, i, from).bytes)
}

/// Checks a map: one root with an absolute path, every other folder directly
/// inside an earlier one, and sizes that add up.
pub fn validate(nodes: &Vec<Node>) -> (r: Result<(), String>)
    ensures
        match r {
            Ok(_) => fault(tree_of(nodes@)) is None,
            Err(e) => fault(tree_of(nodes@)) == Some(e@),
        },
{
    let ghost tree = tree_of(nodes@);
    assert(forall|i: int| 0 <= i < tree.len() ==> #[trigger] tree[i] == nodes@[i]@);
    if nodes.len() == 0 || nodes[0].parent.is_some() || !nodes[0].path.absolute {
        return Err("Invalid cached root".to_string());
    }
    let mut sizes: Vec<u64> = Vec::new();
    let mut i: usize = 0;
    while i < nodes.len()
        invariant
            i <= nodes@.len(),
            sizes@.len() == i,
            forall|k: int| 0 <= k < i ==> #[trigger] sizes@[k] == nodes@[k].own_bytes,
        decreases nodes@.len() - i,
    {
        sizes.push(nodes[i].own_bytes);
        i += 1;
    }
    let mut n: usize = nodes.len() - 1;
    while n > 0
        invariant
            n < nodes@.len() == tree.len(),
            tree.len() <= usize::MAX,
            tree == tree_of(nodes@),
            forall|k: int| 0 <= k < tree.len() ==> #[trigger] tree[k] == nodes@[k]@,
            tree[0].parent is None,
            tree[0].path.absolute,
            sizes@.len() == tree.len(),
            places_fault(tree, n as int) == places_fault(tree, tree.len() - 1),
            forall|k: int|
                0 <= k < tree.len() ==> #[trigger] sizes@[k] == size_from(tree, k, n + 1),
        decreases n,
    {
        let parent: usize = match nodes[n].parent {
            None => {
                assert(place_fault(tree, n as int) is Some);
                return Err("Missing cached parent".to_string());
            },
            Some(p) => p,
        };
        assert(tree[n as int] == nodes@[n as int]@);
        if parent >= n || !nodes[n].path.is_directly_inside(&nodes[parent].path) {
            return Err("Invalid cached hierarchy".to_string());
        }
        assert(tree[parent as int] == nodes@[parent as int]@);
        let ghost before = sizes@;
        let sum: u64 = sizes[parent].saturating_add(nodes[n].bytes);
        sizes.set(parent, sum);
        n = n - 1;
        assert forall|k: int| 0 <= k < tree.len() implies #[trigger] sizes@[k] == size_from(
            tree,
            k,
            n + 1,
        ) by {
            assert(before[k] == size_from(tree, k, n + 2));
        }
    }
    assert forall|k: int| 0 <= k < tree.len() implies #[trigger] sizes@[k] == size_from(tree, k, 0) by {
        assert(sizes@[k] == size_from(tree, k, 1));
        assert(tree[0].parent is None);
    }
    let mut i: usize = 0;
    while i < nodes.len()
        invariant
            i <= nodes@.len() == tree.len(),
            tree == tree_of(nodes@),
            sizes@.len() == tree.len(),
            tree[0].parent is None,
            tree[0].path.absolute,
            places_fault(tree, tree.len() - 1) is None,
            forall|k: int| 0 <= k < tree.len() ==> #[trigger] sizes@[k] == size_from(tree, k, 0),
            forall|k: int|
                0 <= k < i ==> (#[trigger] tree[k]).bytes == size_from(tree, k, 0),
        decreases nodes@.len() - i,
    {
        if nodes[i].bytes != sizes[i] {
            assert(tree[i as int] == nodes@[i as int]@);
            assert(tree[i as int].bytes != size_from(tree, i as int, 0));
            return Err("Cached size totals do not match".to_string());
        }
        i += 1;
    }
    Ok(())
}

/// A map without fault is one tree with nested paths and sizes that add up,
/// where its folders list their children; and such a map with an absolute root
/// is without fault.
pub proof fn maps_without_fault(tree: Seq<NodeView>)
    ensures
        shaped(tree) && nested(tree) && sizes_add_up(tree) && tree[0].path.absolute ==> fault(
            tree,
        ) is None,
        fault(tree) is None ==> nested(tree) && sizes_add_up(tree) && parents_first(tree),
{
    if shaped(tree) && nested(tree) {
        good_places(tree, tree.len() - 1);
    }
    if fault(tree) is None {
        assert forall|i: int| 0 < i < tree.len() implies (#[trigger] tree[i]).parent is Some
            && tree[i].parent->0 < i && tree[i].path.is_inside(
            tree[tree[i].parent->0 as int].path,
        ) by {
            no_fault_up_to(tree, tree.len() - 1, i);
        }
        assert forall|i: int| 0 <= i < tree.len() implies ((#[trigger] tree[i]).parent matches Some(
            p,
        ) ==> p < i) by {
            if i > 0 {
                no_fault_up_to(tree, tree.len() - 1, i);
            }
        }
    }
}

proof fn good_places(tree: Seq<NodeView>, n: int)
    requires
        shaped(tree),
        nested(tree),
        n < tree.len(),
    ensures
        places_fault(tree, n) is None,
    decreases n,
{
    if n >= 1 {
        good_places(tree, n - 1);
        assert(tree[n].parent is Some);
    }
}

/// One folder of a saved map.
#[derive(Debug)]
pub struct NodeRow {
    pub id: i64,
    pub parent: Option<i64>,
    pub path: Vec<u8>,
    pub bytes: Vec<u8>,
    pub own_bytes: Vec<u8>,
    pub files: Vec<u8>,
    pub modified: Option<Vec<u8>>,
    pub accessed: Option<Vec<u8>>,
    pub flags: i64,
}

/// What a `NodeRow` holds.
#[verifier::ext_equal]
pub struct NodeRowView {
    pub id: i64,
    pub parent: Option<i64>,
    pub path: Seq<u8>,
    pub bytes: Seq<u8>,
    pub own_bytes: Seq<u8>,
    pub files: Seq<u8>,
    pub modified: Option<Seq<u8>>,
    pub accessed: Option<Seq<u8>>,
    pub flags: i64,
}

/// What optional bytes hold.
pub open spec fn optional_bytes(bytes: Option<Vec<u8>>) -> Option<Seq<u8>> {
    match bytes {
        Some(b) => Some(b@),
        None => None,
    }
}

impl View for NodeRow {
    type V = NodeRowView;

    open spec fn view(&self) -> NodeRowView {
        NodeRowView {
            id: self.id,
            parent: self.parent,
            path: self.path@,
            bytes: self.bytes@,
            own_bytes: self.own_bytes@,
            files: self.files@,
            modified: optional_bytes(self.modified),
            accessed: optional_bytes(self.accessed),
            flags: self.flags,
        }
    }
}

/// The saved bytes of an instant that may be unknown.
pub open spec fn optional_time_bytes(time: Option<Timestamp>) -> Option<Seq<u8>> {
    match time {
        Some(t) => Some(time_bytes(t@)),
        None => None,
    }
}

/// Three marks in one number.
pub open spec fn flags_of(missing_modified: bool, missing_accessed: bool, incomplete: bool) -> i64 {
    ((if missing_modified {
        1int
    } else {
        0
    }) + (if missing_accessed {
        2int
    } else {
        0
    }) + (if incomplete {
        4int
    } else {
        0
    })) as i64
}

/// The row of the folder at `id`.
pub open spec fn node_row(node: NodeView, id: int, windows: bool) -> NodeRowView {
    NodeRowView {
        id: id as i64,
        parent: match node.parent {
            Some(p) => Some(p as i64),
            None => None,
        },
        path: path_bytes(node.path.written, windows),
        bytes: le_bytes(node.bytes as int, 8),
        own_bytes: le_bytes(node.own_bytes as int, 8),
        files: le_bytes(node.files as int, 8),
        modified: optional_time_bytes(node.modified),
        accessed: optional_time_bytes(node.accessed),
        flags: flags_of(node.missing_modified, node.missing_accessed, node.incomplete),
    }
}

/// The rows of a map.
pub open spec fn node_rows(tree: Seq<NodeView>, windows: bool) -> Seq<NodeRowView> {
    Seq::new(tree.len(), |i: int| node_row(tree[i], i, windows))
}

/// What a list of rows holds.
pub open spec fn row_views(rows: Seq<NodeRow>) -> Seq<NodeRowView> {
    Seq::new(rows.len(), |i: int| rows[i]@)
}

fn encode_optional_time(time: Option<Timestamp>) -> (r: Option<Vec<u8>>)
    ensures
        optional_bytes(r) == optional_time_bytes(time),
{
    match time {
        Some(t) => Some(encode_time(t)),
        None => None,
    }
}

fn encode_node(node: &Node, id: usize, windows: bool) -> (r: NodeRow)
    requires
        id <= i64::MAX,
        node@.parent matches Some(p) ==> p <= i64::MAX,
    ensures
        r@ == node_row(node@, id as int, windows),
{
    let modified: i64 = if node.missing_modified {
        1
    } else {
        0
    };
    let accessed: i64 = if node.missing_accessed {
        2
    } else {
        0
    };
    let incomplete: i64 = if node.incomplete {
        4
    } else {
        0
    };
    NodeRow {
        id: id as i64,
        parent: match node.parent {
            Some(p) => Some(p as i64),
            None => None,
        },
        path: encode_path(&node.path, windows),
        bytes: number_bytes(node.bytes),
        own_bytes: number_bytes(node.own_bytes),
        files: number_bytes(node.files),
        modified: encode_optional_time(node.modified),
        accessed: encode_optional_time(node.accessed),
        flags: modified + accessed + incomplete,
    }
}

/// The saved form of what concerns a map as a whole.
#[derive(Debug)]
pub struct SnapshotRow {
    pub root_key: Vec<u8>,
    pub saved_seconds: i64,
    pub saved_nanos: u32,
    pub engine: String,
    pub note: String,
    pub elapsed_seconds: Vec<u8>,
    pub elapsed_nanos: u32,
    pub files: Vec<u8>,
    pub bytes: Vec<u8>,
    pub errors: Vec<u8>,
    pub skipped: Vec<u8>,
    pub records: Vec<u8>,
    pub total_records: Vec<u8>,
    pub node_count: i64,
}

/// What a `SnapshotRow` holds.
#[verifier::ext_equal]
pub struct SnapshotRowView {
    pub root_key: Seq<u8>,
    pub saved_seconds: i64,
    pub saved_nanos: u32,
    pub engine: Seq<char>,
    pub note: Seq<char>,
    pub elapsed_seconds: Seq<u8>,
    pub elapsed_nanos: u32,
    pub files: Seq<u8>,
    pub bytes: Seq<u8>,
    pub errors: Seq<u8>,
    pub skipped: Seq<u8>,
    pub records: Seq<u8>,
    pub total_records: Seq<u8>,
    pub node_count: i64,
}

impl View for SnapshotRow {
    type V = SnapshotRowView;

    open spec fn view(&self) -> SnapshotRowView {
        SnapshotRowView {
            root_key: self.root_key@,
            saved_seconds: self.saved_seconds,
            saved_nanos: self.saved_nanos,
            engine: self.engine@,
            note: self.note@,
            elapsed_seconds: self.elapsed_seconds@,
            elapsed_nanos: self.elapsed_nanos,
            files: self.files@,
            bytes: self.bytes@,
            errors: self.errors@,
            skipped: self.skipped@,
            records: self.records@,
            total_records: self.total_records@,
            node_count: self.node_count,
        }
    }
}

/// All rows of a saved map.
#[derive(Debug)]
pub struct Snapshot {
    pub row: SnapshotRow,
    pub nodes: Vec<NodeRow>,
    pub issues: Vec<String>,
}

/// What a `Snapshot` holds.
#[verifier::ext_equal]
pub struct SnapshotView {
    pub row: SnapshotRowView,
    pub nodes: Seq<NodeRowView>,
    pub issues: Seq<Seq<char>>,
}

impl View for Snapshot {
    type V = SnapshotView;

    open spec fn view(&self) -> SnapshotView {
        SnapshotView {
            row: self.row@,
            nodes: row_views(self.nodes@),
            issues: texts_of(self.issues@),
        }
    }
}

/// What a root's absolute path holds, or why it has none.
pub open spec fn told_root(root: Result<Vec<u16>, String>) -> Result<Seq<u16>, Seq<char>> {
    match root {
        Ok(units) => Ok(units@),
        Err(e) => Err(e@),
    }
}

/// The rows of a report. `root` is the root's absolute path.
pub open spec fn rows_of(
    report: ReportView,
    saved_at: int,
    root: Seq<u16>,
    windows: bool,
) -> SnapshotView {
    let p = report.progress;
    SnapshotView {
        row: SnapshotRowView {
            root_key: key_bytes(root, windows),
            saved_seconds: (saved_at / (NANOS_PER_SECOND as int)) as i64,
            saved_nanos: (saved_at % (NANOS_PER_SECOND as int)) as u32,
            engine: p.engine,
            note: p.note,
            elapsed_seconds: le_bytes(report.elapsed.seconds as int, 8),
            elapsed_nanos: report.elapsed.nanos,
            files: le_bytes(p.files as int, 8),
            bytes: le_bytes(p.bytes as int, 8),
            errors: le_bytes(p.errors as int, 8),
            skipped: le_bytes(p.skipped as int, 8),
            records: le_bytes(p.records as int, 8),
            total_records: le_bytes(p.total_records as int, 8),
            node_count: report.nodes.len() as i64,
        },
        nodes: node_rows(report.nodes, windows),
        issues: report.issues,
    }
}

/// Why a report is not saved.
pub open spec fn refusal(
    report: ReportView,
    saved_at: int,
    root: Result<Seq<u16>, Seq<char>>,
) -> Option<Seq<char>> {
    if report.cancelled || report.scanning {
        Some("중지되었거나 진행 중인 스캔은 저장하지 않습니다."@)
    } else if fault(report.nodes) is Some {
        fault(report.nodes)
    } else if root is Err {
        Some(root->Err_0)
    } else if saved_at < 0 {
        Some("second time provided was later than self"@)
    } else {
        None
    }
}

/// The rows in which a report is saved. Only finished scans without fault are.
/// `root` is the root's absolute path, or why it has none.
pub fn save(
    report: &Report,
    saved_at: Timestamp,
    root: &Result<Vec<u16>, String>,
    windows: bool,
) -> (r: Result<Snapshot, String>)
    requires
        report@.nodes.len() <= i64::MAX,
    ensures
        match r {
            Ok(s) => refusal(report@, saved_at@, told_root(*root)) is None && s@ == rows_of(
                report@,
                saved_at@,
                told_root(*root)->Ok_0,
                windows,
            ),
            Err(e) => refusal(report@, saved_at@, told_root(*root)) == Some(e@),
        },
{
    if report.cancelled || report.scanning {
        return Err("중지되었거나 진행 중인 스캔은 저장하지 않습니다.".to_string());
    }
    validate(&report.nodes)?;
    let root_key: Vec<u8> = match root {
        Ok(units) => key(units, windows),
        Err(e) => {
            return Err(e.clone());
        },
    };
    let at: i128 = saved_at.nanos();
    if at < 0 {
        return Err("second time provided was later than self".to_string());
    }
    let ghost tree = report@.nodes;
    proof {
        maps_without_fault(tree);
    }
    let mut nodes: Vec<NodeRow> = Vec::new();
    let mut i: usize = 0;
    while i < report.nodes.len()
        invariant
            i <= report.nodes@.len(),
            tree == tree_of(report.nodes@),
            tree.len() <= i64::MAX,
            parents_first(tree),
            nodes@.len() == i,
            forall|k: int| 0 <= k < i ==> (#[trigger] nodes@[k])@ == node_row(tree[k], k, windows),
        decreases report.nodes@.len() - i,
    {
        assert(tree[i as int] == report.nodes@[i as int]@);
        nodes.push(encode_node(&report.nodes[i], i, windows));
        i += 1;
    }
    let p = &report.progress;
    let seconds: i128 = at / NANOS_PER_SECOND;
    let nanos: i128 = at % NANOS_PER_SECOND;
    let row = SnapshotRow {
        root_key,
        saved_seconds: seconds as i64,
        saved_nanos: nanos as u32,
        engine: p.engine.to_string(),
        note: p.note.clone(),
        elapsed_seconds: number_bytes(report.elapsed.seconds),
        elapsed_nanos: report.elapsed.nanos,
        files: number_bytes(p.files),
        bytes: number_bytes(p.bytes),
        errors: number_bytes(p.errors),
        skipped: number_bytes(p.skipped),
        records: number_bytes(p.records),
        total_records: number_bytes(p.total_records),
        node_count: report.nodes.len() as i64,
    };
    let r = Snapshot { row, nodes, issues: copy_texts(&report.issues) };
    assert(r@.nodes =~= node_rows(tree, windows));
    Ok(r)
}

} // verus!
