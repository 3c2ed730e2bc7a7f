//! Scans: their progress, their reports, and the walk through folders.
use vstd::prelude::*;
use crate::path::{joined_paths_are_inside, FolderPath, PathView};
use crate::preserve::{child_lists, last_with_path, preserve_failed, preserved, scanned};
use crate::spread::ordered;
use crate::text::{join2, join3};
use crate::time::{later, Duration, Timestamp, NANOS_PER_SECOND};
use crate::tree::{added_up, adding_up_gives_sizes, aggregate, joined, join_folder, joining_keeps_the_nesting, joining_keeps_the_shape, latest, nested, no_children, saturated, shaped, sizes_add_up, totals_do_not_move_folders, tree_of, Node, NodeView};
use crate::whole::{file_sum, own_sum, root_shows_everything, starting_totals_are_direct_files, sums_agree, sums_change_at_one_folder};

verus! {

/// How far a scan has come.
#[derive(Debug)]
pub struct Progress {
    pub engine: &'static str,
    pub note: String,
    pub records: u64,
    pub total_records: u64,
    pub folders: usize,
    pub files: u64,
    pub bytes: u64,
    pub errors: u64,
    pub skipped: u64,
    pub current: FolderPath,
}

/// What a `Progress` holds.
#[verifier::ext_equal]
pub struct ProgressView {
    pub engine: Seq<char>,
    pub note: Seq<char>,
    pub records: u64,
    pub total_records: u64,
    pub folders: usize,
    pub files: u64,
    pub bytes: u64,
    pub errors: u64,
    pub skipped: u64,
    pub current: PathView,
}

impl View for Progress {
    type V = ProgressView;

    open spec fn view(&self) -> ProgressView {
        ProgressView {
            engine: self.engine@,
            note: self.note@,
            records: self.records,
            total_records: self.total_records,
            folders: self.folders,
            files: self.files,
            bytes: self.bytes,
            errors: self.errors,
            skipped: self.skipped,
            current: self.current@,
        }
    }
}

impl ProgressView {
    /// Progress at the start, by a named engine and with a note.
    pub open spec fn starting(engine: Seq<char>, note: Seq<char>) -> ProgressView {
        ProgressView {
            engine,
            note,
            records: 0,
            total_records: 0,
            folders: 0,
            files: 0,
            bytes: 0,
            errors: 0,
            skipped: 0,
            current: PathView::empty(),
        }
    }
}

impl Default for Progress {
    fn default() -> (r: Progress)
        ensures
            r@ == ProgressView::starting(""@, seq![]),
    {
        let r = Progress {
            engine: "",
            note: String::new(),
            records: 0,
            total_records: 0,
            folders: 0,
            files: 0,
            bytes: 0,
            errors: 0,
            skipped: 0,
            current: FolderPath::empty(),
        };
        assert(r@ =~= ProgressView::starting(""@, seq![]));
        r
    }
}

impl Clone for Progress {
    fn clone(&self) -> (r: Progress)
        ensures
            r@ == self@,
    {
        Progress {
            engine: self.engine,
            note: self.note.clone(),
            records: self.records,
            total_records: self.total_records,
            folders: self.folders,
            files: self.files,
            bytes: self.bytes,
            errors: self.errors,
            skipped: self.skipped,
            current: self.current.clone(),
        }
    }
}

/// The result of a scan: a finished one, or a snapshot of one that runs.
#[derive(Debug)]
pub struct Report {
    pub nodes: Vec<Node>,
    pub progress: Progress,
    pub issues: Vec<String>,
    pub cancelled: bool,
    pub scanning: bool,
    pub elapsed: Duration,
}

/// What a `Report` holds.
#[verifier::ext_equal]
pub struct ReportView {
    pub nodes: Seq<NodeView>,
    pub progress: ProgressView,
    pub issues: Seq<Seq<char>>,
    pub cancelled: bool,
    pub scanning: bool,
    pub elapsed: Duration,
}

/// What a list of texts holds.
pub open spec fn texts_of(texts: Seq<String>) -> Seq<Seq<char>> {
    Seq::new(texts.len(), |i: int| texts[i]@)
}

impl View for Report {
    type V = ReportView;

    open spec fn view(&self) -> ReportView {
        ReportView {
            nodes: tree_of(self.nodes@),
            progress: self.progress@,
            issues: texts_of(self.issues@),
            cancelled: self.cancelled,
            scanning: self.scanning,
            elapsed: self.elapsed,
        }
    }
}

impl NodeView {
    /// How long the folder has rested, in whole days; unknown where a date is
    /// missing somewhere below it.
    pub open spec fn age(self, access: bool, now: Timestamp) -> Option<u64> {
        let missing = if access {
            self.missing_accessed
        } else {
            self.missing_modified
        };
        let date = if access {
            self.accessed
        } else {
            self.modified
        };
        match date {
            Some(t) if !missing => Some(
                if now@ > t@ {
                    ((now@ - t@) / (NANOS_PER_SECOND as int) / 86400) as u64
                } else {
                    0
                },
            ),
            _ => None,
        }
    }
}

impl Node {
    /// The folder's name as text.
    pub fn name(&self) -> (r: String)
        ensures
            r@ == self@.path.name(),
    {
        self.path.name()
    }

    /// How long the folder has rested, in whole days. A date in the future
    /// counts as today.
    pub fn age_days(&self, access: bool, now: Timestamp) -> (r: Option<u64>)
        ensures
            r == self@.age(access, now),
    {
        if (access && self.missing_accessed) || (!access && self.missing_modified) {
            return None;
        }
        let date = if access {
            self.accessed
        } else {
            self.modified
        };
        match date {
            None => None,
            Some(date) => {
                let to: i128 = now.nanos();
                let from: i128 = date.nanos();
                if to > from {
                    let rested: i128 = to - from;
                    let seconds: i128 = rested / NANOS_PER_SECOND;
                    Some((seconds / 86400) as u64)
                } else {
                    Some(0)
                }
            },
        }
    }
}

/// The engine that lists folders.
pub const FOLDER_ENGINE: &'static str = "폴더 열거";

/// How many problems are told one by one.
pub const MAX_ISSUES: usize = 100;

/// What a scan tells while it runs.
#[derive(Debug)]
pub enum Event {
    Restart(Progress),
    Progress(Progress),
    Preview(Report),
    Finished(Report),
    Failed(String),
}

/// What listing a folder gives, entry by entry.
#[derive(Debug)]
pub enum Found {
    /// The entry itself could not be read.
    Unreadable(String),
    /// The entry has a name, but nothing else could be read.
    NoMetadata(Vec<u16>, String),
    /// A link, which is not followed.
    Link,
    /// A folder with its name.
    Folder(Vec<u16>),
    /// A file with its size and dates.
    File(u64, Option<Timestamp>, Option<Timestamp>),
    /// Neither file, folder nor link.
    Other,
}

/// What a `Found` holds.
pub enum FoundView {
    Unreadable(Seq<char>),
    NoMetadata(Seq<u16>, Seq<char>),
    Link,
    Folder(Seq<u16>),
    File(u64, Option<Timestamp>, Option<Timestamp>),
    Other,
}

impl View for Found {
    type V = FoundView;

    open spec fn view(&self) -> FoundView {
        match self {
            Found::Unreadable(e) => FoundView::Unreadable(e@),
            Found::NoMetadata(name, e) => FoundView::NoMetadata(name@, e@),
            Found::Link => FoundView::Link,
            Found::Folder(name) => FoundView::Folder(name@),
            Found::File(bytes, modified, accessed) => FoundView::File(*bytes, *modified, *accessed),
            Found::Other => FoundView::Other,
        }
    }
}

/// A scan that runs: the folders found so far, and those before `next` opened.
/// The folder that was opened last is the one that is being listed.
pub struct Scanner {
    nodes: Vec<Node>,
    next: usize,
    progress: Progress,
    issues: Vec<String>,
    failed: Vec<usize>,
    erred: bool,
}

/// What a `Scanner` holds.
#[verifier::ext_equal]
pub struct ScannerView {
    pub nodes: Seq<NodeView>,
    pub next: int,
    pub progress: ProgressView,
    pub issues: Seq<Seq<char>>,
    pub failed: Seq<usize>,
    pub erred: bool,
}

impl View for Scanner {
    type V = ScannerView;

    closed spec fn view(&self) -> ScannerView {
        ScannerView {
            nodes: tree_of(self.nodes@),
            next: self.next as int,
            progress: self.progress@,
            issues: texts_of(self.issues@),
            failed: self.failed@,
            erred: self.erred,
        }
    }
}

impl ScannerView {
    /// Whether the folders form a tree with nested paths and nothing added up yet.
    pub open spec fn valid(self) -> bool {
        &&& scanned(self.nodes)
        &&& nested(self.nodes)
        &&& 0 <= self.next <= self.nodes.len()
        &&& self.progress.folders <= self.next
        &&& self.progress.bytes == saturated(own_sum(self.nodes, self.nodes.len() as int) as int)
        &&& self.progress.files == saturated(file_sum(self.nodes, self.nodes.len() as int) as int)
        &&& forall|k: int|
            0 <= k < self.failed.len() ==> (#[trigger] self.failed[k]) < self.nodes.len()
    }

    /// Whether a folder is being listed.
    pub open spec fn listing(self) -> bool {
        self.valid() && self.next > 0
    }

    /// A scan before its first folder.
    pub open spec fn starting(path: PathView) -> ScannerView {
        ScannerView {
            nodes: seq![NodeView::fresh(path, None)],
            next: 0,
            progress: ProgressView::starting(FOLDER_ENGINE@, seq![]),
            issues: seq![],
            failed: seq![],
            erred: false,
        }
    }

    /// The folder that is being listed.
    pub open spec fn here(self) -> NodeView {
        self.nodes[self.next - 1]
    }

    /// The scan with another state of the folder that is being listed.
    pub open spec fn with_here(self, node: NodeView) -> ScannerView {
        ScannerView { nodes: self.nodes.update(self.next - 1, node), ..self }
    }

    /// The scan after its next folder was opened.
    pub open spec fn opened(self) -> ScannerView {
        ScannerView {
            next: self.next + 1,
            erred: false,
            progress: ProgressView {
                current: self.nodes[self.next].path,
                folders: (self.progress.folders + 1) as usize,
                ..self.progress
            },
            ..self
        }
    }

    /// The scan after a problem with the folder that is being listed.
    pub open spec fn troubled(self, error: Seq<char>) -> ScannerView {
        let marked = self.with_here(NodeView { incomplete: true, ..self.here() });
        ScannerView {
            progress: ProgressView {
                errors: saturated(self.progress.errors + 1),
                ..self.progress
            },
            issues: if self.issues.len() < MAX_ISSUES {
                self.issues.push(self.here().path.text() + ": "@ + error)
            } else {
                self.issues
            },
            erred: true,
            ..marked
        }
    }

    /// The scan after a link was passed over.
    pub open spec fn skipping(self) -> ScannerView {
        let marked = self.with_here(NodeView { incomplete: true, ..self.here() });
        ScannerView {
            progress: ProgressView {
                skipped: saturated(self.progress.skipped + 1),
                ..self.progress
            },
            ..marked
        }
    }

    /// The scan after the folder's own metadata came: whether it is a link, and its date.
    pub open spec fn described(self, link: bool, modified: Option<Timestamp>) -> ScannerView {
        if link {
            self.skipping()
        } else {
            self.with_here(
                NodeView { modified, missing_modified: modified is None, ..self.here() },
            )
        }
    }

    /// The scan after one more entry of the folder that is being listed.
    pub open spec fn with_entry(self, found: FoundView) -> ScannerView {
        match found {
            FoundView::Unreadable(error) => self.troubled(error),
            FoundView::NoMetadata(name, error) => self.troubled(
                self.here().path.join(name).text() + ": "@ + error,
            ),
            FoundView::Link => self.skipping(),
            FoundView::Folder(name) => ScannerView {
                nodes: joined(
                    self.nodes,
                    NodeView::fresh(self.here().path.join(name), Some((self.next - 1) as usize)),
                ),
                ..self
            },
            FoundView::File(bytes, modified, accessed) => ScannerView {
                progress: ProgressView {
                    files: saturated(self.progress.files + 1),
                    bytes: saturated(self.progress.bytes + bytes),
                    ..self.progress
                },
                ..self.with_here(with_file(self.here(), bytes, modified, accessed))
            },
            FoundView::Other => self,
        }
    }

    /// The scan after the last entry: a folder with a problem is to fall back on an earlier map.
    pub open spec fn closed(self) -> ScannerView {
        if self.erred {
            ScannerView { failed: self.failed.push((self.next - 1) as usize), ..self }
        } else {
            self
        }
    }

    /// The progress of the finished report.
    pub open spec fn final_progress(self, tree: Seq<NodeView>, refreshed: bool) -> ProgressView {
        if refreshed {
            ProgressView {
                bytes: tree[0].bytes,
                files: tree[0].files,
                folders: tree.len() as usize,
                ..self.progress
            }
        } else {
            self.progress
        }
    }
}

/// A folder with one more file directly inside it.
pub open spec fn with_file(
    node: NodeView,
    bytes: u64,
    modified: Option<Timestamp>,
    accessed: Option<Timestamp>,
) -> NodeView {
    NodeView {
        own_bytes: saturated(node.own_bytes + bytes),
        files: saturated(node.files + 1),
        modified: later(node.modified, modified),
        accessed: later(node.accessed, accessed),
        missing_modified: node.missing_modified || modified is None,
        missing_accessed: node.missing_accessed || accessed is None,
        ..node
    }
}

/// Changing what is known of one folder keeps a scan valid.
proof fn describing_keeps_validity(before: ScannerView, after: ScannerView)
    requires
        before.valid(),
        after.next == before.next,
        after.failed == before.failed,
        after.progress.folders == before.progress.folders,
        after.progress.bytes == saturated(own_sum(after.nodes, after.nodes.len() as int) as int),
        after.progress.files == saturated(file_sum(after.nodes, after.nodes.len() as int) as int),
        after.nodes.len() == before.nodes.len(),
        forall|i: int|
            0 <= i < before.nodes.len() ==> (#[trigger] after.nodes[i]).parent
                == before.nodes[i].parent && after.nodes[i].children == before.nodes[i].children
                && after.nodes[i].path == before.nodes[i].path && after.nodes[i].bytes == 0,
    ensures
        after.valid(),
{
    totals_do_not_move_folders(before.nodes, after.nodes);
}

impl Node {
    /// Counts a file that lies directly in the folder.
    pub fn count_file(
        &mut self,
        bytes: u64,
        modified: Option<Timestamp>,
        accessed: Option<Timestamp>,
    )
        ensures
            final(self)@ == with_file(old(self)@, bytes, modified, accessed),
    {
        self.own_bytes = self.own_bytes.saturating_add(bytes);
        self.files = self.files.saturating_add(1);
        self.modified = latest(self.modified, modified);
        self.accessed = latest(self.accessed, accessed);
        self.missing_modified = self.missing_modified || modified.is_none();
        self.missing_accessed = self.missing_accessed || accessed.is_none();
    }
}

/// Copies of folders.
pub fn copy_nodes(nodes: &Vec<Node>) -> (r: Vec<Node>)
    ensures
        tree_of(r@) == tree_of(nodes@),
{
    let mut r: Vec<Node> = Vec::new();
    let mut i: usize = 0;
    while i < nodes.len()
        invariant
            i <= nodes@.len(),
            r@.len() == i,
            forall|k: int| 0 <= k < i ==> (#[trigger] r@[k])@ == nodes@[k]@,
        decreases nodes@.len() - i,
    {
        r.push(nodes[i].clone());
        i += 1;
    }
    assert(tree_of(r@) =~= tree_of(nodes@));
    r
}

/// Copies of texts.
pub fn copy_texts(texts: &Vec<String>) -> (r: Vec<String>)
    ensures
        texts_of(r@) == texts_of(texts@),
{
    let mut r: Vec<String> = Vec::new();
    let mut i: usize = 0;
    while i < texts.len()
        invariant
            i <= texts@.len(),
            r@.len() == i,
            forall|k: int| 0 <= k < i ==> (#[trigger] r@[k])@ == texts@[k]@,
        decreases texts@.len() - i,
    {
        r.push(texts[i].clone());
        i += 1;
    }
    assert(texts_of(r@) =~= texts_of(texts@));
    r
}

impl Clone for Report {
    fn clone(&self) -> (r: Report)
        ensures
            r@ == self@,
    {
        Report {
            nodes: copy_nodes(&self.nodes),
            progress: self.progress.clone(),
            issues: copy_texts(&self.issues),
            cancelled: self.cancelled,
            scanning: self.scanning,
            elapsed: self.elapsed,
        }
    }
}

proof fn sum_has_each(tree: Seq<NodeView>, at: int, n: int)
    requires
        0 <= at < n <= tree.len(),
    ensures
        own_sum(tree, n) >= tree[at].own_bytes,
        file_sum(tree, n) >= tree[at].files,
    decreases n,
{
    if at < n - 1 {
        sum_has_each(tree, at, n - 1);
    }
}

/// Whether a path may be scanned: its metadata can be read, and it is a folder and no link.
pub fn check_root(metadata: Result<(bool, bool), String>) -> (r: Result<(), String>)
    ensures
        match metadata {
            Err(e) => r is Err && r->Err_0@ == "경로를 읽을 수 없습니다: "@ + e@,
            Ok((folder, link)) => if folder && !link {
                r is Ok
            } else {
                r is Err && r->Err_0@
                    == "일반 디렉터리 또는 드라이브 루트를 선택하세요 (링크 제외)."@
            },
        },
{
    match metadata {
        Err(e) => Err(join2("경로를 읽을 수 없습니다: ", e.as_str())),
        Ok((folder, link)) => if folder && !link {
            Ok(())
        } else {
            Err("일반 디렉터리 또는 드라이브 루트를 선택하세요 (링크 제외).".to_string())
        },
    }
}

impl Scanner {
    /// A scan before its first folder.
    pub fn new(path: FolderPath) -> (r: Scanner)
        ensures
            r@ == ScannerView::starting(path@),
            r@.valid(),
    {
        let mut nodes: Vec<Node> = Vec::new();
        nodes.push(Node::new(path, None));
        let r = Scanner {
            nodes,
            next: 0,
            progress: Progress { engine: FOLDER_ENGINE, ..Default::default() },
            issues: Vec::new(),
            failed: Vec::new(),
            erred: false,
        };
        proof {
            assert(r@.nodes =~= seq![NodeView::fresh(path@, None)]);
            assert(r@ =~= ScannerView::starting(path@));
            no_children(r@.nodes, 0, 1);
            assert(own_sum(r@.nodes, 0) == 0 && file_sum(r@.nodes, 0) == 0);
            assert(own_sum(r@.nodes, 1) == 0 && file_sum(r@.nodes, 1) == 0);
        }
        r
    }

    /// Whether a folder is left to be opened.
    pub fn has_next(&self) -> (r: bool)
        requires
            self@.valid(),
        ensures
            r == (self@.next < self@.nodes.len()),
    {
        assert(self@.nodes.len() == self.nodes@.len());
        self.next < self.nodes.len()
    }

    /// Opens the next folder and tells its path; `None` when all have been
    /// opened. Folders are opened in the order in which they were found, so top
    /// levels come before deeper ones.
    pub fn next_folder(&mut self) -> (r: Option<FolderPath>)
        requires
            old(self)@.valid(),
        ensures
            final(self)@.valid(),
            match r {
                Some(path) => old(self)@.next < old(self)@.nodes.len() && path@
                    == old(self)@.nodes[old(self)@.next].path && final(self)@ == old(
                    self,
                )@.opened(),
                None => old(self)@.next == old(self)@.nodes.len() && final(self)@ == old(self)@,
            },
    {
        assert(self@.nodes.len() == self.nodes@.len());
        if self.next >= self.nodes.len() {
            return None;
        }
        let path = self.nodes[self.next].path.clone();
        let ghost before = self@;
        assert(self@.nodes[self@.next] == self.nodes@[self.next as int]@);
        self.next = self.next + 1;
        self.progress.current = path.clone();
        self.progress.folders = self.progress.folders + 1;
        self.erred = false;
        assert(self@.nodes == before.nodes && self@.failed == before.failed);
        Some(path)
    }

    /// Takes in the metadata of the folder that was opened, and says whether it is
    /// to be listed: a link is not.
    pub fn describe(&mut self, link: bool, modified: Option<Timestamp>) -> (r: bool)
        requires
            old(self)@.listing(),
        ensures
            final(self)@.listing(),
            final(self)@ == old(self)@.described(link, modified),
            r == !link,
    {
        let ghost before = self@;
        let id: usize = self.next - 1;
        assert(before.nodes[id as int] == self.nodes@[id as int]@);
        if link {
            self.nodes[id].incomplete = true;
            self.progress.skipped = self.progress.skipped.saturating_add(1);
        } else {
            self.nodes[id].modified = modified;
            self.nodes[id].missing_modified = modified.is_none();
        }
        assert(self@.nodes =~= before.described(link, modified).nodes);
        assert(self@ =~= before.described(link, modified));
        proof {
            sums_agree(before.nodes, self@.nodes, before.nodes.len() as int);
            describing_keeps_validity(before, self@);
        }
        !link
    }

    /// Notes a problem with the folder that is being listed.
    fn record_error(&mut self, error: &str)
        requires
            old(self)@.listing(),
        ensures
            final(self)@.listing(),
            final(self)@ == old(self)@.troubled(error@),
    {
        let ghost before = self@;
        let id: usize = self.next - 1;
        assert(before.nodes[id as int] == self.nodes@[id as int]@);
        self.nodes[id].incomplete = true;
        self.erred = true;
        self.progress.errors = self.progress.errors.saturating_add(1);
        if self.issues.len() < MAX_ISSUES {
            self.issues.push(join3(self.nodes[id].path.text().as_str(), ": ", error));
        }
        assert(self@.nodes =~= before.troubled(error@).nodes);
        assert(self@.issues =~= before.troubled(error@).issues);
        assert(self@ =~= before.troubled(error@));
        proof {
            sums_agree(before.nodes, self@.nodes, before.nodes.len() as int);
            describing_keeps_validity(before, self@);
        }
    }

    /// Takes in a folder inside the one that is being listed.
    fn add_folder(&mut self, name: &Vec<u16>)
        requires
            old(self)@.listing(),
        ensures
            final(self)@.listing(),
            final(self)@ == old(self)@.with_entry(FoundView::Folder(name@)),
    {
        let ghost before = self@;
        let id: usize = self.next - 1;
        assert(before.nodes[id as int] == self.nodes@[id as int]@);
        let path = self.nodes[id].path.join(name);
        let node = Node::new(path, Some(id));
        let ghost fresh = node@;
        join_folder(&mut self.nodes, node);
        proof {
            assert(self.nodes.len() == self@.nodes.len());
            joined_paths_are_inside(before.here().path, name@);
            joining_keeps_the_shape(before.nodes, fresh);
            joining_keeps_the_nesting(before.nodes, fresh);
            assert forall|i: int| 0 <= i < self@.nodes.len() implies (
            #[trigger] self@.nodes[i]).bytes == 0 by {
                if i < before.nodes.len() {
                    assert(before.nodes[i].bytes == 0);
                }
            }
            assert(self@ =~= before.with_entry(FoundView::Folder(name@)));
            sums_agree(before.nodes, self@.nodes, before.nodes.len() as int);
        }
    }

    /// Takes in a file inside the folder that is being listed.
    fn add_file(&mut self, bytes: u64, modified: Option<Timestamp>, accessed: Option<Timestamp>)
        requires
            old(self)@.listing(),
        ensures
            final(self)@.listing(),
            final(self)@ == old(self)@.with_entry(FoundView::File(bytes, modified, accessed)),
    {
        let ghost before = self@;
        let ghost found = FoundView::File(bytes, modified, accessed);
        let id: usize = self.next - 1;
        assert(before.nodes[id as int] == self.nodes@[id as int]@);
        self.nodes[id].count_file(bytes, modified, accessed);
        self.progress.files = self.progress.files.saturating_add(1);
        self.progress.bytes = self.progress.bytes.saturating_add(bytes);
        assert(self@.nodes =~= before.with_entry(found).nodes);
        assert(self@ =~= before.with_entry(found));
        proof {
            let n = before.nodes.len() as int;
            sums_change_at_one_folder(before.nodes, self@.nodes, id as int, n);
            sum_has_each(before.nodes, id as int, n);
            sum_has_each(self@.nodes, id as int, n);
            describing_keeps_validity(before, self@);
        }
    }

    /// Takes in one entry of the folder that is being listed.
    pub fn entry(&mut self, found: Found)
        requires
            old(self)@.listing(),
        ensures
            final(self)@.listing(),
            final(self)@ == old(self)@.with_entry(found@),
    {
        match found {
            Found::Unreadable(error) => self.record_error(error.as_str()),
            Found::NoMetadata(name, error) => {
                let id: usize = self.next - 1;
                assert(self@.nodes[id as int] == self.nodes@[id as int]@);
                let path = self.nodes[id].path.join(&name);
                let text = join3(path.text().as_str(), ": ", error.as_str());
                self.record_error(text.as_str());
            },
            Found::Link => {
                self.describe(true, None);
            },
            Found::Folder(name) => self.add_folder(&name),
            Found::File(bytes, modified, accessed) => self.add_file(bytes, modified, accessed),
            Found::Other => {},
        }
    }

    /// Ends the listing of the folder that was opened last.
    pub fn close(&mut self)
        requires
            old(self)@.listing(),
        ensures
            final(self)@.listing(),
            final(self)@ == old(self)@.closed(),
    {
        let ghost before = self@;
        if self.erred {
            let id: usize = self.next - 1;
            self.failed.push(id);
            assert forall|k: int| 0 <= k < self@.failed.len() implies (#[trigger] self@.failed[k])
                < self@.nodes.len() by {
                if k < before.failed.len() {
                    assert(self@.failed[k] == before.failed[k]);
                }
            }
        }
    }

    /// How far the scan has come.
    pub fn progress(&self) -> (r: &Progress)
        ensures
            r@ == self@.progress,
    {
        &self.progress
    }

    /// The map as far as it is known, for showing while the scan runs.
    pub fn snapshot(&self, elapsed: Duration) -> (r: Report)
        requires
            self@.valid(),
        ensures
            added_up(self@.nodes, r@.nodes, true),
            shaped(r@.nodes),
            r@.progress == self@.progress,
            r@.progress.bytes == r@.nodes[0].bytes,
            r@.progress.files == r@.nodes[0].files,
            r@.issues == self@.issues,
            !r.cancelled,
            r.scanning,
            r.elapsed == elapsed,
    {
        let mut nodes = copy_nodes(&self.nodes);
        aggregate(&mut nodes, true);
        proof {
            let tree = tree_of(nodes@);
            assert forall|i: int| 0 <= i < self@.nodes.len() implies (#[trigger] tree[i]).parent
                == self@.nodes[i].parent && tree[i].children == self@.nodes[i].children
                && tree[i].path == self@.nodes[i].path by {}
            totals_do_not_move_folders(self@.nodes, tree);
            root_shows_everything(self@.nodes, tree, true);
            starting_totals_are_direct_files(self@.nodes, true, self@.nodes.len() as int);
        }
        Report {
            nodes,
            progress: self.progress.clone(),
            issues: copy_texts(&self.issues),
            cancelled: false,
            scanning: true,
            elapsed,
        }
    }

    /// The finished map. Where an earlier map is given, folders that could not
    /// be read keep what it knew of them.
    pub fn finish(self, base: Option<&Report>, cancelled: bool, elapsed: Duration) -> (r: Report)
        requires
            self@.valid(),
            base matches Some(b) ==> ordered(child_lists(b@.nodes)),
        ensures
            match base {
                None => added_up(self@.nodes, r@.nodes, cancelled),
                Some(b) => added_up(
                    preserved(self@.nodes, self@.failed, b@.nodes, self@.failed.len() as int),
                    r@.nodes,
                    cancelled,
                ),
            },
            shaped(r@.nodes),
            sizes_add_up(r@.nodes),
            (base matches Some(b) ==> shaped(b@.nodes) && nested(b@.nodes)) ==> nested(r@.nodes),
            forall|i: int|
                0 <= i < self@.nodes.len() && (base is None || !self@.failed.contains(i as usize))
                    ==> (#[trigger] r@.nodes[i]).own_bytes == self@.nodes[i].own_bytes,
            base matches Some(b) ==> forall|k: int|
                0 <= k < self@.failed.len() ==> (last_with_path(
                    b@.nodes,
                    self@.nodes[(#[trigger] self@.failed[k]) as int].path,
                    b@.nodes.len() as int,
                ) matches Some(previous) ==> r@.nodes[self@.failed[k] as int].own_bytes
                    == b@.nodes[previous].own_bytes && r@.nodes[self@.failed[k] as int].incomplete),
            r@.progress == self@.final_progress(r@.nodes, base is Some),
            r@.progress.bytes == r@.nodes[0].bytes,
            r@.progress.files == r@.nodes[0].files,
            r@.issues == self@.issues,
            r.cancelled == cancelled,
            !r.scanning,
            r.elapsed == elapsed,
    {
        let mut nodes = self.nodes;
        let mut progress = self.progress;
        let failed = self.failed;
        assert forall|k: int| 0 <= k < failed@.len() implies (#[trigger] failed@[k])
            < nodes@.len() by {
            assert(failed@[k] == self@.failed[k]);
            assert(self@.nodes.len() == nodes@.len());
        }
        if let Some(b) = base {
            preserve_failed(&mut nodes, &failed, &b.nodes);
        }
        let ghost raw = tree_of(nodes@);
        aggregate(&mut nodes, cancelled);
        proof {
            let tree = tree_of(nodes@);
            assert forall|i: int| 0 <= i < raw.len() implies (#[trigger] tree[i]).parent
                == raw[i].parent && tree[i].children == raw[i].children && tree[i].path
                == raw[i].path by {}
            totals_do_not_move_folders(raw, tree);
            adding_up_gives_sizes(raw, tree, cancelled);
            root_shows_everything(raw, tree, cancelled);
            starting_totals_are_direct_files(raw, cancelled, raw.len() as int);
            assert forall|i: int|
                0 <= i < self@.nodes.len() && (base is None || !self@.failed.contains(
                    i as usize,
                )) implies (#[trigger] tree[i]).own_bytes == self@.nodes[i].own_bytes by {
                assert(tree[i].own_bytes == raw[i].own_bytes);
            }
            if let Some(b) = base {
                assert forall|k: int| 0 <= k < self@.failed.len() implies (last_with_path(
                    b@.nodes,
                    self@.nodes[(#[trigger] self@.failed[k]) as int].path,
                    b@.nodes.len() as int,
                ) matches Some(previous) ==> tree[self@.failed[k] as int].own_bytes
                    == b@.nodes[previous].own_bytes && tree[self@.failed[k] as int].incomplete) by {
                    let at = failed@[k] as int;
                    assert(raw[at].own_bytes == tree[at].own_bytes);
                    assert(raw[at].incomplete ==> tree[at].incomplete);
                }
            }
        }
        if base.is_some() {
            assert(tree_of(nodes@)[0] == nodes@[0]@);
            progress.bytes = nodes[0].bytes;
            progress.files = nodes[0].files;
            progress.folders = nodes.len();
        }
        Report { nodes, progress, issues: self.issues, cancelled, scanning: false, elapsed }
    }
}

} // verus!
