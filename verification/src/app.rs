//! What the window shows, and what it asks of the disk and of the saved maps.
use std::sync::Arc;
use vstd::prelude::*;
use crate::cache;
use crate::cache::restore::CachedView;
use crate::cache::snapshot::{Cached, Request};
use crate::i18n::Language;
use crate::labels::{date_label, has_date, shows, unknown_time};
use crate::path::{FolderPath, PathView};
use crate::rank::{rank, ranked};
use crate::scan;
use crate::scan::{texts_of, Progress, ProgressView, Report, ReportView};
use crate::subtree;
use crate::text::{contains, contains_text, is_empty, join2, join3, same_text, trim, trimmed};
use crate::time::{Timestamp, NANOS_PER_SECOND};
use crate::tree::{saturated, tree_of, Node, NodeView};

verus! {

/// The text with every letter in lower case.
pub uninterp spec fn lowercase(text: Seq<char>) -> Seq<char>;

/// `str::to_lowercase` gives the lower case of a text, which depends on the text alone.
pub assume_specification[ str::to_lowercase ](text: &str) -> (r: String)
    ensures
        r@ == lowercase(text@),
;

/// How many candidates are listed.
pub const MAX_CANDIDATES: usize = 200;

/// Bytes in a mebibyte.
pub const MEBIBYTE: u64 = 1_048_576;

/// The state of the window. `scanning` and `refreshing` say whether such work
/// runs, `cache` whether maps can be saved and opened.
pub struct DiskApp {
    pub language: Language,
    pub path: String,
    pub drives: Vec<String>,
    pub scanning: bool,
    pub refreshing: bool,
    pub progress: Progress,
    pub report: Option<Arc<Report>>,
    pub cache: bool,
    pub cache_generation: u64,
    pub cache_loading: bool,
    pub cache_saves: usize,
    pub cache_status: String,
    pub cached_at: Option<Timestamp>,
    pub closing: bool,
    pub error: Option<String>,
    pub focus: usize,
    pub selected_path: Option<FolderPath>,
    pub access: bool,
    pub days: u64,
    pub min_mb: u64,
    pub depth: usize,
    pub query: String,
    pub candidates: Vec<usize>,
    pub candidate_count: usize,
    pub children: Vec<usize>,
    pub now: Timestamp,
}

/// What a `DiskApp` holds.
#[verifier::ext_equal]
pub struct AppView {
    pub language: Language,
    pub path: Seq<char>,
    pub drives: Seq<Seq<char>>,
    pub scanning: bool,
    pub refreshing: bool,
    pub progress: ProgressView,
    pub report: Option<ReportView>,
    pub cache: bool,
    pub cache_generation: u64,
    pub cache_loading: bool,
    pub cache_saves: usize,
    pub cache_status: Seq<char>,
    pub cached_at: Option<Timestamp>,
    pub closing: bool,
    pub error: Option<Seq<char>>,
    pub focus: usize,
    pub selected_path: Option<PathView>,
    pub access: bool,
    pub days: u64,
    pub min_mb: u64,
    pub depth: usize,
    pub query: Seq<char>,
    pub candidates: Seq<usize>,
    pub candidate_count: usize,
    pub children: Seq<usize>,
    pub now: Timestamp,
}

/// What an optional text holds.
pub open spec fn optional_text(text: Option<String>) -> Option<Seq<char>> {
    match text {
        Some(s) => Some(s@),
        None => None,
    }
}

/// What an optional path holds.
pub open spec fn optional_path(path: Option<FolderPath>) -> Option<PathView> {
    match path {
        Some(p) => Some(p@),
        None => None,
    }
}

/// What an optional shared report holds.
pub open spec fn shared_report(report: Option<Arc<Report>>) -> Option<ReportView> {
    match report {
        Some(r) => Some(r@),
        None => None,
    }
}

impl View for DiskApp {
    type V = AppView;

    open spec fn view(&self) -> AppView {
        AppView {
            language: self.language,
            path: self.path@,
            drives: texts_of(self.drives@),
            scanning: self.scanning,
            refreshing: self.refreshing,
            progress: self.progress@,
            report: shared_report(self.report),
            cache: self.cache,
            cache_generation: self.cache_generation,
            cache_loading: self.cache_loading,
            cache_saves: self.cache_saves,
            cache_status: self.cache_status@,
            cached_at: self.cached_at,
            closing: self.closing,
            error: optional_text(self.error),
            focus: self.focus,
            selected_path: optional_path(self.selected_path),
            access: self.access,
            days: self.days,
            min_mb: self.min_mb,
            depth: self.depth,
            query: self.query@,
            candidates: self.candidates@,
            candidate_count: self.candidate_count,
            children: self.children@,
            now: self.now,
        }
    }
}

/// Whether a map can be shown: it has a root, and every listed child exists.
pub open spec fn showable(tree: Seq<NodeView>) -> bool {
    &&& 0 < tree.len() <= usize::MAX
    &&& forall|i: int, k: int|
        0 <= i < tree.len() && 0 <= k < tree[i].children.len() ==> (#[trigger] tree[i].children[k])
            < tree.len()
}

/// The first folder, from `from` on, with a path.
pub open spec fn position_from(tree: Seq<NodeView>, path: PathView, from: int) -> Option<int>
    decreases tree.len() - from,
{
    if from >= tree.len() {
        None
    } else if tree[from].path.same(path) {
        Some(from)
    } else {
        position_from(tree, path, from + 1)
    }
}

/// The folder with a path, or the nearest one around it that the map has.
pub open spec fn nearest(tree: Seq<NodeView>, path: PathView) -> Option<int>
    decreases path.names.len(),
{
    match position_from(tree, path, 0) {
        Some(i) => Some(i),
        None => if path.names.len() == 0 {
            None
        } else {
            nearest(tree, path.up())
        },
    }
}

/// Whether a folder is large and old enough to be a candidate, and fully known.
pub open spec fn is_large_and_old(app: AppView, node: NodeView) -> bool {
    &&& !node.incomplete
    &&& node.bytes >= saturated(app.min_mb * MEBIBYTE)
    &&& node.age(app.access, app.now) matches Some(d) && d >= app.days
}

/// Whether a path has the searched text in it, both in lower case.
pub open spec fn is_searched(path: Seq<char>, query: Seq<char>) -> bool {
    query.len() == 0 || contains_text(path, query)
}

/// Whether a folder is large and old enough to be a candidate, is fully known,
/// and has the searched text in its path.
pub open spec fn is_candidate(app: AppView, node: NodeView) -> bool {
    is_large_and_old(app, node) && is_searched(lowercase(node.path.text()), lowercase(app.query))
}

/// The candidates among the first `n` folders, from their paths and the searched
/// text in lower case.
pub open spec fn candidates_among(
    app: AppView,
    tree: Seq<NodeView>,
    paths: Seq<Seq<char>>,
    query: Seq<char>,
    n: int,
) -> Seq<usize>
    decreases n,
{
    if n <= 0 {
        seq![]
    } else if is_large_and_old(app, tree[n - 1]) && is_searched(paths[n - 1], query) {
        candidates_among(app, tree, paths, query, n - 1).push((n - 1) as usize)
    } else {
        candidates_among(app, tree, paths, query, n - 1)
    }
}

/// The candidates among the first `n` folders.
pub open spec fn candidate_ids(app: AppView, tree: Seq<NodeView>, n: int) -> Seq<usize>
    decreases n,
{
    if n <= 0 {
        seq![]
    } else if is_candidate(app, tree[n - 1]) {
        candidate_ids(app, tree, n - 1).push((n - 1) as usize)
    } else {
        candidate_ids(app, tree, n - 1)
    }
}

/// The paths of folders that are no candidates anyway do not matter, nor does any
/// path where nothing is searched.
pub proof fn candidates_need_no_other_paths(
    app: AppView,
    tree: Seq<NodeView>,
    paths: Seq<Seq<char>>,
    query: Seq<char>,
    n: int,
)
    requires
        query == lowercase(app.query),
        forall|k: int|
            0 <= k < n ==> query.len() == 0 || !is_large_and_old(app, tree[k]) || (
            #[trigger] paths[k]) == lowercase(tree[k].path.text()),
    ensures
        candidates_among(app, tree, paths, query, n) == candidate_ids(app, tree, n),
    decreases n,
{
    if n > 0 {
        candidates_need_no_other_paths(app, tree, paths, query, n - 1);
        assert(query.len() == 0 || !is_large_and_old(app, tree[n - 1]) || paths[n - 1] == lowercase(
            tree[n - 1].path.text(),
        ));
    }
}

impl AppView {
    /// Whether what is shown fits the map.
    pub open spec fn valid(self) -> bool {
        self.report matches Some(r) ==> showable(r.nodes) && self.focus < r.nodes.len()
    }

    /// Whether work runs.
    pub open spec fn busy(self) -> bool {
        self.scanning || self.refreshing
    }

    /// The window with an error message.
    pub open spec fn with_error(self, message: Seq<char>) -> AppView {
        AppView { error: Some(message), ..self }
    }

    /// The window with a message on saved maps.
    pub open spec fn with_status(self, message: Seq<char>) -> AppView {
        AppView { cache_status: message, ..self }
    }

    /// The window without a map.
    pub open spec fn cleared(self) -> AppView {
        AppView {
            report: None,
            focus: 0,
            selected_path: None,
            children: seq![],
            candidates: seq![],
            candidate_count: 0,
            ..self
        }
    }

    /// The window after another folder was opened.
    pub open spec fn navigated(self, id: usize) -> AppView {
        AppView {
            focus: id,
            selected_path: None,
            children: match self.report {
                Some(r) => ranked(r.nodes, r.nodes[id as int].children),
                None => self.children,
            },
            ..self
        }
    }

    /// The window with another map: the open folder, or the nearest one around
    /// it, stays open, and the selection stays where its path still exists.
    pub open spec fn with_report(self, report: ReportView) -> AppView {
        let focus = match self.report {
            None => 0,
            Some(r) => match nearest(report.nodes, r.nodes[self.focus as int].path) {
                Some(i) => i,
                None => 0,
            },
        };
        let shown = AppView { report: Some(report), ..self }.navigated(focus as usize);
        AppView {
            selected_path: match self.selected_path {
                Some(p) if position_from(report.nodes, p, 0) is Some => Some(p),
                _ => None,
            },
            ..shown
        }
    }

    /// The window with its candidates found anew. A preview offers none.
    pub open spec fn with_candidates(self) -> AppView {
        match self.report {
            Some(r) if !r.scanning => self.listing(
                ranked(r.nodes, candidate_ids(self, r.nodes, r.nodes.len() as int)),
            ),
            _ => self.listing(seq![]),
        }
    }

    /// The window with its candidates found anew, from the folders' paths and the
    /// searched text in lower case.
    pub open spec fn with_candidates_among(self, paths: Seq<Seq<char>>, query: Seq<char>) -> AppView {
        match self.report {
            Some(r) if !r.scanning => self.listing(
                ranked(
                    r.nodes,
                    candidates_among(self, r.nodes, paths, query, r.nodes.len() as int),
                ),
            ),
            _ => self.listing(seq![]),
        }
    }

    /// The window with these candidates, of which the first are listed.
    pub open spec fn listing(self, all: Seq<usize>) -> AppView {
        AppView {
            candidates: if all.len() > MAX_CANDIDATES {
                all.take(MAX_CANDIDATES as int)
            } else {
                all
            },
            candidate_count: all.len() as usize,
            ..self
        }
    }

    /// Whether the shown map is to be saved.
    pub open spec fn saves(self) -> bool {
        self.cache && (self.report matches Some(r) && !r.cancelled && !r.scanning)
    }

    /// The window when the shown map might be saved: one that was stopped is not.
    pub open spec fn before_saving(self) -> AppView {
        match self.report {
            Some(r) if self.cache && (r.cancelled || r.scanning) => self.with_status(
                "중지된 결과는 저장하지 않습니다. 이전 저장 결과가 유지됩니다."@,
            ),
            _ => self,
        }
    }

    /// The window after a refresh of the folder at `target` began.
    pub open spec fn refresh_begun(self, target: int) -> AppView {
        AppView {
            cache_generation: saturated(self.cache_generation + 1),
            cache_loading: false,
            cache_status: "재스캔 중: "@ + self.report->0.nodes[target].path.text()
                + " · 완료 전까지 기존 지도를 유지합니다."@,
            error: None,
            refreshing: true,
            ..self
        }
    }

    /// The window after a saved map was asked for.
    pub open spec fn map_asked(self) -> AppView {
        AppView { cache_generation: saturated(self.cache_generation + 1), ..self }
    }

    /// How many wishes to save are waited for after one more.
    pub open spec fn one_more_save(self) -> usize {
        if self.cache_saves < usize::MAX {
            (self.cache_saves + 1) as usize
        } else {
            usize::MAX
        }
    }

    /// Whether a wish to close must wait, and whether the window closes now.
    pub open spec fn close_wish(self, requested: bool) -> (bool, bool) {
        let waits = requested && self.cache_saves > 0;
        (waits, (self.closing || waits) && self.cache_saves == 0)
    }

    /// The window after a scan of another path began.
    pub open spec fn scan_begun(self) -> AppView {
        let cleared = self.cleared();
        AppView {
            cache_generation: saturated(self.cache_generation + 1),
            cache_loading: false,
            cached_at: None,
            cache_status: if self.cache {
                "스캔 완료 후 결과를 자동 저장합니다."@
            } else {
                self.cache_status
            },
            scanning: true,
            progress: ProgressView::starting(""@, seq![]),
            error: None,
            ..cleared
        }
    }

    /// The window after a finished map of a scan came.
    pub open spec fn scan_finished(self, report: ReportView, now: Timestamp) -> AppView {
        let shown = AppView { progress: report.progress, ..self }.with_report(report);
        AppView { scanning: false, now, ..shown }.navigated(shown.focus).with_candidates()
    }

    /// The window after a refreshed map came.
    pub open spec fn refresh_finished(self, report: ReportView, now: Timestamp) -> AppView {
        let shown = AppView { refreshing: false, progress: report.progress, ..self }.with_report(
            report,
        );
        AppView { cached_at: None, now, ..shown }.with_candidates().with_status(
            "현재 폴더 재스캔 결과를 반영했습니다."@,
        )
    }

    /// The window after a refresh failed: the old map stays.
    pub open spec fn refresh_failed(self, message: Seq<char>) -> AppView {
        AppView {
            refreshing: false,
            progress: match self.report {
                Some(r) => r.progress,
                None => self.progress,
            },
            error: Some(message),
            cache_status: "기존 지도와 DB를 유지했습니다."@,
            ..self
        }
    }

    /// The window after a saved map came.
    pub open spec fn map_opened(self, cached: CachedView, now: Timestamp) -> AppView {
        let shown = AppView {
            cache_loading: false,
            path: cached.report.nodes[0].path.text(),
            progress: cached.report.progress,
            ..self
        }.with_report(cached.report);
        AppView { cached_at: Some(cached.saved_at), now, ..shown }.with_candidates().with_status(
            "저장된 지도를 복원했습니다. ‘현재 폴더 재스캔’ 또는 ‘전체 다시 스캔’으로 갱신하세요."@,
        )
    }

    /// The window after the keeper of saved maps said how saving went; `saved`
    /// holds the date as text, or the error.
    pub open spec fn save_answered(
        self,
        generation: u64,
        saved: Result<Seq<char>, Seq<char>>,
    ) -> AppView {
        let counted = AppView {
            cache_saves: if self.cache_saves > 0 {
                (self.cache_saves - 1) as usize
            } else {
                0
            },
            ..self
        };
        let told = match saved {
            Ok(_) => counted,
            Err(e) => AppView { closing: false, ..counted }.with_error("DB 저장 실패: "@ + e),
        };
        if generation != self.cache_generation {
            told
        } else {
            told.with_status(
                match saved {
                    Ok(at) => "DB 저장 완료 · "@ + at,
                    Err(e) => "DB 저장 실패 (스캔 결과는 화면에서 확인 가능): "@ + e,
                },
            )
        }
    }
}

fn find_position(nodes: &Vec<Node>, path: &FolderPath) -> (r: Option<usize>)
    ensures
        match r {
            Some(i) => i < nodes@.len() && position_from(tree_of(nodes@), path@, 0) == Some(
                i as int,
            ),
            None => position_from(tree_of(nodes@), path@, 0) is None,
        },
{
    let mut i: usize = 0;
    while i < nodes.len()
        invariant
            i <= nodes@.len(),
            position_from(tree_of(nodes@), path@, i as int) == position_from(
                tree_of(nodes@),
                path@,
                0,
            ),
        decreases nodes@.len() - i,
    {
        assert(tree_of(nodes@)[i as int] == nodes@[i as int]@);
        if nodes[i].path.same(path) {
            return Some(i);
        }
        i += 1;
    }
    None
}

fn find_nearest(nodes: &Vec<Node>, path: &FolderPath) -> (r: Option<usize>)
    ensures
        match r {
            Some(i) => i < nodes@.len() && nearest(tree_of(nodes@), path@) == Some(i as int),
            None => nearest(tree_of(nodes@), path@) is None,
        },
{
    let mut here = path.clone();
    loop
        invariant
            nearest(tree_of(nodes@), here@) == nearest(tree_of(nodes@), path@),
        decreases here.names@.len(),
    {
        assert(here@.names.len() == here.names@.len());
        if let Some(i) = find_position(nodes, &here) {
            return Some(i);
        }
        if here.names.len() == 0 {
            return None;
        }
        let ghost before = here@;
        here.names.pop();
        assert(here@ =~= before.up());
    }
}

impl DiskApp {
    /// The window at the start, with a path to scan and without a map.
    pub fn new(language: Language, path: String, drives: Vec<String>, now: Timestamp) -> (r: DiskApp)
        ensures
            r@ == (AppView {
                language,
                path: path@,
                drives: texts_of(drives@),
                scanning: false,
                refreshing: false,
                progress: ProgressView::starting(""@, seq![]),
                report: None,
                cache: false,
                cache_generation: 0,
                cache_loading: false,
                cache_saves: 0,
                cache_status: seq![],
                cached_at: None,
                closing: false,
                error: None,
                focus: 0,
                selected_path: None,
                access: false,
                days: 180,
                min_mb: 1024,
                depth: 2,
                query: seq![],
                candidates: seq![],
                candidate_count: 0,
                children: seq![],
                now,
            }),
            r@.valid(),
    {
        let r = DiskApp {
            language,
            path,
            drives,
            scanning: false,
            refreshing: false,
            progress: Progress::default(),
            report: None,
            cache: false,
            cache_generation: 0,
            cache_loading: false,
            cache_saves: 0,
            cache_status: String::new(),
            cached_at: None,
            closing: false,
            error: None,
            focus: 0,
            selected_path: None,
            access: false,
            days: 180,
            min_mb: 1024,
            depth: 2,
            query: String::new(),
            candidates: Vec::new(),
            candidate_count: 0,
            children: Vec::new(),
            now,
        };
        assert(r@.candidates =~= seq![] && r@.children =~= seq![]);
        assert(r@.cache_status =~= seq![] && r@.query =~= seq![]);
        r
    }

    /// Opens what the program was started for: the demo map, or the saved map
    /// of a path that was given, or the last saved one.
    pub fn open_first(
        &mut self,
        demo: Option<Report>,
        cache: bool,
        explicit: Option<FolderPath>,
    ) -> (r: Option<Request>)
        requires
            old(self)@.valid(),
            demo matches Some(d) ==> showable(d@.nodes),
        ensures
            final(self)@.valid(),
            match demo {
                Some(d) => r is None && final(self)@ == (AppView {
                    report: Some(d@),
                    ..old(self)@
                }).navigated(0).with_candidates(),
                None => if !cache {
                    r is None && final(self)@ == old(self)@.with_status(
                        "저장 DB 위치를 찾을 수 없습니다."@,
                    )
                } else {
                    let ready = AppView { cache: true, ..old(self)@ };
                    let generation = saturated(ready.cache_generation + 1);
                    if explicit matches Some(p) && p@.written.len() == 0 {
                        r is None && final(self)@ == ready.with_status(
                            "저장 결과를 찾을 경로를 입력하세요."@,
                        )
                    } else {
                        &&& r matches Some(Request::Load { generation: g, root: p }) && g
                            == generation && optional_path(p) == optional_path(explicit)
                        &&& final(self)@ == (AppView { cache_generation: generation, ..ready })
                    }
                },
            },
    {
        if let Some(report) = demo {
            self.focus = 0;
            self.report = Some(Arc::new(report));
            self.navigate(0);
            self.refresh_candidates();
            return None;
        }
        if cache {
            self.cache = true;
            self.load_request(explicit)
        } else {
            self.cache_status = "저장 DB 위치를 찾을 수 없습니다.".to_string();
            None
        }
    }

    /// Whether work runs.
    pub fn busy(&self) -> (r: bool)
        ensures
            r == self@.busy(),
    {
        self.scanning || self.refreshing
    }

    /// The path that a click on the scan button asks for; `None` while work
    /// runs or where no path was entered.
    pub fn scan_request(&mut self) -> (r: Option<String>)
        ensures
            ({
                let path = trimmed(old(self)@.path);
                if old(self)@.busy() {
                    r is None && final(self)@ == old(self)@
                } else if path.len() == 0 {
                    r is None && final(self)@ == old(self)@.with_error("스캔할 경로를 입력하세요."@)
                } else {
                    r matches Some(p) && p@ == path && final(self)@ == old(self)@
                }
            }),
    {
        if self.busy() {
            return None;
        }
        let path = trim(self.path.as_str());
        if is_empty(path.as_str()) {
            self.error = Some("스캔할 경로를 입력하세요.".to_string());
            return None;
        }
        Some(path)
    }

    /// Begins a scan, or tells why the path could not be made absolute.
    pub fn begin_scan(&mut self, absolute: Result<(), String>) -> (r: bool)
        requires
            !old(self)@.busy(),
        ensures
            r == absolute is Ok,
            final(self)@ == match absolute {
                Ok(_) => old(self)@.scan_begun(),
                Err(e) => old(self)@.with_error(e@),
            },
            old(self)@.valid() ==> final(self)@.valid(),
    {
        if let Err(e) = absolute {
            self.error = Some(e);
            return false;
        }
        self.cache_generation = self.cache_generation.saturating_add(1);
        self.cache_loading = false;
        self.cached_at = None;
        if self.cache {
            self.cache_status = "스캔 완료 후 결과를 자동 저장합니다.".to_string();
        }
        self.scanning = true;
        self.progress = Progress::default();
        self.error = None;
        self.clear_map();
        true
    }

    fn clear_map(&mut self)
        ensures
            final(self)@ == old(self)@.cleared(),
            final(self)@.valid(),
    {
        self.report = None;
        self.focus = 0;
        self.selected_path = None;
        self.children = Vec::new();
        self.candidates = Vec::new();
        self.candidate_count = 0;
        assert(self@.children =~= seq![] && self@.candidates =~= seq![]);
    }

    /// Whether the shown map may be refreshed: nothing runs, it is finished, and no demo.
    pub open spec fn refreshable(app: AppView) -> bool {
        !app.busy() && (app.report matches Some(r) && !r.scanning && !(r.elapsed.seconds == 0
            && r.elapsed.nanos == 0))
    }

    /// Whether the shown map may be refreshed.
    pub fn can_refresh(&self) -> (r: bool)
        ensures
            r == DiskApp::refreshable(self@),
    {
        if self.busy() {
            return false;
        }
        match &self.report {
            None => false,
            Some(report) => !report.scanning && !report.elapsed.is_zero(),
        }
    }

    /// Begins a refresh of a folder, and tells from which map it starts.
    pub fn begin_subtree_scan(&mut self, target: usize) -> (r: Option<Arc<Report>>)
        ensures
            r is Some ==> final(self)@ == old(self)@.refresh_begun(target as int),
            r is None ==> final(self)@ == old(self)@,
            ({
                let before = old(self)@;
                if DiskApp::refreshable(before) && target < before.report->0.nodes.len() {
                    &&& r matches Some(base) && base@ == before.report->0
                    &&& final(self)@ == (AppView {
                        cache_generation: saturated(before.cache_generation + 1),
                        cache_loading: false,
                        cache_status: "재스캔 중: "@ + before.report->0.nodes[target as int].path.text() + " · 완료 전까지 기존 지도를 유지합니다."@,
                        error: None,
                        refreshing: true,
                        ..before
                    })
                } else {
                    r is None && final(self)@ == before
                }
            }),
            old(self)@.valid() ==> final(self)@.valid(),
    {
        if !self.can_refresh() {
            return None;
        }
        let base: Arc<Report> = match &self.report {
            None => {
                return None;
            },
            Some(base) => Arc::clone(base),
        };
        if target >= base.nodes.len() {
            return None;
        }
        assert(base@.nodes[target as int] == base.nodes@[target as int]@);
        self.cache_generation = self.cache_generation.saturating_add(1);
        self.cache_loading = false;
        self.cache_status = join3(
            "재스캔 중: ",
            base.nodes[target].path.text().as_str(),
            " · 완료 전까지 기존 지도를 유지합니다.",
        );
        self.error = None;
        self.refreshing = true;
        Some(base)
    }

    /// Opens a folder: its subfolders are listed, larger ones first.
    pub fn navigate(&mut self, id: usize)
        requires
            old(self)@.valid(),
            old(self)@.report matches Some(r) ==> id < r.nodes.len(),
        ensures
            final(self)@ == old(self)@.navigated(id),
            final(self)@.valid(),
    {
        self.focus = id;
        self.selected_path = None;
        if let Some(report) = &self.report {
            let ghost tree = report@.nodes;
            assert(tree[id as int] == report.nodes@[id as int]@);
            assert forall|k: int| 0 <= k < report.nodes@[id as int].children@.len() implies (
            #[trigger] report.nodes@[id as int].children@[k]) < report.nodes@.len() by {
                assert(tree[id as int].children[k] < tree.len());
            }
            self.children = rank(&report.nodes, &report.nodes[id].children);
        }
    }

    /// The folder that is selected.
    pub fn selected_index(&self) -> (r: Option<usize>)
        ensures
            match (self@.selected_path, self@.report) {
                (Some(p), Some(report)) => match r {
                    Some(i) => position_from(report.nodes, p, 0) == Some(i as int) && i
                        < report.nodes.len(),
                    None => position_from(report.nodes, p, 0) is None,
                },
                _ => r is None,
            },
    {
        match (&self.selected_path, &self.report) {
            (Some(path), Some(report)) => find_position(&report.nodes, path),
            _ => None,
        }
    }

    /// Shows another map.
    pub fn replace_report(&mut self, report: Report)
        requires
            old(self)@.valid(),
            showable(report@.nodes),
        ensures
            final(self)@ == old(self)@.with_report(report@),
            final(self)@.valid(),
    {
        let selection: Option<FolderPath> = match &self.selected_path {
            None => None,
            Some(path) => match find_position(&report.nodes, path) {
                Some(_) => Some(path.clone()),
                None => None,
            },
        };
        let focus: usize = match &self.report {
            None => 0,
            Some(old_report) => {
                assert(old_report@.nodes[self.focus as int]
                    == old_report.nodes@[self.focus as int]@);
                match find_nearest(&report.nodes, &old_report.nodes[self.focus].path) {
                    Some(i) => i,
                    None => 0,
                }
            },
        };
        // Nothing is open in the new map until its folder is found.
        self.report = None;
        self.focus = focus;
        self.report = Some(Arc::new(report));
        self.navigate(focus);
        self.selected_path = selection;
    }

    /// Whether a folder is large and old enough to be a candidate, and fully known.
    fn is_large_and_old(&self, node: &Node) -> (r: bool)
        ensures
            r == is_large_and_old(self@, node@),
    {
        let least: u64 = match self.min_mb.checked_mul(MEBIBYTE) {
            Some(n) => n,
            None => u64::MAX,
        };
        let old_enough: bool = match node.age_days(self.access, self.now) {
            Some(d) => d >= self.days,
            None => false,
        };
        !node.incomplete && node.bytes >= least && old_enough
    }

    /// Finds the candidates anew, from the folders' paths and the searched text in
    /// lower case: large old folders, larger ones first.
    pub fn find_candidates(&mut self, paths: &Vec<String>, query: &str)
        requires
            old(self)@.valid(),
            old(self)@.report matches Some(r) ==> !r.scanning ==> paths@.len() == r.nodes.len(),
        ensures
            final(self)@ == old(self)@.with_candidates_among(texts_of(paths@), query@),
            final(self)@.valid(),
    {
        let ghost before = self@;
        self.candidates = Vec::new();
        self.candidate_count = 0;
        let report: Arc<Report> = match &self.report {
            None => {
                assert(self@.candidates =~= seq![]);
                return;
            },
            Some(r) => Arc::clone(r),
        };
        if report.scanning {
            assert(self@.candidates =~= seq![]);
            return;
        }
        let ghost tree = report@.nodes;
        let any: bool = is_empty(query);
        let mut found: Vec<usize> = Vec::new();
        let mut i: usize = 0;
        while i < report.nodes.len()
            invariant
                i <= report.nodes@.len(),
                paths@.len() == report.nodes@.len(),
                tree == tree_of(report.nodes@),
                any == (query@.len() == 0),
                self@ == (AppView { candidates: seq![], candidate_count: 0, ..before }),
                forall|k: int| 0 <= k < found@.len() ==> (#[trigger] found@[k]) < report.nodes@.len(),
                found@ == candidates_among(before, tree, texts_of(paths@), query@, i as int),
            decreases report.nodes@.len() - i,
        {
            let node = &report.nodes[i];
            assert(tree[i as int] == node@);
            assert(texts_of(paths@)[i as int] == paths@[i as int]@);
            if self.is_large_and_old(node) && (any || contains(paths[i].as_str(), query)) {
                found.push(i);
            }
            i += 1;
        }
        let mut all = rank(&report.nodes, &found);
        self.candidate_count = all.len();
        let ghost whole = all@;
        if all.len() > MAX_CANDIDATES {
            all.truncate(MAX_CANDIDATES);
            assert(all@ =~= whole.take(MAX_CANDIDATES as int));
        }
        self.candidates = all;
    }

    /// Finds the candidates anew: large old folders, larger ones first.
    pub fn refresh_candidates(&mut self)
        requires
            old(self)@.valid(),
        ensures
            final(self)@ == old(self)@.with_candidates(),
            final(self)@.valid(),
    {
        let ghost before = self@;
        let query: String = self.query.as_str().to_lowercase();
        let any: bool = is_empty(query.as_str());
        let mut paths: Vec<String> = Vec::new();
        if let Some(report) = &self.report {
            let ghost tree = report@.nodes;
            let mut i: usize = 0;
            // Only paths that are searched are put in lower case.
            while i < report.nodes.len()
                invariant
                    i <= report.nodes@.len(),
                    tree == tree_of(report.nodes@),
                    any == (query@.len() == 0),
                    before == self@,
                    paths@.len() == i,
                    forall|k: int|
                        0 <= k < i ==> any || !is_large_and_old(before, tree[k]) || (
                        #[trigger] paths@[k])@ == lowercase(tree[k].path.text()),
                decreases report.nodes@.len() - i,
            {
                let node = &report.nodes[i];
                assert(tree[i as int] == node@);
                if any || !self.is_large_and_old(node) {
                    paths.push(String::new());
                } else {
                    let text = node.path.text();
                    paths.push(text.as_str().to_lowercase());
                }
                i += 1;
            }
            proof {
                candidates_need_no_other_paths(
                    before,
                    tree,
                    texts_of(paths@),
                    query@,
                    tree.len() as int,
                );
            }
        }
        self.find_candidates(&paths, query.as_str());
    }

    /// Asks for a saved map: that of a path, or the last one.
    pub fn load_request(&mut self, root: Option<FolderPath>) -> (r: Option<Request>)
        ensures
            r is Some ==> final(self)@ == old(self)@.map_asked(),
            ({
                let before = old(self)@;
                if root matches Some(p) && p@.written.len() == 0 {
                    r is None && final(self)@ == before.with_status(
                        "저장 결과를 찾을 경로를 입력하세요."@,
                    )
                } else if !before.cache {
                    r is None && final(self)@ == before
                } else {
                    let generation = saturated(before.cache_generation + 1);
                    &&& r matches Some(Request::Load { generation: g, root: p }) && g == generation
                        && optional_path(p) == optional_path(root)
                    &&& final(self)@ == (AppView { cache_generation: generation, ..before })
                }
            }),
            old(self)@.valid() ==> final(self)@.valid(),
    {
        if let Some(p) = &root {
            if p.written.len() == 0 {
                self.cache_status = "저장 결과를 찾을 경로를 입력하세요.".to_string();
                return None;
            }
        }
        if !self.cache {
            return None;
        }
        self.cache_generation = self.cache_generation.saturating_add(1);
        Some(Request::Load { generation: self.cache_generation, root })
    }

    /// Notes whether the request for a saved map could be handed on.
    pub fn load_sent(&mut self, sent: bool)
        ensures
            final(self)@ == if sent {
                AppView { cache_loading: true, ..old(self)@ }.with_status(
                    "저장된 지도 불러오는 중…"@,
                )
            } else {
                old(self)@.with_status("DB 작업이 종료되었습니다."@)
            },
            old(self)@.valid() ==> final(self)@.valid(),
    {
        if sent {
            self.cache_loading = true;
            self.cache_status = "저장된 지도 불러오는 중…".to_string();
        } else {
            self.cache_status = "DB 작업이 종료되었습니다.".to_string();
        }
    }

    /// Asks that the shown map be saved. The map itself is shared, not copied.
    pub fn save_cache(&mut self, saved_at: Timestamp) -> (r: Option<Request>)
        ensures
            final(self)@ == old(self)@.before_saving(),
            old(self)@.valid() ==> final(self)@.valid(),
            final(self).report == old(self).report,
            if old(self)@.saves() {
                r matches Some(Request::Save { generation, report, saved_at: at }) && generation
                    == old(self)@.cache_generation && Some(report) == old(self).report && at
                    == saved_at
            } else {
                r is None
            },
    {
        if !self.cache {
            return None;
        }
        match &self.report {
            None => None,
            Some(report) => {
                if report.cancelled || report.scanning {
                    self.cache_status =
                    "중지된 결과는 저장하지 않습니다. 이전 저장 결과가 유지됩니다.".to_string();
                    return None;
                }
                Some(
                    Request::Save {
                        generation: self.cache_generation,
                        report: Arc::clone(report),
                        saved_at,
                    },
                )
            },
        }
    }

    /// Notes whether the request to save could be handed on.
    pub fn save_sent(&mut self, sent: bool)
        ensures
            sent ==> final(self)@.cache_saves == old(self)@.one_more_save(),
            !sent ==> final(self)@.cache_saves == old(self)@.cache_saves,
            final(self)@ == if sent {
                AppView {
                    cache_saves: if old(self)@.cache_saves < usize::MAX {
                        (old(self)@.cache_saves + 1) as usize
                    } else {
                        usize::MAX
                    },
                    ..old(self)@
                }.with_status("스캔 완료 · DB 저장 중…"@)
            } else {
                old(self)@.with_status("DB 작업이 종료되어 결과를 저장하지 못했습니다."@)
            },
            old(self)@.valid() ==> final(self)@.valid(),
    {
        if sent {
            self.cache_saves = self.cache_saves.saturating_add(1);
            self.cache_status = "스캔 완료 · DB 저장 중…".to_string();
        } else {
            self.cache_status = "DB 작업이 종료되어 결과를 저장하지 못했습니다.".to_string();
        }
    }

    /// Takes in what a scan tells; `None` where its worker is gone. A finished
    /// map may have to be saved.
    pub fn poll(&mut self, event: Option<scan::Event>, now: Timestamp) -> (r: Option<Request>)
        requires
            old(self)@.valid(),
            event matches Some(scan::Event::Preview(p)) ==> showable(p@.nodes),
            event matches Some(scan::Event::Finished(p)) ==> showable(p@.nodes),
        ensures
            final(self)@.valid(),
            match event {
                None => r is None && final(self)@ == (AppView { scanning: false, ..old(self)@ })
                    .with_error("스캔 작업이 예기치 않게 종료되었습니다."@),
                Some(scan::Event::Restart(p)) => r is None && final(self)@ == (AppView {
                    progress: p@,
                    ..old(self)@
                }).cleared(),
                Some(scan::Event::Progress(p)) => r is None && final(self)@ == (AppView {
                    progress: p@,
                    ..old(self)@
                }),
                Some(scan::Event::Preview(p)) => r is None && final(self)@ == (AppView {
                    progress: p@.progress,
                    ..old(self)@
                }).with_report(p@),
                Some(scan::Event::Finished(p)) => {
                    let shown = old(self)@.scan_finished(p@, now);
                    &&& final(self)@ == shown.before_saving()
                    &&& is_save(r, shown, final(self).report, now)
                },
                Some(scan::Event::Failed(e)) => r is None && final(self)@ == (AppView {
                    scanning: false,
                    ..old(self)@
                }).with_error(e@),
            },
    {
        match event {
            None => {
                self.error = Some("스캔 작업이 예기치 않게 종료되었습니다.".to_string());
                self.scanning = false;
                None
            },
            Some(scan::Event::Restart(p)) => {
                self.progress = p;
                self.clear_map();
                None
            },
            Some(scan::Event::Progress(p)) => {
                self.progress = p;
                None
            },
            Some(scan::Event::Preview(report)) => {
                self.progress = report.progress.clone();
                self.replace_report(report);
                None
            },
            Some(scan::Event::Finished(report)) => {
                self.progress = report.progress.clone();
                self.replace_report(report);
                self.scanning = false;
                self.now = now;
                let focus: usize = self.focus;
                self.navigate(focus);
                self.refresh_candidates();
                self.save_cache(now)
            },
            Some(scan::Event::Failed(e)) => {
                self.error = Some(e);
                self.scanning = false;
                None
            },
        }
    }

    /// Takes in what a refresh tells; `None` where its worker is gone.
    pub fn poll_subtree(&mut self, event: Option<subtree::Event>, now: Timestamp) -> (r: Option<
        Request,
    >)
        requires
            old(self)@.valid(),
            event matches Some(subtree::Event::Finished(Ok(p))) ==> showable(p@.nodes),
        ensures
            final(self)@.valid(),
            match event {
                None => r is None && final(self)@ == old(self)@.refresh_failed(
                    "부분 재스캔 작업이 종료되었습니다. 기존 결과를 유지합니다."@,
                ) && final(self).report == old(self).report,
                Some(subtree::Event::Progress(p)) => r is None && final(self)@ == (AppView {
                    progress: p@,
                    ..old(self)@
                }),
                Some(subtree::Event::Finished(Ok(p))) => {
                    let shown = old(self)@.refresh_finished(p@, now);
                    &&& final(self)@ == shown.before_saving()
                    &&& is_save(r, shown, final(self).report, now)
                },
                Some(subtree::Event::Finished(Err(e))) => r is None && final(self)@ == old(self)@.refresh_failed(e@) && final(self).report == old(self).report,
            },
    {
        match event {
            None => self.finish_subtree(
                Err("부분 재스캔 작업이 종료되었습니다. 기존 결과를 유지합니다.".to_string()),
                now,
            ),
            Some(subtree::Event::Progress(p)) => {
                self.progress = p;
                None
            },
            Some(subtree::Event::Finished(result)) => self.finish_subtree(result, now),
        }
    }

    /// Takes in the result of a refresh. A failed one keeps the map as it is.
    pub fn finish_subtree(&mut self, result: Result<Report, String>, now: Timestamp) -> (r: Option<
        Request,
    >)
        requires
            old(self)@.valid(),
            result matches Ok(p) ==> showable(p@.nodes),
        ensures
            final(self)@.valid(),
            match result {
                Ok(p) => {
                    let shown = old(self)@.refresh_finished(p@, now);
                    &&& final(self)@ == shown.before_saving()
                    &&& is_save(r, shown, final(self).report, now)
                },
                Err(e) => r is None && final(self)@ == old(self)@.refresh_failed(e@) && final(self).report == old(self).report,
            },
    {
        self.refreshing = false;
        match result {
            Ok(report) => {
                self.progress = report.progress.clone();
                self.replace_report(report);
                self.cached_at = None;
                self.now = now;
                self.refresh_candidates();
                self.cache_status = "현재 폴더 재스캔 결과를 반영했습니다.".to_string();
                self.save_cache(now)
            },
            Err(message) => {
                if let Some(report) = &self.report {
                    self.progress = report.progress.clone();
                }
                self.error = Some(message);
                self.cache_status = "기존 지도와 DB를 유지했습니다.".to_string();
                None
            },
        }
    }

    /// Shows a saved map.
    fn open_map(&mut self, cached: Cached, now: Timestamp)
        requires
            old(self)@.valid(),
            showable(cached@.report.nodes),
        ensures
            final(self)@.valid(),
            final(self)@ == old(self)@.map_opened(cached@, now),
    {
        self.cache_loading = false;
        assert(cached@.report.nodes[0] == cached.report.nodes@[0]@);
        self.path = cached.report.nodes[0].path.text();
        self.progress = cached.report.progress.clone();
        let ghost opening = AppView {
            cache_loading: false,
            path: cached@.report.nodes[0].path.text(),
            progress: cached@.report.progress,
            ..old(self)@
        };
        assert(self@ =~= opening);
        let saved_at = cached.saved_at;
        self.replace_report(cached.report);
        let ghost shown = opening.with_report(cached@.report);
        self.cached_at = Some(saved_at);
        self.now = now;
        assert(self@ =~= AppView { cached_at: Some(cached@.saved_at), now, ..shown });
        self.refresh_candidates();
        self.cache_status =
        "저장된 지도를 복원했습니다. ‘현재 폴더 재스캔’ 또는 ‘전체 다시 스캔’으로 갱신하세요.".to_string();
    }

    /// Takes in a saved map. One that was asked for before newer work is dropped.
    pub fn map_loaded(
        &mut self,
        generation: u64,
        result: Result<Option<Cached>, String>,
        now: Timestamp,
    )
        requires
            old(self)@.valid(),
            result matches Ok(Some(c)) ==> showable(c@.report.nodes),
        ensures
            final(self)@.valid(),
            final(self)@ == if generation != old(self)@.cache_generation {
                old(self)@
            } else {
                let quiet = AppView { cache_loading: false, ..old(self)@ };
                match result {
                    Ok(Some(c)) => old(self)@.map_opened(c@, now),
                    Ok(None) => quiet.with_status(
                        "저장된 결과가 없습니다. 스캔 완료 후 자동 저장됩니다."@,
                    ),
                    Err(e) => quiet.with_status("저장된 지도를 읽지 못했습니다: "@ + e@),
                }
            },
            generation != old(self)@.cache_generation ==> final(self).report == old(self).report,
    {
        if generation != self.cache_generation {
            return;
        }
        self.cache_loading = false;
        match result {
            Ok(Some(cached)) => {
                self.open_map(cached, now);
            },
            Ok(None) => {
                self.cache_status =
                "저장된 결과가 없습니다. 스캔 완료 후 자동 저장됩니다.".to_string();
            },
            Err(e) => {
                self.cache_status = join2("저장된 지도를 읽지 못했습니다: ", e.as_str());
            },
        }
    }

    /// Takes in how saving went: the date as text, or the error.
    pub fn map_saved(&mut self, generation: u64, saved: Result<String, String>)
        ensures
            final(self)@ == old(self)@.save_answered(
                generation,
                match saved {
                    Ok(at) => Ok(at@),
                    Err(e) => Err(e@),
                },
            ),
            final(self).report == old(self).report,
            old(self)@.valid() ==> final(self)@.valid(),
    {
        self.cache_saves = self.cache_saves.saturating_sub(1);
        if let Err(e) = &saved {
            self.closing = false;
            self.error = Some(join2("DB 저장 실패: ", e.as_str()));
        }
        if generation == self.cache_generation {
            self.cache_status = match &saved {
                Ok(at) => join2("DB 저장 완료 · ", at.as_str()),
                Err(e) => join2(
                    "DB 저장 실패 (스캔 결과는 화면에서 확인 가능): ",
                    e.as_str(),
                ),
            };
        }
    }

    /// Takes in what the keeper of saved maps answers; `None` where it is gone.
    pub fn poll_cache(&mut self, event: Option<cache::snapshot::Event>, now: Timestamp)
        requires
            old(self)@.valid(),
            event matches Some(cache::snapshot::Event::Loaded { result: Ok(Some(c)), .. })
                ==> showable(c@.report.nodes),
        ensures
            final(self)@.valid(),
            match event {
                None => final(self)@ == (AppView {
                    cache: false,
                    cache_loading: false,
                    cache_saves: 0,
                    closing: false,
                    ..old(self)@
                }).with_status("DB 작업이 종료되었습니다. 저장 여부를 확인하세요."@),
                Some(cache::snapshot::Event::Loaded { generation, result }) => {
                    let quiet = AppView { cache_loading: false, ..old(self)@ };
                    final(self)@ == if generation != old(self)@.cache_generation {
                        old(self)@
                    } else {
                        match result {
                            Ok(Some(c)) => old(self)@.map_opened(c@, now),
                            Ok(None) => quiet.with_status(
                                "저장된 결과가 없습니다. 스캔 완료 후 자동 저장됩니다."@,
                            ),
                            Err(e) => quiet.with_status("저장된 지도를 읽지 못했습니다: "@ + e@),
                        }
                    }
                },
                Some(cache::snapshot::Event::Saved { generation, result: Err(e) }) => final(self)@
                    == old(self)@.save_answered(generation, Err(e@)),
                Some(cache::snapshot::Event::Saved { generation, result: Ok(at) }) => exists|
                    text: Seq<char>,
                | final(self)@ == #[trigger] old(self)@.save_answered(generation, Ok(text)) && (
                if has_date(at@) {
                    shows(text, at@ / (NANOS_PER_SECOND as int))
                } else {
                    text == unknown_time(Language::Korean)
                }),
            },
    {
        match event {
            None => {
                self.cache = false;
                self.cache_loading = false;
                self.cache_saves = 0;
                self.closing = false;
                self.cache_status = "DB 작업이 종료되었습니다. 저장 여부를 확인하세요.".to_string();
            },
            Some(cache::snapshot::Event::Loaded { generation, result }) => self.map_loaded(
                generation,
                result,
                now,
            ),
            Some(cache::snapshot::Event::Saved { generation, result }) => {
                let saved: Result<String, String> = match result {
                    Ok(at) => Ok(date_label(Language::Korean, at)),
                    Err(e) => Err(e),
                };
                self.map_saved(generation, saved);
            },
        }
    }

    /// What is said about the shown map.
    pub open spec fn map_status(self) -> Option<Seq<char>> {
        let pick = |korean: Seq<char>, english: Seq<char>|
            if self.language == Language::Korean {
                korean
            } else {
                english
            };
        match self@.report {
            None => None,
            Some(r) => Some(
                if self.refreshing {
                    pick(
                        "현재 폴더 재스캔 중 · 지도는 이전 결과"@,
                        "Refreshing folder · Showing previous map"@,
                    )
                } else if self.cached_at is Some {
                    pick("저장된 결과"@, "Saved map"@)
                } else if r.scanning {
                    pick("스캔 중 · 잠정 지도"@, "Scanning · Preview map"@)
                } else if r.cancelled {
                    pick("중지된 부분 결과"@, "Stopped · Partial results"@)
                } else {
                    pick("스캔 완료"@, "Scan complete"@)
                },
            ),
        }
    }

    /// What is said about the shown map.
    pub fn status_text(&self) -> (r: Option<String>)
        ensures
            optional_text(r) == self.map_status(),
    {
        match &self.report {
            None => None,
            Some(report) => {
                let text: &str = if self.refreshing {
                    self.language.pick(
                        "현재 폴더 재스캔 중 · 지도는 이전 결과",
                        "Refreshing folder · Showing previous map",
                    )
                } else if self.cached_at.is_some() {
                    self.language.pick("저장된 결과", "Saved map")
                } else if report.scanning {
                    self.language.pick("스캔 중 · 잠정 지도", "Scanning · Preview map")
                } else if report.cancelled {
                    self.language.pick("중지된 부분 결과", "Stopped · Partial results")
                } else {
                    self.language.pick("스캔 완료", "Scan complete")
                };
                Some(text.to_string())
            },
        }
    }

    /// Takes in what was clicked in the map: a folder to open, one to select
    /// and one to refresh. Opening wins over selecting. The folder to refresh
    /// is handed back with the map that the refresh starts from.
    pub fn click(
        &mut self,
        navigate: Option<usize>,
        selection: Option<usize>,
        refresh: Option<usize>,
    ) -> (r: Option<Arc<Report>>)
        requires
            old(self)@.valid(),
            old(self)@.report matches Some(map) ==> (navigate matches Some(id) ==> id
                < map.nodes.len()) && (selection matches Some(id) ==> id < map.nodes.len()),
        ensures
            final(self)@.valid(),
            ({
                let before = old(self)@;
                let moved = match (navigate, selection, before.report) {
                    (Some(id), _, _) => before.navigated(id),
                    (None, Some(id), Some(map)) => AppView {
                        selected_path: Some(map.nodes[id as int].path),
                        ..before
                    },
                    _ => before,
                };
                match refresh {
                    Some(target) if DiskApp::refreshable(moved) && target
                        < moved.report->0.nodes.len() => {
                        &&& r matches Some(base) && base@ == moved.report->0
                        &&& final(self)@ == (AppView {
                            cache_generation: saturated(moved.cache_generation + 1),
                            cache_loading: false,
                            cache_status: "재스캔 중: "@ + moved.report->0.nodes[target as int].path.text() + " · 완료 전까지 기존 지도를 유지합니다."@,
                            error: None,
                            refreshing: true,
                            ..moved
                        })
                    },
                    _ => r is None && final(self)@ == moved,
                }
            }),
    {
        if let Some(id) = navigate {
            self.navigate(id);
        } else if let Some(id) = selection {
            if let Some(map) = &self.report {
                assert(map@.nodes[id as int] == map.nodes@[id as int]@);
                let path = map.nodes[id].path.clone();
                self.selected_path = Some(path);
            }
        }
        match refresh {
            Some(target) => self.begin_subtree_scan(target),
            None => None,
        }
    }

    /// Whether a wish to close must wait, and whether the window closes now: it
    /// waits until nothing is left to save.
    pub fn close_step(&mut self, requested: bool) -> (r: (bool, bool))
        ensures
            r == old(self)@.close_wish(requested),
            ({
                let waits = requested && old(self)@.cache_saves > 0;
                let closing = old(self)@.closing || waits;
                &&& r == (waits, closing && old(self)@.cache_saves == 0)
                &&& final(self)@ == (AppView { closing, ..old(self)@ })
            }),
            old(self)@.valid() ==> final(self)@.valid(),
    {
        let waits: bool = requested && self.cache_saves > 0;
        if waits {
            self.closing = true;
        }
        (waits, self.closing && self.cache_saves == 0)
    }
}

/// The path that the program was given, unless the demo was asked for, and the
/// path that stands in the window at the start: that one, or the first drive.
pub fn start_paths(argument: Option<String>, drives: &Vec<String>) -> (r: (Option<String>, String))
    ensures
        optional_text(r.0) == match argument {
            Some(a) if a@ != "--demo"@ => Some(a@),
            _ => None,
        },
        r.1@ == match optional_text(r.0) {
            Some(path) => path,
            None => if drives@.len() > 0 {
                drives@[0]@
            } else {
                seq![]
            },
        },
{
    let explicit: Option<String> = match argument {
        Some(a) => if same_text(a.as_str(), "--demo") {
            None
        } else {
            Some(a)
        },
        None => None,
    };
    let path: String = match &explicit {
        Some(path) => path.clone(),
        None => if drives.len() > 0 {
            drives[0].clone()
        } else {
            String::new()
        },
    };
    assert(explicit is None && drives@.len() == 0 ==> path@ =~= seq![]);
    (explicit, path)
}

/// Whether a request is the one to save what the window shows.
pub open spec fn is_save(
    request: Option<Request>,
    app: AppView,
    shown: Option<Arc<Report>>,
    now: Timestamp,
) -> bool {
    if app.saves() {
        request matches Some(Request::Save { generation, report, saved_at }) && generation
            == app.cache_generation && Some(report) == shown && saved_at == now
    } else {
        request is None
    }
}

} // verus!
