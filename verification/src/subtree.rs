//! Refreshing one folder of a map: what is asked of the disk, in which order,
//! and when the old map is kept instead.
use std::collections::HashMap;
use vstd::prelude::*;
use crate::merge::{append_texts, at_most, can_merge, direct_views, is_merge, merge, merged_issues, merged_progress, nodes_of, view_of};
use crate::path::{same_units, FolderPath, PathView};
use crate::preserve::{children_follow, count_direct_files, direct_files};
use crate::scan::{texts_of, with_file, Found, FoundView, Progress, ProgressView, Report, FOLDER_ENGINE, MAX_ISSUES};
use crate::text::{join2, join3};
use crate::time::{Duration, Timestamp};
use crate::tree::{children_of, saturated, shaped, Node, NodeView};
use crate::updates::note_report;

verus! {

/// What a refresh tells while it runs.
#[derive(Debug)]
pub enum Event {
    Progress(Progress),
    Finished(Result<Report, String>),
}

/// Where a refresh stands.
#[derive(Clone, Copy, Debug, PartialEq, Eq, Structural)]
pub enum Phase {
    /// Looking for the folder, or for the nearest one above it that still exists.
    Locating,
    /// Making sure that this folder and all above it are still plain folders.
    Confirming(usize),
    /// Listing the folder above a missing one, to be sure that it is gone.
    Listing,
    /// Scanning the folder.
    Scanning,
    /// Reading the direct files of this folder above the refreshed one.
    Reading(usize),
    /// Everything is known.
    Merging,
    /// The whole map was scanned; nothing is left to merge.
    Replaced,
}

/// A refresh: the folder it was asked for, the one it found, and the topmost one that is gone.
#[derive(Clone, Copy, Debug, PartialEq, Eq, Structural)]
pub struct Refresh {
    pub target: usize,
    pub cursor: usize,
    pub removed: Option<usize>,
    pub phase: Phase,
}

/// What the disk answers.
#[derive(Debug)]
pub enum Answer {
    /// The path is a plain folder.
    Folder,
    /// The path is something else, or a link.
    NotFolder,
    /// The path does not exist.
    Missing(String),
    /// The path could not be looked at.
    Failed(String),
    /// The folder lists this name.
    Entry(Vec<u16>),
    /// The folder, or an entry of it, could not be listed.
    Unreadable(String),
    /// The folder lists nothing more.
    End,
    /// The folder was scanned to its end.
    Scanned,
    /// The direct files were read, or are known from the old map.
    Read,
}

/// The message of a refresh that was stopped.
pub open spec fn stopped() -> Seq<char> {
    "부분 재스캔을 중지했습니다. 기존 지도와 저장 결과를 유지합니다."@
}

/// Stops where stopping was asked for.
pub fn check_cancel(cancelled: bool) -> (r: Result<(), String>)
    ensures
        match r {
            Ok(_) => !cancelled,
            Err(e) => cancelled && e@ == stopped(),
        },
{
    if cancelled {
        Err("부분 재스캔을 중지했습니다. 기존 지도와 저장 결과를 유지합니다.".to_string())
    } else {
        Ok(())
    }
}

impl Refresh {
    /// Whether all positions stand for folders of the map.
    pub open spec fn valid(self, tree: Seq<NodeView>) -> bool {
        &&& shaped(tree)
        &&& self.target < tree.len()
        &&& self.cursor < tree.len()
        &&& self.removed matches Some(r) ==> r < tree.len() && tree[r as int].parent is Some
        &&& match self.phase {
            Phase::Confirming(id) => id < tree.len(),
            Phase::Reading(id) => id < tree.len(),
            Phase::Listing => self.removed is Some
                && tree[self.removed->0 as int].path.has_name(),
            _ => true,
        }
        &&& self.phase is Reading || self.phase is Merging ==> 0 < self.effective()
        &&& self.phase is Scanning || self.phase is Replaced ==> self.removed is None
        &&& self.phase is Replaced ==> self.target == 0
    }

    /// The folder that is replaced: the topmost one that is gone, or the one that was asked for.
    pub open spec fn effective(self) -> usize {
        match self.removed {
            Some(r) => r,
            None => self.target,
        }
    }

    /// A path of the map as text, then a colon and an error.
    pub open spec fn told(tree: Seq<NodeView>, id: int, error: Seq<char>) -> Seq<char> {
        tree[id].path.text() + ": "@ + error
    }

    /// The refresh after an answer, or why the old map is kept.
    pub open spec fn after(
        self,
        tree: Seq<NodeView>,
        answer: Answer,
        cancelled: bool,
    ) -> Result<Refresh, Seq<char>> {
        match (self.phase, answer) {
            (Phase::Locating, Answer::Folder) => Ok(
                Refresh { phase: Phase::Confirming(self.cursor), ..self },
            ),
            (Phase::Locating, Answer::NotFolder) => Err(
                "경로가 일반 폴더가 아닙니다. 상위 폴더를 재스캔하세요."@,
            ),
            (Phase::Locating, Answer::Missing(e)) => match tree[self.cursor as int].parent {
                Some(p) => Ok(Refresh { cursor: p, removed: Some(self.cursor), ..self }),
                None => Err(
                    "경로를 확인할 수 없어 기존 결과를 유지합니다: "@ + Refresh::told(
                        tree,
                        self.cursor as int,
                        e@,
                    ),
                ),
            },
            (Phase::Locating, Answer::Failed(e)) => Err(
                "경로를 확인할 수 없어 기존 결과를 유지합니다: "@ + Refresh::told(
                    tree,
                    self.cursor as int,
                    e@,
                ),
            ),
            (Phase::Confirming(id), Answer::Folder) => match (tree[id as int].parent, self.removed) {
                (Some(p), _) => Ok(Refresh { phase: Phase::Confirming(p), ..self }),
                (None, None) => Ok(Refresh { phase: Phase::Scanning, ..self }),
                (None, Some(r)) => if tree[r as int].path.has_name() {
                    Ok(Refresh { phase: Phase::Listing, ..self })
                } else {
                    Err("삭제 경로를 확인할 수 없습니다."@)
                },
            },
            (Phase::Confirming(id), Answer::NotFolder) => Err(
                "상위 경로가 링크 또는 다른 형식으로 변경되어 기존 결과를 유지합니다."@,
            ),
            (Phase::Confirming(id), Answer::Missing(e)) => Err(
                "상위 경로 확인 실패: "@ + Refresh::told(tree, id as int, e@),
            ),
            (Phase::Confirming(id), Answer::Failed(e)) => Err(
                "상위 경로 확인 실패: "@ + Refresh::told(tree, id as int, e@),
            ),
            (Phase::Listing, Answer::Entry(name)) => if cancelled {
                Err(stopped())
            } else if name@ == tree[self.removed->0 as int].path.names.last() {
                Err("경로가 다시 나타났습니다. 기존 결과를 유지합니다. 재스캔을 다시 실행하세요."@)
            } else {
                Ok(self)
            },
            (Phase::Listing, Answer::Unreadable(e)) => Err(e@),
            (Phase::Listing, Answer::End) => Ok(
                Refresh { phase: Phase::Reading(tree[self.removed->0 as int].parent->0), ..self },
            ),
            (Phase::Scanning, Answer::Scanned) => if cancelled {
                Err(stopped())
            } else {
                match tree[self.target as int].parent {
                    None => Ok(Refresh { phase: Phase::Replaced, ..self }),
                    Some(p) => Ok(Refresh { phase: Phase::Reading(p), ..self }),
                }
            },
            (Phase::Reading(id), Answer::Read) => if cancelled {
                Err(stopped())
            } else {
                match tree[id as int].parent {
                    Some(p) => Ok(Refresh { phase: Phase::Reading(p), ..self }),
                    None => Ok(Refresh { phase: Phase::Merging, ..self }),
                }
            },
            _ => Ok(self),
        }
    }
}

/// Begins a refresh of the folder at `target`.
pub fn begin(base: &Report, target: usize, cancelled: bool) -> (r: Result<Refresh, String>)
    requires
        shaped(base@.nodes),
    ensures
        match r {
            Ok(s) => !cancelled && target < base@.nodes.len() && !base.scanning && s == (Refresh {
                target,
                cursor: target,
                removed: None,
                phase: Phase::Locating,
            }) && s.valid(base@.nodes),
            Err(e) => if cancelled {
                e@ == stopped()
            } else {
                (target >= base@.nodes.len() || base.scanning) && e@
                    == "재스캔할 완료된 폴더 결과가 없습니다."@
            },
        },
{
    check_cancel(cancelled)?;
    if target >= base.nodes.len() || base.scanning {
        return Err("재스캔할 완료된 폴더 결과가 없습니다.".to_string());
    }
    Ok(Refresh { target, cursor: target, removed: None, phase: Phase::Locating })
}

fn path_error(message: &str, node: &Node, error: &str) -> (r: String)
    ensures
        r@ == message@ + (node@.path.text() + ": "@ + error@),
{
    let told = join3(node.path.text().as_str(), ": ", error);
    join2(message, told.as_str())
}

/// Takes in what the disk answered. A missing folder is looked for further up,
/// within the map; that one is gone is believed only once the folder above it
/// was listed. Anything unclear keeps the old map.
pub fn step(base: &Report, state: Refresh, answer: Answer, cancelled: bool) -> (r: Result<
    Refresh,
    String,
>)
    requires
        state.valid(base@.nodes),
    ensures
        match r {
            Ok(s) => state.after(base@.nodes, answer, cancelled) == Ok::<Refresh, Seq<char>>(s)
                && s.valid(base@.nodes),
            Err(e) => state.after(base@.nodes, answer, cancelled) == Err::<Refresh, Seq<char>>(e@),
        },
{
    let ghost tree = base@.nodes;
    assert(tree.len() == base.nodes@.len());
    assert(forall|i: int| 0 <= i < tree.len() ==> #[trigger] tree[i] == base.nodes@[i]@);
    assert(forall|i: int|
        0 <= i < tree.len() && (#[trigger] tree[i]).parent is Some ==> i > 0 && tree[i].parent->0 < i);
    match (state.phase, answer) {
        (Phase::Locating, Answer::Folder) => Ok(
            Refresh { phase: Phase::Confirming(state.cursor), ..state },
        ),
        (Phase::Locating, Answer::NotFolder) => Err(
            "경로가 일반 폴더가 아닙니다. 상위 폴더를 재스캔하세요.".to_string(),
        ),
        (Phase::Locating, Answer::Missing(e)) => {
            let node = &base.nodes[state.cursor];
            assert(node@ == tree[state.cursor as int]);
            match node.parent {
                Some(p) => Ok(Refresh { cursor: p, removed: Some(state.cursor), ..state }),
                None => Err(
                    path_error(
                        "경로를 확인할 수 없어 기존 결과를 유지합니다: ",
                        node,
                        e.as_str(),
                    ),
                ),
            }
        },
        (Phase::Locating, Answer::Failed(e)) => Err(
            path_error(
                "경로를 확인할 수 없어 기존 결과를 유지합니다: ",
                &base.nodes[state.cursor],
                e.as_str(),
            ),
        ),
        (Phase::Confirming(id), Answer::Folder) => {
            let node = &base.nodes[id];
            assert(node@ == tree[id as int]);
            match (node.parent, state.removed) {
                (Some(p), _) => Ok(Refresh { phase: Phase::Confirming(p), ..state }),
                (None, None) => Ok(Refresh { phase: Phase::Scanning, ..state }),
                (None, Some(gone)) => {
                    let path = &base.nodes[gone].path;
                    assert(path@ == tree[gone as int].path);
                    if path.has_name() {
                        Ok(Refresh { phase: Phase::Listing, ..state })
                    } else {
                        Err("삭제 경로를 확인할 수 없습니다.".to_string())
                    }
                },
            }
        },
        (Phase::Confirming(_), Answer::NotFolder) => Err(
            "상위 경로가 링크 또는 다른 형식으로 변경되어 기존 결과를 유지합니다.".to_string(),
        ),
        (Phase::Confirming(id), Answer::Missing(e)) => Err(
            path_error("상위 경로 확인 실패: ", &base.nodes[id], e.as_str()),
        ),
        (Phase::Confirming(id), Answer::Failed(e)) => Err(
            path_error("상위 경로 확인 실패: ", &base.nodes[id], e.as_str()),
        ),
        (Phase::Listing, Answer::Entry(name)) => {
            check_cancel(cancelled)?;
            match state.removed {
                None => Ok(state),
                Some(gone) => {
                    let path = &base.nodes[gone].path;
                    assert(path@ == tree[gone as int].path);
                    if is_last_name(path, &name) {
                        Err(
                            "경로가 다시 나타났습니다. 기존 결과를 유지합니다. 재스캔을 다시 실행하세요.".to_string(),
                        )
                    } else {
                        Ok(state)
                    }
                },
            }
        },
        (Phase::Listing, Answer::Unreadable(e)) => Err(e),
        (Phase::Listing, Answer::End) => {
            match state.removed {
                None => Ok(state),
                Some(gone) => {
                    let node = &base.nodes[gone];
                    assert(node@ == tree[gone as int]);
                    match node.parent {
                        None => Ok(state),
                        Some(p) => Ok(Refresh { phase: Phase::Reading(p), ..state }),
                    }
                },
            }
        },
        (Phase::Scanning, Answer::Scanned) => {
            check_cancel(cancelled)?;
            let node = &base.nodes[state.target];
            assert(node@ == tree[state.target as int]);
            match node.parent {
                None => Ok(Refresh { phase: Phase::Replaced, ..state }),
                Some(p) => Ok(Refresh { phase: Phase::Reading(p), ..state }),
            }
        },
        (Phase::Reading(id), Answer::Read) => {
            check_cancel(cancelled)?;
            let node = &base.nodes[id];
            assert(node@ == tree[id as int]);
            match node.parent {
                Some(p) => Ok(Refresh { phase: Phase::Reading(p), ..state }),
                None => Ok(Refresh { phase: Phase::Merging, ..state }),
            }
        },
        _ => Ok(state),
    }
}

fn is_last_name(path: &FolderPath, name: &Vec<u16>) -> (r: bool)
    ensures
        path@.names.len() > 0 ==> r == (name@ == path@.names.last()),
{
    let n: usize = path.names.len();
    assert(path@.names.len() == n);
    if n == 0 {
        return false;
    }
    assert(path@.names.last() == path.names@[n - 1]@);
    same_units(&path.names[n - 1], name)
}

/// Whether a scanned replacement may be used: one that was stopped may not.
pub fn accept_scan(report: &Report) -> (r: Result<(), String>)
    ensures
        match r {
            Ok(_) => !report.cancelled,
            Err(e) => report.cancelled && e@
                == "재스캔 중 읽기 오류가 있어 기존 결과를 유지합니다. "@ + (if report@.issues.len()
                > 0 {
                report@.issues[0]
            } else {
                "스캔 중지"@
            }),
        },
{
    if !report.cancelled {
        return Ok(());
    }
    assert(report@.issues.len() == report.issues@.len());
    if report.issues.len() > 0 {
        assert(report@.issues[0] == report.issues@[0]@);
        Err(
            join2(
                "재스캔 중 읽기 오류가 있어 기존 결과를 유지합니다. ",
                report.issues[0].as_str(),
            ),
        )
    } else {
        Err(join2("재스캔 중 읽기 오류가 있어 기존 결과를 유지합니다. ", "스캔 중지"))
    }
}

/// The progress of the scan inside a refresh, with the note of the refresh.
pub fn scan_progress(base: &Report, target: usize, progress: Progress) -> (r: Progress)
    requires
        target < base@.nodes.len(),
    ensures
        r@ == progress@.noted(
            "부분 재스캔 중: "@ + base@.nodes[target as int].path.text()
                + " · 완료 후 지도에 적용"@,
        ),
{
    let text = base.nodes[target].path.text();
    assert(base.nodes@[target as int]@ == base@.nodes[target as int]);
    let mut r = progress;
    r.note = join3("부분 재스캔 중: ", text.as_str(), " · 완료 후 지도에 적용");
    r
}

/// The progress of reading the direct files of a folder above the refreshed one.
pub fn reading_progress(base: &Report, id: usize) -> (r: Progress)
    requires
        id < base@.nodes.len(),
    ensures
        r@ == (ProgressView {
            current: base@.nodes[id as int].path,
            ..ProgressView::starting(
                FOLDER_ENGINE@,
                "상위 폴더의 직속 파일 정보 갱신 중…"@,
            )
        }),
{
    assert(base.nodes@[id as int]@ == base@.nodes[id as int]);
    Progress {
        engine: FOLDER_ENGINE,
        note: "상위 폴더의 직속 파일 정보 갱신 중…".to_string(),
        current: base.nodes[id].path.clone(),
        ..Default::default()
    }
}

/// A folder of which nothing but its own date is known.
pub open spec fn direct_start(path: PathView, modified: Option<Timestamp>) -> NodeView {
    NodeView { modified, missing_modified: modified is None, ..NodeView::fresh(path, None) }
}

/// The start of reading the direct files of a folder: what its metadata says.
pub fn read_direct(
    path: &FolderPath,
    metadata: Result<(bool, bool, Option<Timestamp>), String>,
) -> (r: Result<Node, String>)
    ensures
        r matches Ok(node) ==> metadata is Ok && node@ == direct_start(path@, metadata->Ok_0.2),
        match metadata {
            Err(e) => r is Err && r->Err_0@ == e@,
            Ok((folder, link, modified)) => if folder && !link {
                r is Ok && r->Ok_0@ == (NodeView {
                    modified,
                    missing_modified: modified is None,
                    ..NodeView::fresh(path@, None)
                })
            } else {
                r is Err && r->Err_0@ == "상위 폴더 형식이 변경되었습니다."@
            },
        },
{
    match metadata {
        Err(e) => Err(e),
        Ok((folder, link, modified)) => if folder && !link {
            let mut node = Node::new(path.clone(), None);
            node.modified = modified;
            node.missing_modified = modified.is_none();
            Ok(node)
        } else {
            Err("상위 폴더 형식이 변경되었습니다.".to_string())
        },
    }
}

/// Why the direct files of a folder could not be listed.
pub fn direct_listing_error(path: &FolderPath, error: &str) -> (r: String)
    ensures
        r@ == "상위 폴더 읽기 실패: "@ + (path@.text() + ": "@ + error@),
{
    let told = join3(path.text().as_str(), ": ", error);
    join2("상위 폴더 읽기 실패: ", told.as_str())
}

/// A folder whose direct files are read, after one more entry. Subfolders do not count.
pub open spec fn with_direct_entry(
    node: NodeView,
    found: FoundView,
    cancelled: bool,
) -> Result<NodeView, Seq<char>> {
    if cancelled {
        Err(stopped())
    } else {
        match found {
            FoundView::Unreadable(e) => Err(e),
            FoundView::NoMetadata(name, e) => Err(
                "상위 항목 읽기 실패: "@ + (node.path.join(name).text() + ": "@ + e),
            ),
            FoundView::Link => Ok(NodeView { incomplete: true, ..node }),
            FoundView::File(bytes, modified, accessed) => Ok(
                with_file(node, bytes, modified, accessed),
            ),
            FoundView::Folder(_) => Ok(node),
            FoundView::Other => Ok(node),
        }
    }
}

/// Takes in one entry of a folder whose direct files are read.
pub fn direct_entry(node: Node, found: Found, cancelled: bool) -> (r: Result<Node, String>)
    ensures
        match r {
            Ok(n) => with_direct_entry(node@, found@, cancelled) == Ok::<NodeView, Seq<char>>(n@),
            Err(e) => with_direct_entry(node@, found@, cancelled) == Err::<NodeView, Seq<char>>(e@),
        },
{
    check_cancel(cancelled)?;
    let mut node = node;
    match found {
        Found::Unreadable(e) => Err(e),
        Found::NoMetadata(name, e) => {
            let told = join3(node.path.join(&name).text().as_str(), ": ", e.as_str());
            Err(join2("상위 항목 읽기 실패: ", told.as_str()))
        },
        Found::Link => {
            node.incomplete = true;
            Ok(node)
        },
        Found::File(bytes, modified, accessed) => {
            node.count_file(bytes, modified, accessed);
            Ok(node)
        },
        Found::Folder(_) => Ok(node),
        Found::Other => Ok(node),
    }
}

/// A folder with the direct files that a map knew.
pub open spec fn known_direct(tree: Seq<NodeView>, id: int) -> NodeView {
    NodeView { files: direct_files(tree, id), incomplete: true, ..tree[id] }
}

/// What the old map knew of the direct files of a folder, and what is told about that.
pub fn direct_fallback(base: &Report, id: usize, error: &str) -> (r: (Node, String))
    requires
        shaped(base@.nodes),
        id < base@.nodes.len(),
    ensures
        r.0@ == known_direct(base@.nodes, id as int),
        r.0@ == (NodeView {
            files: direct_files(base@.nodes, id as int),
            incomplete: true,
            ..base@.nodes[id as int]
        }),
        r.1@ == base@.nodes[id as int].path.text() + ": "@ + (error@
            + " (직속 파일은 이전 집계 유지)"@),
{
    let ghost tree = base@.nodes;
    assert(tree[id as int] == base.nodes@[id as int]@);
    proof {
        assert(tree[id as int].children == children_of(tree, id as int, tree.len() as int));
        children_follow(tree, id as int, tree.len() as int);
    }
    let mut node = base.nodes[id].clone();
    node.files = count_direct_files(&base.nodes, id);
    node.incomplete = true;
    let told = join2(error, " (직속 파일은 이전 집계 유지)");
    let issue = join3(base.nodes[id].path.text().as_str(), ": ", told.as_str());
    (node, issue)
}

/// The note of a refreshed map.
pub open spec fn refresh_note(path: PathView, removed: bool) -> Seq<char> {
    "부분 갱신: "@ + path.text() + ((if removed {
        " (삭제 확인)"@
    } else {
        ""@
    }) + " · 읽기 실패한 항목과 범위 밖 폴더는 이전 집계 유지. 오류·제외 수와 상세는 누적 진단입니다."@)
}

/// The problems of a refreshed map with those met on the way up.
pub open spec fn all_issues(told: Seq<Seq<char>>, problems: Seq<Seq<char>>) -> Seq<Seq<char>> {
    at_most(told + problems, MAX_ISSUES as int)
}

/// The errors of a refreshed map with those met on the way up.
pub open spec fn all_errors(counted: int, problems: int) -> u64 {
    saturated(counted + problems)
}

/// The refreshed map: the merge, with the problems met on the way up.
pub fn finish(
    base: &Report,
    state: Refresh,
    replacement: Option<&Report>,
    direct: &HashMap<usize, Node>,
    problems: &Vec<String>,
    elapsed: Duration,
) -> (r: Result<Report, String>)
    requires
        state.valid(base@.nodes),
        state.phase is Merging,
        can_merge(base@.nodes, state.effective() as int, nodes_of(view_of(replacement))),
    ensures
        ({
            let at = state.effective() as int;
            match r {
                Err(e) => replacement is Some && !replacement->0@.nodes[0].path.same(
                    base@.nodes[at].path,
                ) && e@ == "재스캔 경로가 일치하지 않습니다."@,
                Ok(m) => {
                    let merged = merged_progress(base@, at, view_of(replacement), m@.nodes);
                    &&& replacement matches Some(new) ==> new@.nodes[0].path.same(
                        base@.nodes[at].path,
                    )
                    &&& is_merge(
                        base@.nodes,
                        at,
                        nodes_of(view_of(replacement)),
                        direct_views(direct@),
                        m@.nodes,
                    )
                    &&& shaped(m@.nodes)
                    &&& m@.issues == all_issues(
                        merged_issues(base@, view_of(replacement)),
                        texts_of(problems@),
                    )
                    &&& m@.progress.errors == all_errors(
                        merged.errors as int,
                        problems@.len() as int,
                    )
                    &&& m@.progress == (ProgressView {
                        errors: saturated(merged.errors + problems@.len()),
                        note: refresh_note(base@.nodes[at].path, state.removed is Some),
                        ..merged
                    })
                    &&& m@.issues == at_most(
                        merged_issues(base@, view_of(replacement)) + texts_of(problems@),
                        MAX_ISSUES as int,
                    )
                    &&& m.cancelled == base.cancelled
                    &&& !m.scanning
                    &&& m.elapsed == elapsed
                },
            }
        }),
{
    let at: usize = match state.removed {
        Some(gone) => gone,
        None => state.target,
    };
    assert(base.nodes@[at as int]@ == base@.nodes[at as int]);
    let mut merged = merge(base, at, replacement, direct)?;
    merged.progress.errors = merged.progress.errors.saturating_add(problems.len() as u64);
    append_texts(&mut merged.issues, problems);
    merged.elapsed = elapsed;
    let mark = join2(
        if state.removed.is_some() {
            " (삭제 확인)"
        } else {
            ""
        },
        " · 읽기 실패한 항목과 범위 밖 폴더는 이전 집계 유지. 오류·제외 수와 상세는 누적 진단입니다.",
    );
    let note = join3("부분 갱신: ", base.nodes[at].path.text().as_str(), mark.as_str());
    Ok(note_report(merged, note.as_str()))
}

} // verus!
