use diskusagemap::anchor::Anchor;
use diskusagemap::app::DiskApp;
use diskusagemap::cache::restore::load;
use diskusagemap::cache::snapshot::{save, Cached, Request};
use diskusagemap::i18n::Language;
use diskusagemap::merge::merge;
use diskusagemap::path::FolderPath;
use diskusagemap::preserve::preserve_failed;
use diskusagemap::scan::{check_root, Event, Found, Progress, Report, Scanner};
use diskusagemap::subtree::{
    accept_scan, begin, check_cancel, direct_entry, direct_fallback, finish, read_direct,
    reading_progress, scan_progress, step, Answer, Phase,
};
use diskusagemap::time::{Duration, Timestamp};
use diskusagemap::tree::{is_shaped, Node};
use diskusagemap::updates::{
    after_volume, conclude, fallback_note, folder_note, restart, with_note, Due, Next, Updates,
};
use std::collections::HashMap;
use std::sync::Arc;

fn seconds(n: i128) -> Timestamp {
    Timestamp::from_nanos(n * 1_000_000_000).unwrap()
}
fn took() -> Duration {
    Duration {
        seconds: 2,
        nanos: 5,
    }
}
fn units(text: &str) -> Vec<u16> {
    text.encode_utf16().collect()
}
fn slash() -> Anchor {
    Anchor {
        root: units("/"),
        rooted: true,
        absolute: true,
        separator: 47,
        verbatim: false,
    }
}
fn path(text: &str) -> FolderPath {
    slash().read(&units(&format!("/{}", text.trim_start_matches('/'))))
}

/// A folder on a disk in memory.
#[derive(Clone)]
struct Dir {
    name: String,
    dirs: Vec<Dir>,
    files: Vec<(String, u64, i128)>,
    readable: bool,
    link: bool,
}

impl Dir {
    fn new(name: &str) -> Dir {
        Dir {
            name: name.into(),
            dirs: vec![],
            files: vec![],
            readable: true,
            link: false,
        }
    }
    fn at(&self, path: &FolderPath) -> Option<&Dir> {
        let mut dir = self;
        for name in &path.names {
            dir = dir.dirs.iter().find(|d| &units(&d.name) == name)?;
        }
        Some(dir)
    }
    fn at_mut(&mut self, text: &str) -> &mut Dir {
        let mut dir = self;
        for name in text.split('/').filter(|n| !n.is_empty()) {
            if !dir.dirs.iter().any(|d| d.name == name) {
                dir.dirs.push(Dir::new(name));
            }
            dir = dir.dirs.iter_mut().find(|d| d.name == name).unwrap();
        }
        dir
    }
    fn write(&mut self, text: &str, size: u64) {
        self.write_at(text, size, 1_000);
    }
    fn write_at(&mut self, text: &str, size: u64, date: i128) {
        let (folder, name) = text.rsplit_once('/').unwrap_or(("", text));
        let dir = self.at_mut(folder);
        dir.files.retain(|f| f.0 != name);
        dir.files.push((name.into(), size, date));
    }
    fn remove(&mut self, text: &str) {
        let (folder, name) = text.rsplit_once('/').unwrap();
        self.at_mut(folder).dirs.retain(|d| d.name != name);
    }
    fn list(&self, path: &FolderPath) -> Result<Vec<Found>, String> {
        let dir = self.at(path).ok_or("missing")?;
        if !dir.readable {
            return Err("locked".into());
        }
        let mut found = vec![];
        for (_, size, date) in &dir.files {
            found.push(Found::File(
                *size,
                Some(seconds(*date)),
                Some(seconds(*date)),
            ));
        }
        for d in &dir.dirs {
            found.push(if d.link {
                Found::Link
            } else {
                Found::Folder(units(&d.name))
            });
        }
        Ok(found)
    }
}

fn scan_with(
    disk: &Dir,
    root: &FolderPath,
    base: Option<&Report>,
    mut preview: impl FnMut(&Scanner) -> bool,
) -> Report {
    let mut scanner = Scanner::new(root.clone());
    let mut cancelled = preview(&scanner);
    while !cancelled {
        let Some(here) = scanner.next_folder() else {
            break;
        };
        if let Some(d) = disk.at(&here) {
            if !scanner.describe(d.link, Some(seconds(1))) {
                continue;
            }
        }
        match disk.list(&here) {
            Err(e) => scanner.entry(Found::Unreadable(e)),
            Ok(entries) => {
                for entry in entries {
                    if cancelled {
                        break;
                    }
                    scanner.entry(entry);
                    cancelled = preview(&scanner);
                }
            }
        }
        scanner.close();
    }
    scanner.finish(base, cancelled, took())
}
fn scan(disk: &Dir, root: &str) -> Report {
    scan_with(disk, &path(root), None, |_| false)
}
fn id(report: &Report, text: &str) -> usize {
    let wanted = path(text);
    report.nodes.iter().position(|n| n.path == wanted).unwrap()
}
fn check_tree(r: &Report) {
    for (id, n) in r.nodes.iter().enumerate() {
        let sum = n.children.iter().fold(n.own_bytes, |sum, &c| {
            assert!(c > id);
            assert_eq!(r.nodes[c].parent, Some(id));
            sum + r.nodes[c].bytes
        });
        assert_eq!(n.bytes, sum);
    }
    assert_eq!(r.progress.bytes, r.nodes[0].bytes);
    assert_eq!(r.progress.files, r.nodes[0].files);
}
fn keep(report: &Report) -> Cached {
    let root = Ok(report.nodes[0].path.written.clone());
    let rows = save(report, seconds(5_000), &root, false).unwrap();
    let anchors: Vec<Anchor> = report.nodes.iter().map(|_| slash()).collect();
    load(&rows, &anchors, &root, false).unwrap()
}

fn probe(disk: &Dir, path: &FolderPath) -> Answer {
    match disk.at(path) {
        None => Answer::Missing("not found".into()),
        Some(d) if d.link => Answer::NotFolder,
        Some(_) => Answer::Folder,
    }
}

/// Refreshes a folder. `between` runs before each step and may change the disk.
fn refresh_while(
    disk: &mut Dir,
    base: &Report,
    target: usize,
    mut between: impl FnMut(&mut Dir, Phase) -> bool,
) -> Result<Report, String> {
    let mut state = begin(base, target, between(disk, Phase::Locating))?;
    let mut replacement = None;
    let mut direct = HashMap::new();
    let mut problems = vec![];
    loop {
        let cancelled = between(disk, state.phase);
        match state.phase {
            Phase::Locating => {
                let answer = probe(disk, &base.nodes[state.cursor].path);
                state = step(base, state, answer, cancelled)?;
            }
            Phase::Confirming(at) => {
                let answer = probe(disk, &base.nodes[at].path);
                state = step(base, state, answer, cancelled)?;
            }
            Phase::Listing => {
                let folder = base.nodes[state.cursor].path.clone();
                match disk.list(&folder) {
                    Err(e) => {
                        step(base, state, Answer::Unreadable(e), cancelled)?;
                    }
                    Ok(_) => {
                        for d in &disk.at(&folder).unwrap().dirs {
                            let answer = Answer::Entry(units(&d.name));
                            state = step(base, state, answer, cancelled)?;
                        }
                    }
                }
                state = step(base, state, Answer::End, cancelled)?;
            }
            Phase::Scanning => {
                let scanned = scan_with(disk, &base.nodes[target].path, Some(base), |_| cancelled);
                let stopped = between(disk, state.phase);
                check_cancel(stopped)?;
                accept_scan(&scanned)?;
                state = step(base, state, Answer::Scanned, stopped)?;
                replacement = Some(scanned);
            }
            Phase::Reading(at) => {
                check_cancel(cancelled)?;
                let folder = base.nodes[at].path.clone();
                let read = || {
                    let mut node = read_direct(&folder, Ok((true, false, Some(seconds(1)))))?;
                    for found in disk.list(&folder)? {
                        node = direct_entry(node, found, false)?;
                    }
                    Ok::<Node, String>(node)
                };
                match read() {
                    Ok(node) => {
                        direct.insert(at, node);
                    }
                    Err(e) => {
                        let (node, problem) = direct_fallback(base, at, &e);
                        direct.insert(at, node);
                        problems.push(problem);
                    }
                }
                state = step(base, state, Answer::Read, cancelled)?;
            }
            Phase::Replaced => return Ok(replacement.unwrap()),
            Phase::Merging => {
                return finish(base, state, replacement.as_ref(), &direct, &problems, took());
            }
        }
    }
}
fn refresh(disk: &mut Dir, base: &Report, target: usize) -> Result<Report, String> {
    refresh_while(disk, base, target, |_, _| false)
}

fn nested() -> Dir {
    let mut disk = Dir::new("");
    disk.write("t/root.bin", 11);
    disk.write("t/a/b/data.bin", 29);
    disk.at_mut("t/empty");
    disk
}

#[test]
fn aggregates_nested_files_and_empty_folders() {
    let r = scan(&nested(), "/t");
    assert_eq!(r.nodes[0].bytes, 40);
    assert_eq!(r.nodes[0].own_bytes, 11);
    assert_eq!(r.nodes[0].files, 2);
    assert_eq!(r.nodes.len(), 4);
    assert!(!r.nodes[0].incomplete);
    assert_eq!(r.nodes.iter().find(|n| n.name() == "a").unwrap().bytes, 29);
    check_tree(&r);
}

#[test]
fn preview_precedes_completion_without_corrupting_final_totals() {
    let mut previews = 0;
    let mut updates = Updates::new(0, 0);
    let r = scan_with(&nested(), &path("/t"), None, |scanner| {
        if updates.due(1, scanner.progress().bytes) == Due::Preview {
            let p = scanner.snapshot(took());
            updates.previewed(1, 1);
            previews += 1;
            assert!(p.scanning && !p.cancelled);
            assert!(p.nodes[0].incomplete);
            assert_eq!(p.nodes[0].bytes, 11);
            assert_eq!(p.nodes[0].files, 1);
            assert_eq!(p.progress.bytes, p.nodes[0].bytes);
        }
        false
    });
    assert_eq!(previews, 1);
    assert_eq!(r.nodes[0].bytes, 40);
    assert_eq!(r.nodes[0].files, 2);
    assert!(!r.scanning && !r.nodes[0].incomplete);
}

#[test]
fn cancellation_after_preview_keeps_partial_totals() {
    let r = scan_with(&nested(), &path("/t"), None, |s| s.progress().bytes > 0);
    assert!(r.cancelled && !r.scanning && r.nodes[0].incomplete);
    assert_eq!(r.nodes[0].bytes, 11);
    assert_eq!(r.nodes[0].files, 1);
}

#[test]
fn cancellation_marks_partial_results() {
    let r = scan_with(&nested(), &path("/t"), None, |_| true);
    assert!(r.cancelled && r.nodes[0].incomplete);
}

#[test]
fn invalid_root_is_an_error() {
    assert_eq!(
        check_root(Err("gone".into())).unwrap_err(),
        "경로를 읽을 수 없습니다: gone"
    );
    let refused = "일반 디렉터리 또는 드라이브 루트를 선택하세요 (링크 제외).";
    assert_eq!(check_root(Ok((false, false))).unwrap_err(), refused);
    assert_eq!(check_root(Ok((true, true))).unwrap_err(), refused);
    assert!(check_root(Ok((true, false))).is_ok());
}

#[test]
fn automatic_scan_uses_directory_backend_for_folder_paths() {
    let mut disk = Dir::new("");
    disk.write("t/file.bin", 7);
    let r = conclude(scan(&disk, "/t"), folder_note(), false);
    assert_eq!(r.progress.engine, "폴더 열거");
    assert_eq!(r.nodes[0].bytes, 7);
    assert!(!r.progress.note.is_empty());
}

#[test]
fn notes_say_how_a_scan_was_made() {
    let note = fallback_note("지원하지 않는 NTFS 버전");
    assert_eq!(
        note,
        "MFT를 사용할 수 없어 폴더 열거로 전환: 지원하지 않는 NTFS 버전"
    );
    let p = restart(&note);
    assert_eq!(p.engine, "폴더 열거");
    assert_eq!(p.note, note);
    match with_note(Event::Progress(Progress::default()), "n") {
        Event::Progress(p) => assert_eq!(p.note, "n"),
        _ => panic!("Expected progress"),
    }
    match with_note(Event::Failed("e".into()), "n") {
        Event::Failed(e) => assert_eq!(e, "e"),
        _ => panic!("Expected a failure"),
    }
    let mut r = scan(&nested(), "/t");
    r.progress.errors = 1;
    match with_note(Event::Preview(r.clone()), "n") {
        Event::Preview(r) => assert_eq!(r.progress.note, "n"),
        _ => panic!("Expected a preview"),
    }
    assert_eq!(
        conclude(r.clone(), "n".into(), true).progress.note,
        "n · 읽기 실패한 부분은 이전 집계를 유지했습니다."
    );
    assert_eq!(conclude(r, "n".into(), false).progress.note, "n");
}

#[test]
fn updates_are_spaced_by_their_cost() {
    let mut u = Updates::new(1_000, 250_000_000);
    assert_eq!(u.due(2_000, 5), Due::Nothing);
    assert_eq!(u.due(100_001_000, 5), Due::Progress);
    u.told(100_001_000);
    assert_eq!(u.due(100_002_000, 5), Due::Nothing);
    assert_eq!(u.due(250_001_000, 5), Due::Preview);
    assert_eq!(u.due(250_001_000, 0), Due::Progress);
    u.previewed(250_001_000, 250_001_010);
    assert_eq!(u.preview_at, 1_250_001_010);
    u.previewed(0, 100_000_000);
    assert_eq!(u.preview_at, 2_100_000_000);
    u.previewed(0, u64::MAX);
    assert_eq!(u.preview_at, u64::MAX);
}

#[test]
fn a_path_stays_as_it_was_written() {
    let mut disk = Dir::new("");
    disk.write("t/a/1.bin", 1);
    let typed = slash().read(&units("/t//"));
    assert_eq!(typed, path("/t"));
    let r = scan_with(&disk, &typed, None, |_| false);
    assert_eq!(r.nodes[0].path.text(), "/t//");
    assert_eq!(r.nodes[0].name(), "t");
    assert_eq!(r.nodes[1].path.text(), "/t//a");
    let rows = save(&r, seconds(1), &Ok(units("/t//")), false).unwrap();
    assert_eq!(rows.nodes[0].path, b"/t//");
    assert_eq!(rows.nodes[1].path, b"/t//a");
    assert_eq!(keep(&r).report.nodes[1].path.text(), "/t//a");
    // The same folder under another spelling takes its place.
    let merged = merge(&r, id(&r, "/t/a"), Some(&scan(&disk, "/t/a")), &HashMap::new()).unwrap();
    assert_eq!(merged.nodes[1].path.text(), "/t/a");
}

#[test]
fn folders_are_opened_in_the_order_found_and_once() {
    let mut disk = Dir::new("");
    for file in ["t/b/x/1", "t/a/y/z/2", "t/a/w/3", "t/c/4"] {
        disk.write(file, 1);
    }
    let mut scanner = Scanner::new(path("/t"));
    let mut opened = vec![];
    while let Some(folder) = scanner.next_folder() {
        opened.push(folder.text());
        assert!(scanner.describe(false, None));
        for dir in &disk.at(&folder).unwrap().dirs {
            scanner.entry(Found::Folder(units(&dir.name)));
        }
        scanner.close();
    }
    assert!(!scanner.has_next());
    assert_eq!(opened.len(), 8);
    let depth = |text: &String| text.matches('/').count();
    assert!(opened.windows(2).all(|w| depth(&w[0]) <= depth(&w[1])));
    let r = scanner.finish(None, false, took());
    let found: Vec<String> = r.nodes.iter().map(|n| n.path.text()).collect();
    assert_eq!(opened, found);
    assert!(is_shaped(&r.nodes));
    let mut moved = r.clone();
    moved.nodes[0].children.reverse();
    assert!(!is_shaped(&moved.nodes));
    moved.nodes[0].children.reverse();
    moved.nodes[1].parent = Some(1);
    assert!(!is_shaped(&moved.nodes) && !is_shaped(&vec![]));
}

#[test]
fn links_are_not_listed() {
    let mut scanner = Scanner::new(path("/t"));
    scanner.next_folder();
    assert!(!scanner.describe(true, None));
    assert_eq!(scanner.progress().skipped, 1);
}

#[test]
fn a_volume_that_cannot_be_read_is_listed() {
    match after_volume(Some(Err("denied".into()))) {
        Next::List(note, Some(p)) => {
            assert_eq!(note, "MFT를 사용할 수 없어 폴더 열거로 전환: denied");
            assert_eq!(p.note, note);
            assert_eq!(p.engine, "폴더 열거");
        }
        _ => panic!("Expected a new start"),
    }
    match after_volume(None) {
        Next::List(note, None) => assert_eq!(note, folder_note()),
        _ => panic!("Expected a plain listing"),
    }
    let r = scan(&nested(), "/t");
    match after_volume(Some(Ok(r))) {
        Next::Show(r) => assert_eq!(r.nodes[0].bytes, 40),
        _ => panic!("Expected the map"),
    }
}

#[test]
fn previews_of_a_run_are_a_second_or_twenty_times_their_cost_apart() {
    let (mut u, mut now) = (Updates::new(0, 0), 0);
    let mut previews: Vec<(u64, u64)> = vec![];
    while now < 20_000_000_000 {
        if u.due(now, 1) == Due::Preview {
            let cost = previews.len() as u64 * 40_000_000;
            u.previewed(now, now + cost);
            previews.push((now, cost));
        }
        now += 10_000_000;
    }
    assert!(previews.len() > 5);
    for pair in previews.windows(2) {
        let pause = pair[1].0 - pair[0].0;
        assert!(pause >= 1_000_000_000 && pause >= 20 * pair[0].1);
    }
}

#[test]
fn merged_maps_hold_each_folder_once_and_in_order() {
    let mut disk = Dir::new("");
    disk.write("t/a/1.bin", 1);
    disk.write("t/b/x/2.bin", 2);
    disk.write("t/c/3.bin", 3);
    let base = scan(&disk, "/t");
    let mut later = Dir::new("");
    later.write("t/b/y/4.bin", 4);
    later.write("t/b/z/5.bin", 5);
    let merged = merge(
        &base,
        id(&base, "/t/b"),
        Some(&scan(&later, "/t/b")),
        &HashMap::new(),
    )
    .unwrap();
    let names = |r: &Report, text: &str| -> Vec<String> {
        r.nodes[id(r, text)]
            .children
            .iter()
            .map(|&c| r.nodes[c].path.text())
            .collect()
    };
    assert_eq!(names(&merged, "/t"), names(&base, "/t"));
    assert_eq!(names(&merged, "/t/b"), names(&scan(&later, "/t/b"), "/t/b"));
    assert_eq!(merged.nodes.len(), 6);
    for n in &merged.nodes {
        let same = merged.nodes.iter().filter(|m| m.path == n.path).count();
        assert_eq!(same, 1);
        assert_ne!(n.path, path("/t/b/x"));
    }
    let whole = merge(&base, 0, Some(&scan(&later, "/t")), &HashMap::new()).unwrap();
    assert_eq!(whole.nodes.len(), 4);
    assert_eq!(whole.nodes[0].bytes, 9);
    assert_eq!(names(&whole, "/t"), vec!["/t/b"]);
}

#[test]
fn latest_descendant_timestamp_reaches_root() {
    let mut disk = nested();
    disk.write_at("t/a/b/new.bin", 0, 2_000_000_000);
    let r = scan(&disk, "/t");
    assert_eq!(r.nodes[0].modified, Some(seconds(2_000_000_000)));
    assert_eq!(r.nodes[0].accessed, Some(seconds(2_000_000_000)));
}

#[test]
fn unknown_and_future_dates_are_conservative() {
    let mut n = Node::new(FolderPath::empty(), None);
    let now = seconds(1_000_000);
    assert_eq!(n.age_days(true, now), None);
    n.accessed = Some(seconds(1_000_100));
    assert_eq!(n.age_days(true, now), Some(0));
    n.missing_accessed = true;
    assert_eq!(n.age_days(true, now), None);
    n.modified = Some(seconds(1_000_000 - 2 * 86_400 + 1));
    assert_eq!(n.age_days(false, now), Some(1));
}

#[test]
fn links_are_skipped_and_flagged() {
    let mut disk = nested();
    disk.at_mut("t/a/b/cycle").link = true;
    let r = scan(&disk, "/t");
    assert_eq!(r.nodes.len(), 4);
    assert_eq!(r.progress.skipped, 1);
    assert!(r.nodes[0].incomplete);
}

#[test]
fn scan_problems_are_told_up_to_a_hundred() {
    let mut scanner = Scanner::new(path("/t"));
    scanner.next_folder().unwrap();
    scanner.entry(Found::NoMetadata(units("x"), "denied".into()));
    for _ in 0..150 {
        scanner.entry(Found::Unreadable("bad".into()));
    }
    scanner.entry(Found::Other);
    scanner.close();
    let r = scanner.finish(None, false, took());
    assert_eq!(r.progress.errors, 151);
    assert_eq!(r.issues.len(), 100);
    assert_eq!(r.issues[0], "/t: /t/x: denied");
    assert_eq!(r.issues[1], "/t: bad");
    assert!(r.nodes[0].incomplete);
}

fn home() -> Dir {
    let mut disk = Dir::new("");
    disk.write("root/root.bin", 3);
    disk.write("root/a/a.bin", 5);
    disk.write("root/a/nested/n.bin", 7);
    disk.write("root/b/b.bin", 13);
    disk
}

#[test]
fn replaces_only_selected_subtree_and_persists_whole_map() {
    let mut disk = home();
    let old = scan(&disk, "/root");
    let at = id(&old, "root/a");
    disk.remove("root/a/nested");
    disk.write("root/a/a.bin", 9);
    disk.write("root/a/new/new.bin", 17);
    disk.write("root/b/b.bin", 99); // outside selected scope
    let r = refresh(&mut disk, &old, at).unwrap();
    assert_eq!(r.nodes[0].bytes, 42);
    assert_eq!(r.nodes[0].files, 4);
    assert_eq!(r.nodes[id(&r, "root/b")].bytes, 13);
    assert!(!r.nodes.iter().any(|n| n.name() == "nested"));
    check_tree(&r);
    let restored = keep(&r);
    assert_eq!(restored.report.nodes[0].bytes, 42);
    assert_eq!(restored.report.nodes[0].path, old.nodes[0].path);
    assert!(restored.report.progress.note.starts_with("부분 갱신:"));
    check_tree(&restored.report);
}

#[test]
fn deleted_current_folder_is_removed_and_totals_shrink() {
    let mut disk = home();
    let old = scan(&disk, "/root");
    let at = id(&old, "root/a/nested");
    disk.remove("root/a/nested");
    let r = refresh(&mut disk, &old, at).unwrap();
    assert_eq!(r.nodes[0].bytes, 21);
    assert_eq!(r.nodes[0].files, 3);
    assert_eq!(r.nodes[id(&r, "root/a")].bytes, 5);
    assert!(r.progress.note.contains(" (삭제 확인)"));
    check_tree(&r);
}

#[test]
fn deleted_ancestor_is_removed_but_missing_root_is_not() {
    let mut disk = home();
    let old = scan(&disk, "/root");
    let at = id(&old, "root/a/nested");
    disk.remove("root/a");
    let r = refresh(&mut disk, &old, at).unwrap();
    assert_eq!(r.nodes[0].bytes, 16);
    assert_eq!(r.nodes.len(), 2);
    check_tree(&r);
    disk.dirs.clear();
    assert_eq!(
        refresh(&mut disk, &old, at).unwrap_err(),
        "경로를 확인할 수 없어 기존 결과를 유지합니다: /root: not found"
    );
    assert_eq!(old.nodes[0].bytes, 28);
}

#[test]
fn deleting_newest_file_recomputes_ancestor_dates() {
    let mut disk = home();
    disk.write_at("root/a/nested/n.bin", 7, 2_500_000_000);
    let future = seconds(2_500_000_000);
    let old = scan(&disk, "/root");
    assert_eq!(old.nodes[0].modified, Some(future));
    let at = id(&old, "root/a");
    disk.remove("root/a/nested");
    let r = refresh(&mut disk, &old, at).unwrap();
    assert!(r.nodes[0].modified.unwrap() < future);
    assert!(r.nodes[0].accessed.unwrap() < future);
}

#[test]
fn cancellation_or_changed_type_never_replaces_original() {
    let mut disk = home();
    let old = scan(&disk, "/root");
    let at = id(&old, "root/a");
    let stopped = "부분 재스캔을 중지했습니다. 기존 지도와 저장 결과를 유지합니다.";
    assert_eq!(
        refresh_while(&mut disk, &old, at, |_, _| true).unwrap_err(),
        stopped
    );
    for phase in [Phase::Scanning, Phase::Reading(0)] {
        assert_eq!(
            refresh_while(&mut disk, &old, at, |_, p| p == phase).unwrap_err(),
            stopped
        );
    }
    disk.at_mut("root/a").link = true;
    assert_eq!(
        refresh(&mut disk, &old, at).unwrap_err(),
        "경로가 일반 폴더가 아닙니다. 상위 폴더를 재스캔하세요."
    );
    assert_eq!(old.nodes[0].bytes, 28);
}

#[test]
fn refresh_refuses_what_is_unclear() {
    let mut disk = home();
    let old = scan(&disk, "/root");
    assert_eq!(
        refresh(&mut disk, &old, 99).unwrap_err(),
        "재스캔할 완료된 폴더 결과가 없습니다."
    );
    let at = id(&old, "root/a/nested");
    // The folder above becomes a link after the target was found.
    let error = refresh_while(&mut disk, &old, at, |disk, p| {
        if let Phase::Confirming(_) = p {
            disk.at_mut("root/a").link = true;
        }
        false
    });
    assert_eq!(
        error.unwrap_err(),
        "상위 경로가 링크 또는 다른 형식으로 변경되어 기존 결과를 유지합니다."
    );
    // The folder comes back before its absence is confirmed.
    let mut disk = home();
    disk.remove("root/a/nested");
    let error = refresh_while(&mut disk, &old, at, |disk, p| {
        if p == Phase::Listing {
            disk.at_mut("root/a/nested");
        }
        false
    });
    assert_eq!(
        error.unwrap_err(),
        "경로가 다시 나타났습니다. 기존 결과를 유지합니다. 재스캔을 다시 실행하세요."
    );
    // The folder above cannot be listed.
    let mut disk = home();
    disk.remove("root/a/nested");
    disk.at_mut("root/a").readable = false;
    assert_eq!(refresh(&mut disk, &old, at).unwrap_err(), "locked");
    let mut stopped = scan(&disk, "/root");
    stopped.cancelled = true;
    stopped.issues.clear();
    assert_eq!(
        accept_scan(&stopped).unwrap_err(),
        "재스캔 중 읽기 오류가 있어 기존 결과를 유지합니다. 스캔 중지"
    );
    let failed = step(
        &old,
        begin(&old, at, false).unwrap(),
        Answer::Failed("denied".into()),
        false,
    );
    assert_eq!(
        failed.unwrap_err(),
        "경로를 확인할 수 없어 기존 결과를 유지합니다: /root/a/nested: denied"
    );
}

#[test]
fn locked_child_keeps_old_data_while_siblings_refresh_and_cache_roundtrips() {
    let mut disk = home();
    disk.write("root/a/nested/deeper/file.bin", 2);
    disk.write("root/a/deleted/file.bin", 19);
    disk.write("root/a/ok/file.bin", 11);
    let old = scan(&disk, "/root");
    disk.remove("root/a/deleted");
    disk.write("root/a/ok/file.bin", 31);
    disk.write("root/a/a.bin", 9);
    disk.at_mut("root/a/nested").readable = false;
    let r = refresh(&mut disk, &old, id(&old, "root/a")).unwrap();
    assert!(r.progress.errors > 0);
    assert_eq!(r.nodes[id(&r, "root/a/nested")].bytes, 9);
    assert_eq!(r.nodes[id(&r, "root/a/nested/deeper")].bytes, 2);
    assert!(!r.nodes.iter().any(|n| n.name() == "deleted"));
    assert!(r.nodes[id(&r, "root/a/nested")].incomplete);
    assert_eq!(r.nodes[id(&r, "root/a/ok")].bytes, 31);
    assert!(!r.nodes[id(&r, "root/a/ok")].incomplete);
    assert_eq!(r.nodes[0].bytes, 65);
    assert_eq!(r.nodes[0].files, 6);
    check_tree(&r);
    let restored = keep(&r);
    check_tree(&restored.report);
    assert_eq!(restored.report.nodes[0].bytes, 65);
    let root_refresh = refresh(&mut disk, &old, 0).unwrap();
    assert_eq!(root_refresh.nodes[0].bytes, 65);
    check_tree(&root_refresh);
    disk.at_mut("root/a/nested").readable = true;
    let recovered = refresh(&mut disk, &r, id(&r, "root/a")).unwrap();
    assert!(!recovered.nodes[id(&recovered, "root/a/nested")].incomplete);
}

#[test]
fn ancestor_read_failure_does_not_discard_successful_subtree_refresh() {
    let mut disk = home();
    let old = scan(&disk, "/root");
    disk.write("root/a/a.bin", 25);
    let at = id(&old, "root/a");
    let r = refresh_while(&mut disk, &old, at, |disk, phase| {
        if phase == Phase::Reading(0) {
            disk.at_mut("root").readable = false;
        }
        false
    })
    .unwrap();
    assert_eq!(r.nodes[0].bytes, 48);
    assert_eq!(r.nodes[0].files, 4);
    assert!(r.nodes[0].incomplete);
    assert!(r.progress.errors > 0);
    assert_eq!(r.issues, vec!["/root: locked (직속 파일은 이전 집계 유지)"]);
    check_tree(&r);
}

#[test]
fn root_refresh_replaces_the_entire_map() {
    let mut disk = home();
    let old = scan(&disk, "/root");
    disk.remove("root/a");
    let r = refresh(&mut disk, &old, 0).unwrap();
    assert_eq!(r.nodes[0].bytes, 16);
    assert_eq!(r.nodes.len(), 2);
    check_tree(&r);
}

#[test]
fn refresh_selected_top_level_leaf_keeps_root_view_and_updates_db_snapshot() {
    let mut disk = Dir::new("");
    disk.write("r/$Recycle.Bin/deleted.bin", 37);
    disk.write("r/keep/keep.bin", 11);
    let mut app = DiskApp::new(Language::Korean, "/r".into(), vec![], seconds(9_000));
    app.replace_report(scan(&disk, "/r"));
    app.navigate(0);
    let selected = path("r/$Recycle.Bin");
    app.selected_path = Some(selected.clone());
    let target = app.selected_index().unwrap();
    assert_ne!(target, app.focus);
    app.cache = true;
    disk.at_mut("r/$Recycle.Bin").files.clear();
    let base = app.begin_subtree_scan(target).unwrap();
    let result = refresh(&mut disk, &base, target);
    let request = app.finish_subtree(result, seconds(9_000));
    assert!(app.error.is_none(), "{:?}", app.error);
    assert_eq!(app.focus, 0);
    assert_eq!(app.selected_path.as_ref(), Some(&selected));
    let report = Arc::clone(app.report.as_ref().unwrap());
    assert_eq!(report.nodes[0].bytes, 11);
    assert_eq!(report.nodes[app.selected_index().unwrap()].bytes, 0);
    match request {
        Some(Request::Save { report, .. }) => {
            assert_eq!(report.nodes[0].path, path("r"));
            assert_eq!(report.nodes[0].bytes, 11);
        }
        _ => panic!("Expected merged snapshot"),
    }
}

#[test]
fn refresh_progress_names_the_folder() {
    let base = scan(&home(), "/root");
    let at = id(&base, "root/a");
    let p = scan_progress(&base, at, Progress::default());
    assert_eq!(p.note, "부분 재스캔 중: /root/a · 완료 후 지도에 적용");
    let p = reading_progress(&base, 0);
    assert_eq!(p.engine, "폴더 열거");
    assert_eq!(p.note, "상위 폴더의 직속 파일 정보 갱신 중…");
    assert_eq!(p.current, path("root"));
}

#[test]
fn direct_reading_refuses_other_kinds() {
    let at = path("/x");
    assert_eq!(read_direct(&at, Err("gone".into())).unwrap_err(), "gone");
    assert_eq!(
        read_direct(&at, Ok((true, true, None))).unwrap_err(),
        "상위 폴더 형식이 변경되었습니다."
    );
    let node = read_direct(&at, Ok((true, false, None))).unwrap();
    assert!(node.missing_modified);
    let node = direct_entry(node, Found::Link, false).unwrap();
    assert!(node.incomplete);
    let node = direct_entry(node, Found::Folder(units("d")), false).unwrap();
    let node = direct_entry(node, Found::File(4, None, None), false).unwrap();
    assert_eq!((node.own_bytes, node.files), (4, 1));
    assert_eq!(
        direct_entry(node.clone(), Found::NoMetadata(units("y"), "no".into()), false).unwrap_err(),
        "상위 항목 읽기 실패: /x/y: no"
    );
    assert!(direct_entry(node, Found::Other, true).is_err());
}

#[test]
fn unreadable_folders_take_back_only_what_was_lost() {
    let old = scan(&home(), "/root");
    let mut nodes = vec![Node::new(path("root/a"), None)];
    preserve_failed(&mut nodes, &vec![0], &old.nodes);
    assert_eq!(nodes.len(), 2);
    assert_eq!(nodes[0].own_bytes, 5);
    assert_eq!(nodes[0].files, 1);
    assert_eq!(nodes[0].children, vec![1]);
    assert_eq!(nodes[1].path, path("root/a/nested"));
    assert_eq!((nodes[1].bytes, nodes[1].own_bytes), (0, 7));
    assert!(nodes[1].incomplete);
    let mut unknown = vec![Node::new(path("elsewhere"), None)];
    preserve_failed(&mut unknown, &vec![0], &old.nodes);
    assert_eq!(unknown.len(), 1);
    assert!(!unknown[0].incomplete);
}
