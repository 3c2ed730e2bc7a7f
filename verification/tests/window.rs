use diskusagemap::app::{start_paths, DiskApp};
use diskusagemap::cache::snapshot::{Cached, Event as CacheEvent, Request};
use diskusagemap::i18n::Language;
use diskusagemap::labels::demo_report;
use diskusagemap::path::FolderPath;
use diskusagemap::rank::{map_tiles, TileKind};
use diskusagemap::scan::{Event, Progress, Report};
use diskusagemap::subtree;
use diskusagemap::time::{Duration, Timestamp};
use diskusagemap::tree::Node;
use std::sync::Arc;

fn now() -> Timestamp {
    Timestamp::from_nanos(1_750_000_000_000_000_000).unwrap()
}
fn demo() -> Report {
    demo_report(now(), 47)
}
fn app() -> DiskApp {
    let mut app = DiskApp::new(Language::Korean, "Demo".into(), vec![], now());
    app.report = Some(Arc::new(demo()));
    app
}
fn path(names: &[&str]) -> FolderPath {
    let mut path = FolderPath::empty();
    for name in names {
        path = path.join(&name.encode_utf16().collect());
    }
    path
}

#[test]
fn late_cache_load_cannot_overwrite_newer_work() {
    let mut app = app();
    app.cache = true;
    app.cache_generation = 2;
    app.navigate(1);
    app.poll_cache(
        Some(CacheEvent::Loaded {
            generation: 1,
            result: Ok(Some(Cached {
                report: demo(),
                saved_at: now(),
            })),
        }),
        now(),
    );
    assert_eq!(app.focus, 1);
    assert!(app.cached_at.is_none());
    let at = now();
    app.poll_cache(
        Some(CacheEvent::Loaded {
            generation: 2,
            result: Ok(Some(Cached {
                report: demo(),
                saved_at: at,
            })),
        }),
        now(),
    );
    assert_eq!(app.cached_at, Some(at));
    assert!(!app.cache_loading);
    assert!(!app.candidates.is_empty());
}

#[test]
fn finished_scan_queues_shared_snapshot_and_cancelled_scan_does_not_save() {
    let mut app = app();
    app.cache = true;
    app.scanning = true;
    match app.poll(Some(Event::Finished(demo())), now()) {
        Some(Request::Save { report, .. }) => {
            assert!(Arc::ptr_eq(&report, app.report.as_ref().unwrap()))
        }
        _ => panic!("Expected snapshot save"),
    }
    app.save_sent(true);
    assert_eq!(app.cache_saves, 1);
    app.poll_cache(
        Some(CacheEvent::Saved {
            generation: 0,
            result: Ok(now()),
        }),
        now(),
    );
    assert_eq!(app.cache_saves, 0);
    assert!(app.cache_status.contains("DB 저장 완료"));
    let mut cancelled = demo();
    cancelled.cancelled = true;
    app.replace_report(cancelled);
    assert!(app.save_cache(now()).is_none());
}

#[test]
fn deleted_focus_moves_to_parent_and_merged_root_is_saved() {
    let mut app = app();
    app.cache = true;
    app.navigate(5);
    app.cached_at = Some(now());
    let mut report = demo();
    let removed = report.nodes[5].clone();
    let mut parent = removed.parent;
    while let Some(id) = parent {
        report.nodes[id].bytes -= removed.bytes;
        report.nodes[id].files -= removed.files;
        parent = report.nodes[id].parent;
    }
    report.nodes.remove(5);
    for n in &mut report.nodes {
        n.parent = n.parent.map(|id| if id > 5 { id - 1 } else { id });
        n.children.retain(|&id| id != 5);
        for id in &mut n.children {
            if *id > 5 {
                *id -= 1;
            }
        }
    }
    report.progress.bytes = report.nodes[0].bytes;
    report.progress.files = report.nodes[0].files;
    let request = app.finish_subtree(Ok(report), now());
    assert_eq!(app.focus, 1);
    assert!(app.cached_at.is_none());
    match request {
        Some(Request::Save { report, .. }) => {
            assert_eq!(report.nodes[0].path, path(&["Demo"]));
            assert!(!report.nodes.iter().any(|n| n.name() == "Backups"));
        }
        _ => panic!("Expected save of merged map"),
    }
}

#[test]
fn failed_subtree_refresh_keeps_map_and_does_not_save() {
    let mut app = app();
    app.cache = true;
    let previous = Arc::clone(app.report.as_ref().unwrap());
    let saved_at = now();
    app.cached_at = Some(saved_at);
    app.navigate(1);
    let request = app.finish_subtree(Err("읽기 실패".into()), now());
    assert!(Arc::ptr_eq(&previous, app.report.as_ref().unwrap()));
    assert_eq!(app.focus, 1);
    assert_eq!(app.cached_at, Some(saved_at));
    assert!(request.is_none());
    assert!(!app.busy());
}

#[test]
fn candidates_exclude_recent_unknown_and_partial_folders() {
    let mut app = app();
    let nodes = &mut Arc::get_mut(app.report.as_mut().unwrap()).unwrap().nodes;
    nodes[1].incomplete = true;
    nodes[3].missing_modified = true;
    app.refresh_candidates();
    assert_eq!(app.candidates, vec![5, 6, 8]);
    app.query = "experiments".into();
    app.refresh_candidates();
    assert_eq!(app.candidates, vec![8]);
    app.min_mb = 100_000;
    app.refresh_candidates();
    assert!(app.candidates.is_empty());
}

#[test]
fn candidate_search_ignores_case_of_any_script() {
    let mut app = app();
    app.days = 0;
    app.min_mb = 0;
    app.query = "BACKUPS".into();
    app.refresh_candidates();
    assert_eq!(app.candidates, vec![5]);
    let nodes = &mut Arc::get_mut(app.report.as_mut().unwrap()).unwrap().nodes;
    nodes[3].path = path(&["Demo", "ÉTÉ"]);
    app.query = "été".into();
    app.refresh_candidates();
    assert_eq!(app.candidates, vec![3]);
    assert_eq!(app.candidate_count, 1);
}

#[test]
fn candidates_are_found_by_texts_in_lower_case() {
    let mut app = app();
    app.days = 0;
    app.min_mb = 0;
    let mut texts: Vec<String> = app.report.as_ref().unwrap().nodes.iter().map(|_| "x".into()).collect();
    texts[4] = "an old song".into();
    texts[7] = "old".into();
    app.find_candidates(&texts, "old");
    let larger = |a: usize, b: usize| {
        let nodes = &app.report.as_ref().unwrap().nodes;
        nodes[a].bytes >= nodes[b].bytes
    };
    let expected = if larger(4, 7) { vec![4, 7] } else { vec![7, 4] };
    assert_eq!(app.candidates, expected);
    assert_eq!(app.candidate_count, 2);
    app.find_candidates(&texts, "OLD");
    assert!(app.candidates.is_empty());
    app.find_candidates(&texts, "");
    assert_eq!(app.candidate_count, texts.len());
    app.min_mb = u64::MAX;
    app.find_candidates(&texts, "");
    assert_eq!(app.candidate_count, 0);
}

#[test]
fn at_most_two_hundred_candidates_are_listed() {
    let mut app = app();
    let mut report = demo();
    for i in 0..300u64 {
        let mut n = Node::new(path(&["Demo", "many"]), Some(0));
        n.bytes = 2_000_000_000_000 + i;
        n.modified = Timestamp::from_nanos(0);
        let id = report.nodes.len();
        report.nodes.push(n);
        report.nodes[0].children.push(id);
    }
    app.replace_report(report);
    app.refresh_candidates();
    assert_eq!(app.candidates.len(), 200);
    assert_eq!(app.candidates[0], 309);
    assert_eq!(app.candidates[199], 110);
    assert!(app.candidate_count > 300);
}

#[test]
fn previews_do_not_offer_candidates_or_reset_navigation() {
    let mut app = app();
    app.navigate(1);
    app.scanning = true;
    let mut preview = demo();
    preview.scanning = true;
    assert!(app.poll(Some(Event::Preview(preview)), now()).is_none());
    app.refresh_candidates();
    assert_eq!(app.focus, 1);
    assert!(app.candidates.is_empty());
    app.poll(Some(Event::Finished(demo())), now());
    assert_eq!(app.focus, 1);
    assert!(!app.candidates.is_empty());
    assert!(!app.scanning);
}

#[test]
fn mft_reordered_nodes_preserve_focus_by_path_and_fallback_clears_map() {
    let mut app = app();
    app.navigate(1);
    let path = app.report.as_ref().unwrap().nodes[1].path.clone();
    let mut next = demo();
    next.nodes.swap(1, 2);
    let remap = |id| match id {
        1 => 2,
        2 => 1,
        other => other,
    };
    for n in &mut next.nodes {
        n.parent = n.parent.map(remap);
        for child in &mut n.children {
            *child = remap(*child);
        }
    }
    app.replace_report(next);
    assert_eq!(app.focus, 2);
    assert_eq!(app.report.as_ref().unwrap().nodes[app.focus].path, path);
    app.scanning = true;
    app.poll(
        Some(Event::Restart(Progress {
            engine: "폴더 열거",
            note: "MFT fallback".into(),
            ..Default::default()
        })),
        now(),
    );
    assert!(app.report.is_none());
    assert!(app.children.is_empty());
    assert_eq!(app.focus, 0);
    assert_eq!(app.progress.note, "MFT fallback");
}

#[test]
fn navigation_lists_children_by_size() {
    let mut app = app();
    app.navigate(0);
    assert_eq!(app.children, vec![1, 4, 2, 3]);
    app.navigate(1);
    assert_eq!(app.children, vec![5, 6]);
    app.navigate(5);
    assert!(app.children.is_empty());
}

#[test]
fn selection_stays_with_its_path() {
    let mut app = app();
    app.navigate(0);
    assert!(app.click(None, Some(3), None).is_none());
    assert_eq!(app.selected_index(), Some(3));
    app.replace_report(demo());
    assert_eq!(app.selected_index(), Some(3));
    let mut smaller = demo();
    smaller.nodes.truncate(3);
    smaller.nodes[0].children = vec![1, 2];
    smaller.nodes[1].children.clear();
    smaller.nodes[2].children.clear();
    app.replace_report(smaller);
    assert_eq!(app.selected_index(), None);
    app.click(Some(1), Some(2), None);
    assert_eq!(app.focus, 1);
    assert!(app.selected_path.is_none());
}

#[test]
fn refreshing_needs_a_finished_scan() {
    let mut app = app();
    assert!(!app.can_refresh());
    assert!(app.begin_subtree_scan(1).is_none());
    let mut scanned = demo();
    scanned.elapsed = Duration {
        seconds: 0,
        nanos: 1,
    };
    app.report = Some(Arc::new(scanned));
    assert!(app.begin_subtree_scan(99).is_none());
    let base = app.begin_subtree_scan(5).unwrap();
    assert!(Arc::ptr_eq(&base, app.report.as_ref().unwrap()));
    assert!(app.refreshing && app.busy());
    assert_eq!(app.cache_generation, 1);
    assert_eq!(
        app.cache_status,
        "재스캔 중: Demo/Archive/Backups · 완료 전까지 기존 지도를 유지합니다."
    );
    assert!(app.begin_subtree_scan(5).is_none());
    assert_eq!(
        app.status_text().unwrap(),
        "현재 폴더 재스캔 중 · 지도는 이전 결과"
    );
    app.poll_subtree(
        Some(subtree::Event::Progress(Progress {
            records: 4,
            ..Default::default()
        })),
        now(),
    );
    assert_eq!(app.progress.records, 4);
    assert!(app.poll_subtree(None, now()).is_none());
    assert_eq!(
        app.error.as_deref(),
        Some("부분 재스캔 작업이 종료되었습니다. 기존 결과를 유지합니다.")
    );
    assert!(!app.busy());
    assert_eq!(app.status_text().unwrap(), "스캔 완료");
}

#[test]
fn scans_begin_with_a_path_and_clear_the_window() {
    let mut app = app();
    app.path = "  ".into();
    assert!(app.scan_request().is_none());
    assert_eq!(app.error.as_deref(), Some("스캔할 경로를 입력하세요."));
    app.path = " C:\\ ".into();
    assert_eq!(app.scan_request().as_deref(), Some("C:\\"));
    assert!(!app.begin_scan(Err("no".into())));
    assert_eq!(app.error.as_deref(), Some("no"));
    app.cache = true;
    app.cached_at = Some(now());
    assert!(app.begin_scan(Ok(())));
    assert!(app.report.is_none() && app.error.is_none() && app.cached_at.is_none());
    assert_eq!(app.cache_generation, 1);
    assert_eq!(app.cache_status, "스캔 완료 후 결과를 자동 저장합니다.");
    assert!(app.scan_request().is_none());
    assert!(app.status_text().is_none());
    app.poll(Some(Event::Failed("gone".into())), now());
    assert_eq!(app.error.as_deref(), Some("gone"));
    assert!(!app.busy());
    app.poll(None, now());
    assert_eq!(
        app.error.as_deref(),
        Some("스캔 작업이 예기치 않게 종료되었습니다.")
    );
}

#[test]
fn saved_maps_are_asked_for_and_answered() {
    let mut app = app();
    assert!(app.load_request(None).is_none());
    app.cache = true;
    assert!(app.load_request(Some(path(&[]))).is_none());
    assert_eq!(app.cache_status, "저장 결과를 찾을 경로를 입력하세요.");
    match app.load_request(Some(path(&["x"]))) {
        Some(Request::Load { generation, root }) => {
            assert_eq!(generation, 1);
            assert_eq!(root, Some(path(&["x"])));
        }
        _ => panic!("Expected a load"),
    }
    app.load_sent(false);
    assert_eq!(app.cache_status, "DB 작업이 종료되었습니다.");
    app.load_sent(true);
    assert!(app.cache_loading);
    app.poll_cache(
        Some(CacheEvent::Loaded {
            generation: 1,
            result: Ok(None),
        }),
        now(),
    );
    assert!(!app.cache_loading);
    assert_eq!(
        app.cache_status,
        "저장된 결과가 없습니다. 스캔 완료 후 자동 저장됩니다."
    );
    app.map_loaded(1, Err("bad".into()), now());
    assert_eq!(app.cache_status, "저장된 지도를 읽지 못했습니다: bad");
    app.save_sent(false);
    assert_eq!(
        app.cache_status,
        "DB 작업이 종료되어 결과를 저장하지 못했습니다."
    );
    app.save_sent(true);
    app.closing = true;
    app.map_saved(1, Err("full".into()));
    assert_eq!(app.error.as_deref(), Some("DB 저장 실패: full"));
    assert_eq!(
        app.cache_status,
        "DB 저장 실패 (스캔 결과는 화면에서 확인 가능): full"
    );
    assert!(!app.closing);
    app.map_saved(0, Ok("later".into()));
    assert!(!app.cache_status.contains("later"));
    app.map_saved(1, Ok("today".into()));
    assert_eq!(app.cache_status, "DB 저장 완료 · today");
    app.poll_cache(None, now());
    assert!(!app.cache);
}

#[test]
fn closing_waits_for_saves() {
    let mut app = app();
    assert_eq!(app.close_step(true), (false, false));
    app.save_sent(true);
    assert_eq!(app.close_step(true), (true, false));
    assert!(app.closing);
    app.map_saved(0, Ok("done".into()));
    assert_eq!(app.close_step(false), (false, true));
}

#[test]
fn the_window_opens_the_demo_or_a_saved_map() {
    let mut window = DiskApp::new(Language::English, "C:\\".into(), vec![], now());
    assert!(window.open_first(Some(demo()), false, None).is_none());
    assert_eq!(window.children, vec![1, 4, 2, 3]);
    assert!(!window.candidates.is_empty());
    let mut window = DiskApp::new(Language::English, "C:\\".into(), vec![], now());
    assert!(window.open_first(None, false, None).is_none());
    assert_eq!(window.cache_status, "저장 DB 위치를 찾을 수 없습니다.");
    assert!(matches!(
        window.open_first(None, true, None),
        Some(Request::Load {
            generation: 1,
            root: None
        })
    ));
    let drives = vec!["D:\\".to_string()];
    assert_eq!(
        start_paths(Some("--demo".into()), &drives),
        (None, "D:\\".into())
    );
    assert_eq!(
        start_paths(Some("E:\\x".into()), &drives),
        (Some("E:\\x".into()), "E:\\x".into())
    );
    assert_eq!(start_paths(None, &vec![]), (None, String::new()));
}

#[test]
fn tiles_show_the_largest_folders_and_group_the_rest() {
    let report = demo();
    let tiles = map_tiles(&report.nodes, 1);
    let gib = 1024u64 * 1024 * 1024;
    assert_eq!(tiles[0].kind, TileKind::Folder(5));
    assert_eq!(tiles[1].kind, TileKind::Folder(6));
    assert_eq!(tiles[2].kind, TileKind::DirectFiles);
    assert_eq!(tiles[2].bytes, 6 * gib);
    let mut nodes = vec![Node::new(path(&["r"]), None)];
    for i in 0..150u64 {
        let mut n = Node::new(path(&["r", "x"]), Some(0));
        n.bytes = i;
        nodes.push(n);
        nodes[0].children.push(i as usize + 1);
    }
    let tiles = map_tiles(&nodes, 0);
    assert_eq!(tiles.len(), 101);
    assert_eq!(tiles[0].kind, TileKind::Others);
    assert_eq!(tiles[0].bytes, (1..50).sum::<u64>());
    assert_eq!(tiles[1].kind, TileKind::Folder(150));
    assert_eq!(tiles[100].kind, TileKind::Folder(51));
}

#[test]
fn tiles_add_up_to_their_folder() {
    let report = demo();
    for (id, node) in report.nodes.iter().enumerate() {
        let tiles = map_tiles(&report.nodes, id);
        assert_eq!(tiles.iter().map(|t| t.bytes).sum::<u64>(), node.bytes);
        assert!(tiles.iter().all(|t| t.bytes > 0));
        assert!(tiles.windows(2).all(|pair| pair[0].bytes >= pair[1].bytes));
    }
}

#[test]
fn deeply_deleted_focus_moves_to_the_nearest_folder() {
    let mut app = app();
    app.navigate(9); // Demo/Media/Video
    let mut smaller = demo();
    smaller.nodes.truncate(2);
    smaller.nodes[0].children = vec![1];
    smaller.nodes[1].children.clear();
    app.replace_report(smaller);
    assert_eq!(app.focus, 0);
    let mut elsewhere = demo();
    elsewhere.nodes.truncate(1);
    elsewhere.nodes[0].children.clear();
    elsewhere.nodes[0].path = path(&["Other"]);
    app.replace_report(elsewhere);
    assert_eq!(app.focus, 0);
}

#[test]
fn stopped_maps_list_no_candidates() {
    let mut app = app();
    let mut stopped = demo();
    stopped.cancelled = true;
    for node in &mut stopped.nodes {
        node.incomplete = true;
    }
    app.min_mb = 0;
    app.days = 0;
    app.replace_report(stopped);
    app.refresh_candidates();
    assert!(app.candidates.is_empty());
    assert_eq!(app.candidate_count, 0);
}
