use diskusagemap::anchor::Anchor;
use diskusagemap::cache::restore::load;
use diskusagemap::cache::snapshot::{save, validate, Snapshot};
use diskusagemap::cache::{
    check_schema, decode_path, decode_time, encode_path, encode_time, index, is_new_database, key,
    number, number_bytes,
};
use diskusagemap::path::FolderPath;
use diskusagemap::raw::{bytes_of_units, units_of_bytes};
use diskusagemap::scan::{Found, Report, Scanner};
use diskusagemap::time::{Duration, Timestamp};

fn units(text: &str) -> Vec<u16> {
    text.encode_utf16().collect()
}
fn path(names: &[&str]) -> FolderPath {
    let mut path = FolderPath {
        written: units("C:\\"),
        root: units("C:\\"),
        separator: 92,
        absolute: true,
        names: vec![],
    };
    for name in names {
        path = path.join(&units(name));
    }
    path
}
fn at(nanos: i128) -> Timestamp {
    Timestamp::from_nanos(nanos).unwrap()
}
fn report() -> Report {
    let date = Some(at(7_000_000_123));
    let mut scanner = Scanner::new(path(&["data"]));
    scanner.next_folder();
    scanner.describe(false, date);
    scanner.entry(Found::File(7, date, date));
    scanner.entry(Found::Folder(units("한글 폴더")));
    scanner.close();
    scanner.next_folder();
    scanner.describe(false, date);
    scanner.entry(Found::File(13, date, date));
    scanner.close();
    let elapsed = Duration {
        seconds: 3,
        nanos: 45,
    };
    scanner.finish(None, false, elapsed)
}
fn root(report: &Report) -> Result<Vec<u16>, String> {
    Ok(report.nodes[0].path.written.clone())
}
fn rows(report: &Report) -> Snapshot {
    save(report, at(9_000_000_001), &root(report), true).unwrap()
}
fn anchor(path: &FolderPath) -> Anchor {
    Anchor {
        root: path.root.clone(),
        rooted: true,
        absolute: path.absolute,
        separator: path.separator,
        verbatim: false,
    }
}
fn slash() -> Anchor {
    Anchor {
        root: units("/"),
        rooted: true,
        absolute: true,
        separator: 47,
        verbatim: false,
    }
}
fn anchors(report: &Report) -> Vec<Anchor> {
    report.nodes.iter().map(|n| anchor(&n.path)).collect()
}
fn load_error(report: &Report, change: impl Fn(&mut Snapshot)) -> String {
    let mut rows = rows(report);
    change(&mut rows);
    load(&rows, &anchors(report), &root(report), true).unwrap_err()
}

#[test]
fn snapshot_roundtrip_preserves_tree_dates_errors_and_full_u64() {
    let mut report = report();
    report.nodes[1].modified = Some(at(-2_000_000_123));
    report.nodes[1].missing_accessed = true;
    report.nodes[1].incomplete = true;
    report.nodes[0].incomplete = true;
    report.progress.errors = 1;
    report.issues.push("읽기 오류 예시".into());
    // Byte and count fields must survive without narrowing.
    report.nodes[0].own_bytes = u64::MAX;
    report.nodes[0].bytes = u64::MAX;
    report.progress.bytes = u64::MAX;
    let saved_at = at(1_750_000_000_123_456_789);
    let rows = save(&report, saved_at, &root(&report), true).unwrap();
    let loaded = load(&rows, &anchors(&report), &root(&report), true).unwrap();
    assert_eq!(loaded.saved_at, saved_at);
    assert_eq!(loaded.report.nodes[0].bytes, u64::MAX);
    assert_eq!(loaded.report.nodes[0].children, report.nodes[0].children);
    assert_eq!(loaded.report.nodes[1].modified, report.nodes[1].modified);
    assert_eq!(loaded.report.nodes[1].path, report.nodes[1].path);
    assert!(loaded.report.nodes[1].missing_accessed && loaded.report.nodes[1].incomplete);
    assert_eq!(loaded.report.issues, report.issues);
    assert_eq!(loaded.report.progress.errors, 1);
    assert_eq!(loaded.report.elapsed, report.elapsed);
    assert_eq!(loaded.report.progress.folders, 2);
    assert_eq!(loaded.report.progress.engine, "폴더 열거");
    assert_eq!(loaded.report.progress.current, report.nodes[0].path);
}

#[test]
fn stopped_and_running_scans_are_not_saved() {
    let mut report = report();
    let refused = "중지되었거나 진행 중인 스캔은 저장하지 않습니다.";
    report.cancelled = true;
    assert_eq!(save(&report, at(0), &Ok(vec![]), true).unwrap_err(), refused);
    report.cancelled = false;
    report.scanning = true;
    assert_eq!(save(&report, at(0), &Ok(vec![]), true).unwrap_err(), refused);
    report.scanning = false;
    assert!(save(&report, at(0), &Ok(vec![]), true).is_ok());
    assert!(save(&report, at(-1), &Ok(vec![]), true).is_err());
    let nowhere = Err("no such folder".to_string());
    assert_eq!(
        save(&report, at(-1), &nowhere, true).unwrap_err(),
        "no such folder"
    );
    report.nodes[0].own_bytes = 8;
    assert_eq!(
        save(&report, at(-1), &nowhere, true).unwrap_err(),
        "Cached size totals do not match"
    );
}

#[test]
fn rows_hold_little_endian_numbers_and_flags() {
    let mut report = report();
    report.nodes[1].missing_modified = true;
    report.nodes[1].incomplete = true;
    let rows = rows(&report);
    assert_eq!(rows.row.saved_seconds, 9);
    assert_eq!(rows.row.saved_nanos, 1);
    assert_eq!(rows.row.node_count, 2);
    assert_eq!(rows.row.elapsed_seconds, 3u64.to_le_bytes());
    assert_eq!(rows.nodes[0].parent, None);
    assert_eq!(rows.nodes[1].parent, Some(0));
    assert_eq!(rows.nodes[1].flags, 5);
    assert_eq!(rows.nodes[0].bytes, 20u64.to_le_bytes());
    assert_eq!(rows.nodes[0].own_bytes, 7u64.to_le_bytes());
    assert_eq!(
        rows.nodes[0].modified.as_deref(),
        Some(&[0, 7, 0, 0, 0, 0, 0, 0, 0, 123, 0, 0, 0][..])
    );
}

#[test]
fn corrupted_version_and_hierarchy_are_rejected() {
    let report = report();
    assert_eq!(
        load_error(&report, |s| s.nodes[1].parent = Some(1)),
        "Invalid cached parent index"
    );
    assert!(check_schema(1, 0x44554d50).is_ok());
    let refused = "저장 DB 형식이 이 버전과 호환되지 않습니다. DB를 다른 이름으로 옮긴 뒤 다시 스캔하세요.";
    assert_eq!(check_schema(999, 0x44554d50).unwrap_err(), refused);
    assert_eq!(check_schema(1, 0).unwrap_err(), refused);
    assert!(is_new_database(0, 0, 0));
    assert!(!is_new_database(1, 0, 0) && !is_new_database(0, 1, 0));
}

#[test]
fn every_damage_to_the_rows_is_told() {
    let report = report();
    let error = |change: &dyn Fn(&mut Snapshot)| load_error(&report, change);
    assert_eq!(error(&|s| s.row.saved_seconds = -1), "Invalid saved date");
    assert_eq!(
        error(&|s| s.row.saved_nanos = 1_000_000_000),
        "Invalid saved date"
    );
    assert_eq!(
        error(&|s| s.row.engine = "other".into()),
        "Unknown cached scan engine"
    );
    assert_eq!(
        error(&|s| s.row.elapsed_nanos = 1_000_000_000),
        "Invalid cached duration"
    );
    assert_eq!(
        error(&|s| s.row.errors = vec![1]),
        "Invalid cached integer"
    );
    assert_eq!(error(&|s| s.row.node_count = -1), "Invalid cached index");
    assert_eq!(
        error(&|s| s.row.node_count = 3),
        "Incomplete cached snapshot"
    );
    assert_eq!(
        error(&|s| s.nodes[1].id = 5),
        "Non-contiguous cached node IDs"
    );
    assert_eq!(
        error(&|s| s.nodes[0].parent = Some(0)),
        "Invalid cached parent index"
    );
    assert_eq!(
        error(&|s| s.nodes[0].flags = 8),
        "Invalid cached node flags"
    );
    assert_eq!(error(&|s| s.nodes[0].path = vec![0]), "Invalid UTF-16 path");
    assert_eq!(
        error(&|s| s.nodes[0].path = vec![0, 0]),
        "Invalid path with NUL"
    );
    assert_eq!(
        error(&|s| s.nodes[0].modified = Some(vec![0; 3])),
        "Invalid cached timestamp"
    );
    assert_eq!(
        error(&|s| s.nodes[1].bytes = number_bytes(99)),
        "Cached size totals do not match"
    );
    assert_eq!(
        error(&|s| s.row.root_key = vec![1]),
        "Cached root path does not match its key"
    );
    assert_eq!(
        error(&|s| s.row.files = number_bytes(99)),
        "Cached progress totals do not match"
    );
    let mut elsewhere = anchors(&report);
    elsewhere[1].root = units("D:\\");
    assert_eq!(
        load(&rows(&report), &elsewhere, &root(&report), true).unwrap_err(),
        "Invalid cached hierarchy"
    );
    let nowhere = Err("no such folder".to_string());
    assert_eq!(
        load(&rows(&report), &elsewhere, &nowhere, true).unwrap_err(),
        "Invalid cached hierarchy"
    );
    assert_eq!(
        load(&rows(&report), &anchors(&report), &nowhere, true).unwrap_err(),
        "no such folder"
    );
}

#[test]
fn maps_are_checked_before_saving() {
    let mut r = report();
    assert!(validate(&r.nodes).is_ok());
    r.nodes[0].path.absolute = false;
    r.nodes[1].path.absolute = false;
    assert_eq!(validate(&r.nodes).unwrap_err(), "Invalid cached root");
    assert_eq!(validate(&vec![]).unwrap_err(), "Invalid cached root");
    let mut r = report();
    r.nodes[1].parent = None;
    assert_eq!(validate(&r.nodes).unwrap_err(), "Missing cached parent");
    let mut r = report();
    r.nodes[0].own_bytes = 8;
    assert_eq!(
        validate(&r.nodes).unwrap_err(),
        "Cached size totals do not match"
    );
}

#[test]
fn windows_path_encoding_is_lossless_and_drive_keys_ignore_ascii_case() {
    let odd = path(&[]).join(&vec![0xd800, 46, 116]);
    assert_eq!(
        decode_path(&encode_path(&odd, true), true).unwrap(),
        vec![67, 58, 92, 0xd800, 46, 116]
    );
    assert_eq!(
        key(&units("C:\\Users\\Test\\"), true),
        key(&units("c:/users/test"), true)
    );
    let mut drive = path(&[]);
    drive.written = units("c:\\");
    assert_eq!(key(&units("C:\\"), true), encode_path(&drive, true));
    assert_ne!(key(&units("/A"), false), key(&units("/a"), false));
    assert!(decode_path(&vec![0], true).is_err());
}

#[test]
fn paths_of_bytes_are_saved_as_they_are() {
    let text = "/한글/a😀".as_bytes().to_vec();
    let named = units_of_bytes(&text);
    assert_eq!(named, units("/한글/a😀"));
    assert_eq!(bytes_of_units(&named), text);
    assert_eq!(key(&named, false), text);
    assert_eq!(decode_path(&text, false).unwrap(), named);
    // A lone continuation, a cut-off character, an encoded surrogate, an overlong slash.
    let odd = vec![
        47, 0x80, 47, 0xe2, 0x82, 47, 0xed, 0xa0, 0x80, 47, 0xc0, 0xaf, 0xff, 0xf4, 0x90, 0x80,
        0x80,
    ];
    let named = units_of_bytes(&odd);
    assert_eq!(
        named,
        vec![
            47, 0xdc80, 47, 0xdce2, 0xdc82, 47, 0xdced, 0xdca0, 0xdc80, 47, 0xdcc0, 0xdcaf,
            0xdcff, 0xdcf4, 0xdc90, 0xdc80, 0xdc80
        ]
    );
    assert_eq!(bytes_of_units(&named), odd);
    let folder = slash().read(&units_of_bytes(b"/\xff/b"));
    assert_eq!(folder.names, vec![vec![0xdcff], units("b")]);
    assert_eq!(encode_path(&folder, false), vec![47, 0xff, 47, 98]);
    assert_eq!(
        decode_path(&encode_path(&folder, false), false).unwrap(),
        folder.written
    );
    assert_eq!(
        decode_path(&vec![47, 0], false).unwrap_err(),
        "Invalid path with NUL"
    );
    assert_eq!(decode_path(&vec![47], false).unwrap(), vec![47]);
    assert_eq!(bytes_of_units(&vec![0xd800]), "\u{fffd}".as_bytes());
}

#[test]
fn names_that_are_no_utf8_are_shown_as_the_system_shows_them() {
    let cases: [&[u8]; 11] = [
        b"/t/\xe2\x82",
        b"/t/\xe2\x82\xac",
        b"/t/\x80\x80",
        b"/\xf0\x9f\x98/a",
        b"/\xf0\x9f\x98\x80\xf0\x9f",
        b"/\xed\xa0\x80",
        b"/\xc0\xaf\xff",
        b"/\xf4\x90\x80\x80",
        b"/\xe0\x80\x80",
        b"/\xf0\x80\xe1\x80z",
        b"/\xc3",
    ];
    for bytes in cases {
        let shown = slash().read(&units_of_bytes(bytes)).text();
        assert_eq!(shown, String::from_utf8_lossy(bytes));
    }
    let cut = slash().read(&units_of_bytes(b"/t/\xe2\x82"));
    assert_eq!(cut.name(), "\u{fffd}");
    assert_eq!(cut.text(), "/t/\u{fffd}");
    let pair = path(&[]).join(&vec![0xdce2, 0xdc82]);
    assert_eq!(pair.name(), "\u{fffd}\u{fffd}");
}

#[test]
fn a_map_survives_where_paths_are_bytes() {
    let mut report = report();
    for n in &mut report.nodes {
        let mut path = slash().read(&units_of_bytes(b"/\xfe"));
        for name in n.path.names.iter().skip(1) {
            path = path.join(name);
        }
        n.path = path;
    }
    report.progress.current = report.nodes[0].path.clone();
    let rows = save(&report, at(1), &root(&report), false).unwrap();
    assert_eq!(rows.nodes[0].path, vec![47, 0xfe]);
    assert_eq!(rows.row.root_key, vec![47, 0xfe]);
    for (row, n) in rows.nodes.iter().zip(&report.nodes) {
        assert_eq!(decode_path(&row.path, false).unwrap(), n.path.written);
    }
    let loaded = load(&rows, &anchors(&report), &root(&report), false).unwrap();
    assert_eq!(loaded.report.nodes[1].path, report.nodes[1].path);
    assert_eq!(loaded.report.nodes[0].bytes, 20);
}

#[test]
fn paths_are_read_as_they_are_written() {
    let deep = path(&["data", "한글 폴더", ".."]);
    assert_eq!(anchor(&deep).read(&deep.written), deep);
    let drive = anchor(&path(&[]));
    assert_eq!(drive.read(&units("C:\\")), path(&[]));
    assert_eq!(drive.read(&units("C:")), path(&[]));
    // However a path is written, it means its root and names, and stays as it is.
    let mixed = drive.read(&units("c:/a\\\\.\\b/"));
    assert_eq!(mixed, path(&["a", "b"]));
    assert_eq!(mixed.text(), "c:/a\\\\.\\b/");
    assert_eq!(mixed.name(), "b");
    assert_eq!(mixed.join(&units("c")).text(), "c:/a\\\\.\\b/c");
    assert_eq!(encode_path(&mixed, true).len(), 2 * mixed.written.len());
    assert!(mixed.is_directly_inside(&path(&["a"])));
    let exact = Anchor {
        root: units("\\\\?\\C:\\"),
        verbatim: true,
        ..anchor(&path(&[]))
    };
    let verbatim = exact.read(&units("\\\\?\\C:\\.\\a/b"));
    assert_eq!(verbatim.names, vec![units("."), units("a/b")]);
    let share = Anchor {
        root: units("\\\\s\\d\\"),
        ..anchor(&path(&[]))
    };
    let shared = share.read(&units("\\\\s\\d")).join(&units("x"));
    assert_eq!(shared.text(), "\\\\s\\d\\x");
    assert_eq!(share.read(&shared.written), shared);
    let bare = Anchor {
        root: units("C:"),
        rooted: false,
        absolute: false,
        ..anchor(&path(&[]))
    };
    assert_eq!(bare.read(&units("C:")).join(&units("x")).text(), "C:x");
    let relative = Anchor {
        root: vec![],
        rooted: false,
        absolute: false,
        separator: 47,
        verbatim: false,
    };
    assert_eq!(relative.read(&units("./a/./b")).names.len(), 3);
    assert_eq!(relative.read(&units("a/.")).names, vec![units("a")]);
    assert_eq!(relative.read(&vec![]), FolderPath::empty());
}

#[test]
fn times_and_numbers_survive() {
    for n in [0, 1, -1, -2_000_000_123, i128::from(i64::MAX)] {
        let t = at(n);
        assert_eq!(decode_time(&encode_time(t)).unwrap(), t);
    }
    let mut late = encode_time(at(0));
    late[8] = 0xff;
    assert_eq!(
        decode_time(&late).unwrap_err(),
        "Cached timestamp out of range"
    );
    let mut long = encode_time(at(0));
    long[12] = 0xff;
    assert_eq!(
        decode_time(&long).unwrap_err(),
        "Invalid cached nanoseconds"
    );
    assert_eq!(number(&number_bytes(u64::MAX)).unwrap(), u64::MAX);
    assert_eq!(index(7).unwrap(), 7);
    assert_eq!(index(-1).unwrap_err(), "Invalid cached index");
}
