use diskusagemap::bytes::u16_at;
use diskusagemap::mft::index::Index;
use diskusagemap::mft::record::{parse_record, Link, Record};
use diskusagemap::mft::volume::{
    accept_record, attribute_list, check_extension, check_unchanged, chunk_length, decode_geometry,
    extension_references, ingest, mft_mapping, take_slot, volume_progress, Geometry, ListSource,
    Stream,
};
use diskusagemap::mft::{attributes, fixup, list_references, resident, runs, volume_root, Run};
use diskusagemap::path::FolderPath;
use diskusagemap::scan::{Progress, Report};
use diskusagemap::time::{Duration, Timestamp};

fn put16(b: &mut [u8], o: usize, x: u16) {
    b[o..o + 2].copy_from_slice(&x.to_le_bytes());
}
fn put32(b: &mut [u8], o: usize, x: u32) {
    b[o..o + 4].copy_from_slice(&x.to_le_bytes());
}
fn put64(b: &mut [u8], o: usize, x: u64) {
    b[o..o + 8].copy_from_slice(&x.to_le_bytes());
}
fn resident_attr(kind: u32, value: &[u8]) -> Vec<u8> {
    let len = (24 + value.len()).next_multiple_of(8);
    let mut a = vec![0; len];
    put32(&mut a, 0, kind);
    put32(&mut a, 4, len as u32);
    put32(&mut a, 16, value.len() as u32);
    put16(&mut a, 20, 24);
    a[24..24 + value.len()].copy_from_slice(value);
    a
}
fn nonresident_attr(vcn: u64, high: u64, length: u64, pairs: &[u8]) -> Vec<u8> {
    let len = (64 + pairs.len()).next_multiple_of(8);
    let mut a = vec![0; len];
    put32(&mut a, 0, 0x80);
    put32(&mut a, 4, len as u32);
    a[8] = 1;
    put64(&mut a, 16, vcn);
    put64(&mut a, 24, high);
    put16(&mut a, 32, 64);
    put64(&mut a, 48, length);
    a[64..64 + pairs.len()].copy_from_slice(pairs);
    a
}
fn name_attr(parent: u64, name: &str, namespace: u8) -> Vec<u8> {
    let name: Vec<u16> = name.encode_utf16().collect();
    let mut value = vec![0; 66 + name.len() * 2];
    put64(&mut value, 0, parent);
    value[64] = name.len() as u8;
    value[65] = namespace;
    for (i, c) in name.iter().enumerate() {
        put16(&mut value, 66 + i * 2, *c);
    }
    resident_attr(0x30, &value)
}
fn record(attrs: Vec<Vec<u8>>, base: u64) -> Vec<u8> {
    let mut b = vec![0; 1024];
    b[..4].copy_from_slice(b"FILE");
    put16(&mut b, 4, 48);
    put16(&mut b, 6, 3);
    put16(&mut b, 16, 7);
    put16(&mut b, 20, 56);
    put16(&mut b, 22, 1);
    put64(&mut b, 32, base);
    let mut offset = 56;
    for attr in attrs {
        b[offset..offset + attr.len()].copy_from_slice(&attr);
        offset += attr.len();
    }
    put32(&mut b, offset, u32::MAX);
    put32(&mut b, 24, offset as u32 + 8);
    put16(&mut b, 48, 0xaaaa);
    put16(&mut b, 50, 0x1234);
    put16(&mut b, 52, 0x5678);
    put16(&mut b, 510, 0xaaaa);
    put16(&mut b, 1022, 0xaaaa);
    b
}
fn frn(number: u64) -> u64 {
    number | (7 << 48)
}
fn units(text: &str) -> Vec<u16> {
    text.encode_utf16().collect()
}
fn seconds(n: i128) -> Timestamp {
    Timestamp::from_nanos(n * 1_000_000_000).unwrap()
}
fn dir(number: u64, parent: u64, name: &str) -> Record {
    Record {
        reference: frn(number),
        base_seen: true,
        directory: true,
        links: vec![Link {
            parent: frn(parent),
            name: units(name),
        }],
        modified: Some(seconds(0)),
        ..Default::default()
    }
}
fn root() -> FolderPath {
    FolderPath {
        written: units("C:\\"),
        root: units("C:\\"),
        separator: 92,
        absolute: true,
        names: vec![],
    }
}
fn report(index: &Index) -> Report {
    index.report(
        &root(),
        Progress::default(),
        false,
        false,
        Duration {
            seconds: 1,
            nanos: 0,
        },
    )
}

#[test]
fn roots_are_strict_to_avoid_scanning_wrong_volume() {
    assert_eq!(volume_root("c:/"), Some("C:\\".to_string()));
    assert_eq!(volume_root("Z:\\"), Some("Z:\\".to_string()));
    for path in [
        "C:",
        "C:\\Users",
        "\\\\server\\share",
        "C:\\..\\",
        "\\\\?\\C:\\",
        "1:\\",
        "é:\\",
    ] {
        assert!(volume_root(path).is_none());
    }
}

#[test]
fn raw_fixups_are_validated_and_restored() {
    let mut b = record(vec![], 0);
    fixup(&mut b, false).unwrap();
    assert_eq!(u16_at(&b, 510).unwrap(), 0x1234);
    assert_eq!(u16_at(&b, 1022).unwrap(), 0x5678);
    fixup(&mut b, true).unwrap();
    assert!(fixup(&mut b, false).is_err());
    let mut b = record(vec![], 0);
    b[1023] ^= 1;
    assert!(fixup(&mut b, false).is_err());
}

#[test]
fn fixup_errors_name_what_is_wrong() {
    let mut b = record(vec![], 0);
    b[0] = b'X';
    assert_eq!(fixup(&mut b, false).unwrap_err(), "Invalid FILE signature");
    let mut b = record(vec![], 0);
    put16(&mut b, 6, 1);
    assert_eq!(
        fixup(&mut b, false).unwrap_err(),
        "Invalid update sequence array"
    );
    let mut b = record(vec![], 0);
    put16(&mut b, 4, 6);
    assert_eq!(
        fixup(&mut b, false).unwrap_err(),
        "Invalid sector fixup geometry"
    );
    let mut b = record(vec![], 0);
    b[510] ^= 1;
    assert_eq!(
        fixup(&mut b, true).unwrap_err(),
        "NTFS sector fixup mismatch (record changed or damaged)"
    );
    assert_eq!(
        fixup(&mut [0u8; 3], true).unwrap_err(),
        "NTFS record is truncated"
    );
}

#[test]
fn fragmented_signed_and_sparse_runs_decode() {
    let a = nonresident_attr(0, 5, 24000, &[0x11, 2, 10, 0x11, 3, 0xfe, 0x01, 1, 0]);
    assert_eq!(
        runs(&a).unwrap(),
        vec![
            Run {
                vcn: 0,
                lcn: Some(10),
                clusters: 2
            },
            Run {
                vcn: 2,
                lcn: Some(8),
                clusters: 3
            },
            Run {
                vcn: 5,
                lcn: None,
                clusters: 1
            }
        ]
    );
    let a = nonresident_attr(0, 0, 1, &[0x11, 1, 0xff, 0]);
    assert!(runs(&a).is_err());
    let a = nonresident_attr(0, 0, 1, &[0x99, 1, 0]);
    assert!(runs(&a).is_err());
}

#[test]
fn runlist_errors_name_what_is_wrong() {
    let error = |pairs: &[u8], high: u64| {
        runs(&nonresident_attr(0, high, 1, pairs)).unwrap_err()
    };
    assert_eq!(error(&[0x11, 1, 0xff, 0], 0), "Invalid LCN");
    assert_eq!(error(&[0x99, 1, 0], 0), "Invalid mapping pair width");
    assert_eq!(error(&[0x11, 0, 5, 0], 0), "Zero length mapping pair");
    assert_eq!(error(&[0], 0), "Incomplete mapping pairs");
    assert_eq!(
        error(&[0x11, 9, 5, 0], 0),
        "Mapping pairs exceed attribute range"
    );
    assert_eq!(error(&[0], u64::MAX), "VCN overflow");
    let mut a = nonresident_attr(0, 0, 1, &[0]);
    put16(&mut a, 32, 63);
    assert_eq!(runs(&a).unwrap_err(), "Invalid runlist offset");
    assert_eq!(
        runs(&resident_attr(0x80, &[1])).unwrap_err(),
        "Expected nonresident attribute"
    );
}

#[test]
fn sizes_dates_and_dos_aliases_are_decoded() {
    let mut si = vec![0; 48];
    put64(&mut si, 8, 116_444_736_000_000_000 + 10_000_000);
    put64(&mut si, 24, 116_444_736_000_000_000 + 20_000_000);
    let mut b = record(
        vec![
            resident_attr(0x10, &si),
            name_attr(frn(5), "한글.txt", 1),
            name_attr(frn(5), "ALIAS~1.TXT", 2),
            resident_attr(0x80, &[1; 17]),
        ],
        0,
    );
    fixup(&mut b, false).unwrap();
    let r = parse_record(&b, 42, true).unwrap().unwrap();
    assert_eq!(r.bytes, Some(17));
    assert_eq!(r.links.len(), 1);
    assert_eq!(r.links[0].name, units("한글.txt"));
    assert_eq!(r.modified, Some(seconds(1)));
    assert_eq!(r.accessed, Some(seconds(2)));
    let mut b = record(vec![nonresident_attr(0, 2, 9876, &[0x11, 3, 20, 0])], 0);
    fixup(&mut b, false).unwrap();
    assert_eq!(parse_record(&b, 42, true).unwrap().unwrap().bytes, Some(9876));
}

#[test]
fn extension_before_base_and_hard_links_are_merged_once() {
    let mut index = Index::default();
    index.insert(dir(5, 5, "root")).unwrap();
    index.insert(dir(20, 5, "child")).unwrap();
    let mut b = record(
        vec![
            resident_attr(0x80, &[0; 19]),
            name_attr(frn(20), "link.txt", 1),
        ],
        frn(40),
    );
    fixup(&mut b, false).unwrap();
    index
        .insert(parse_record(&b, 41, true).unwrap().unwrap())
        .unwrap();
    let mut b = record(vec![name_attr(frn(5), "file.txt", 1)], 0);
    fixup(&mut b, false).unwrap();
    let mut base = parse_record(&b, 40, true).unwrap().unwrap();
    base.expected = vec![frn(40), frn(41)];
    index.insert(base).unwrap();
    let r = report(&index);
    assert_eq!(r.nodes[0].bytes, 38);
    assert_eq!(r.nodes[0].files, 2);
    assert!(!r.nodes[0].incomplete);
    let r2 = report(&index);
    assert_eq!(r2.nodes[0].bytes, 38);
}

fn orders(n: usize) -> Vec<Vec<usize>> {
    if n == 0 {
        return vec![vec![]];
    }
    let mut all = vec![];
    for order in orders(n - 1) {
        for at in 0..n {
            let mut longer = order.clone();
            longer.insert(at, n - 1);
            all.push(longer);
        }
    }
    all
}

#[test]
fn records_give_the_same_map_in_every_order() {
    let part = |at: usize| match at {
        0 => dir(5, 5, "root"),
        1 => dir(20, 5, "child"),
        2 => {
            let mut base = dir(40, 5, "file");
            base.directory = false;
            base.expected = vec![frn(40), frn(41), frn(42)];
            base.modified = Some(seconds(7));
            base
        }
        3 => {
            let mut more = dir(41, 20, "link");
            more.base = frn(40);
            more.base_seen = false;
            more.bytes = Some(19);
            more
        }
        _ => {
            let mut again = dir(42, 20, "link");
            again.base = frn(40);
            again.base_seen = false;
            again.modified = Some(seconds(9));
            again
        }
    };
    for order in orders(5) {
        let mut index = Index::default();
        for at in order {
            index.insert(part(at)).unwrap();
        }
        let r = report(&index);
        assert_eq!(r.nodes.len(), 2);
        assert_eq!(r.nodes[0].bytes, 38);
        assert_eq!(r.nodes[1].bytes, 19);
        assert_eq!(r.nodes[0].files, 2);
        assert_eq!(r.nodes[1].modified, Some(seconds(9)));
        assert!(!r.nodes[0].incomplete);
        assert_eq!(r.progress.errors, 0);
        assert!(r.issues.is_empty());
    }
}

#[test]
fn repeated_names_of_one_record_count_once() {
    let mut index = Index::default();
    index.insert(dir(5, 5, "root")).unwrap();
    let mut file = dir(40, 5, "file");
    file.directory = false;
    file.bytes = Some(7);
    index.insert(file).unwrap();
    let mut again = dir(40, 5, "file");
    again.directory = false;
    again.bytes = Some(7);
    index.insert(again).unwrap();
    let r = report(&index);
    assert_eq!(r.nodes[0].bytes, 7);
    assert_eq!(r.nodes[0].files, 1);
    assert_eq!(r.progress.bytes, 7);
    let mut other = dir(40, 5, "file");
    other.bytes = Some(8);
    assert_eq!(
        index.insert(other).unwrap_err(),
        "Conflicting DATA lengths (MFT changed during scan)"
    );
    assert_eq!(report(&index).nodes[0].bytes, 7);
}

#[test]
fn missing_extension_and_stale_parent_are_partial() {
    let mut index = Index::default();
    index.insert(dir(5, 5, "root")).unwrap();
    let mut child = dir(20, 5, "child");
    child.expected = vec![frn(99)];
    index.insert(child).unwrap();
    let mut stale = dir(21, 20, "stale");
    stale.links[0].parent = 20 | (8 << 48);
    index.insert(stale).unwrap();
    let r = report(&index);
    assert!(r.nodes[0].incomplete);
    assert!(r.progress.errors > 0);
    assert_eq!(r.nodes.len(), 2);
    assert_eq!(
        r.issues,
        vec![
            "MFT: 부모 참조를 확인하지 못한 항목 2개 (스캔 중 변경 또는 아직 읽지 않은 레코드)"
                .to_string(),
            "MFT: 확장 속성 목록을 완전히 검증하지 못한 레코드 1개. 해당 폴더는 부분 집계입니다."
                .to_string(),
        ]
    );
}

#[test]
fn reparse_system_and_deleted_records_are_not_counted() {
    let mut index = Index::default();
    index.insert(dir(5, 5, "root")).unwrap();
    let mut link = dir(20, 5, "junction");
    link.reparse = true;
    index.insert(link).unwrap();
    index.insert(dir(21, 20, "not-followed")).unwrap();
    index.insert(dir(11, 5, "$Extend")).unwrap();
    let r = report(&index);
    assert_eq!(r.nodes.len(), 1);
    assert_eq!(r.progress.skipped, 1);
    let mut b = record(vec![], 0);
    put16(&mut b, 22, 0);
    assert!(parse_record(&b, 30, true).unwrap().is_none());
}

#[test]
fn malformed_records_never_panic() {
    let seed = record(
        vec![name_attr(frn(5), "a", 1), resident_attr(0x80, &[0; 5])],
        0,
    );
    for len in 0..seed.len() {
        let _ = parse_record(&seed[..len], 40, true);
    }
    for i in 0..seed.len() {
        let mut b = seed.clone();
        b[i] = 0xff;
        let _ = fixup(&mut b, false);
        let _ = parse_record(&b, 40, true);
    }
}

#[test]
fn attribute_list_references_are_bounds_checked() {
    let mut list = vec![0; 32];
    put32(&mut list, 0, 0x80);
    put16(&mut list, 4, 32);
    put64(&mut list, 16, frn(41));
    assert_eq!(list_references(&list).unwrap(), vec![frn(41)]);
    put16(&mut list, 4, 0);
    assert!(list_references(&list).is_err());
}

#[test]
fn attribute_list_references_come_sorted_and_once() {
    let mut list = vec![0; 96];
    for (i, n) in [9u64, 3, 9].iter().enumerate() {
        put32(&mut list, i * 32, 0x80);
        put16(&mut list, i * 32 + 4, 32);
        put64(&mut list, i * 32 + 16, frn(*n));
    }
    assert_eq!(list_references(&list).unwrap(), vec![frn(3), frn(9)]);
}

#[test]
fn subfolders_stand_breadth_first_by_key_with_joined_paths() {
    let mut index = Index::default();
    index.insert(dir(31, 20, "deep")).unwrap();
    index.insert(dir(30, 5, "b")).unwrap();
    index.insert(dir(20, 5, "a")).unwrap();
    index.insert(dir(5, 5, "root")).unwrap();
    let r = report(&index);
    let texts: Vec<String> = r.nodes.iter().map(|n| n.path.text()).collect();
    assert_eq!(texts, vec!["C:\\", "C:\\a", "C:\\b", "C:\\a\\deep"]);
    assert_eq!(r.nodes[0].children, vec![1, 2]);
    assert_eq!(r.nodes[1].children, vec![3]);
    assert_eq!(r.nodes[3].parent, Some(1));
    assert_eq!(r.progress.folders, 4);
    assert_eq!(r.progress.errors, 0);
}

#[test]
fn a_circle_of_folders_is_an_error() {
    let mut index = Index::default();
    index.insert(dir(5, 5, "root")).unwrap();
    index.insert(dir(20, 21, "a")).unwrap();
    index.insert(dir(21, 20, "b")).unwrap();
    let r = report(&index);
    assert_eq!(r.nodes.len(), 1);
    assert_eq!(r.progress.errors, 2);
    assert!(r.nodes[0].incomplete);
}

#[test]
fn an_index_without_a_root_is_incomplete() {
    let r = report(&Index::default());
    assert_eq!(r.nodes.len(), 1);
    assert_eq!(r.progress.errors, 1);
    assert!(r.nodes[0].incomplete);
}

#[test]
fn reads_fragmented_stream_across_extents_and_unaligned_ranges() {
    let mut disk = vec![0u8; 8192];
    disk[1024..1536].fill(11);
    disk[4096..4608].fill(22);
    let g = Geometry {
        sector: 512,
        cluster: 512,
        record: 1024,
        length: 1024,
        volume_bytes: 8192,
    };
    let mapping = vec![
        Run {
            vcn: 0,
            lcn: Some(2),
            clusters: 1,
        },
        Run {
            vcn: 1,
            lcn: Some(8),
            clusters: 1,
        },
    ];
    let read = |mapping: &Vec<Run>, offset: u64, len: u64| {
        let mut stream = Stream::new(offset, len);
        while let Some(piece) = stream.next(mapping, &g)? {
            let from = piece.offset as usize;
            let to = from + piece.length as usize;
            stream.take(piece, &disk[from..to]);
        }
        Ok::<Vec<u8>, String>(stream.bytes)
    };
    let data = read(&mapping, 500, 24).unwrap();
    assert_eq!(&data[..12], &[11; 12]);
    assert_eq!(&data[12..], &[22; 12]);
    assert_eq!(
        read(&mapping, 1024, 1).unwrap_err(),
        "MFT 데이터 구간이 누락되었습니다"
    );
    let outside = vec![Run {
        vcn: 0,
        lcn: Some(u64::MAX),
        clusters: 1,
    }];
    assert_eq!(read(&outside, 0, 512).unwrap_err(), "LCN overflow");
    let beyond = vec![Run {
        vcn: 0,
        lcn: Some(16),
        clusters: 1,
    }];
    assert_eq!(
        read(&beyond, 0, 512).unwrap_err(),
        "MFT run exceeds volume bounds"
    );
    let sparse = vec![Run {
        vcn: 0,
        lcn: None,
        clusters: 1,
    }];
    assert_eq!(
        read(&sparse, 0, 512).unwrap_err(),
        "Sparse MFT/attribute-list streams are unsupported"
    );
    let long = vec![Run {
        vcn: 0,
        lcn: Some(0),
        clusters: u64::MAX,
    }];
    assert_eq!(read(&long, 0, 512).unwrap_err(), "Run length overflow");
}

fn volume_data() -> Vec<u8> {
    let mut data = vec![0; 128];
    for (offset, value) in [(40, 512u32), (44, 4096), (48, 1024)] {
        data[offset..offset + 4].copy_from_slice(&value.to_le_bytes());
    }
    data[56..64].copy_from_slice(&8192u64.to_le_bytes());
    data[8..16].copy_from_slice(&10000u64.to_le_bytes());
    data[100..102].copy_from_slice(&3u16.to_le_bytes());
    data[102..104].copy_from_slice(&1u16.to_le_bytes());
    data
}

#[test]
fn volume_geometry_offsets_and_version_are_checked() {
    let mut data = volume_data();
    let g = decode_geometry(&data).unwrap();
    assert_eq!(g.record, 1024);
    assert_eq!(g.length, 8192);
    data[100] = 4;
    assert!(decode_geometry(&data).is_err());
    assert!(decode_geometry(&data[..96]).is_err());
}

#[test]
fn volume_geometry_errors_name_what_is_wrong() {
    let g = decode_geometry(&volume_data()).unwrap();
    assert_eq!(g.volume_bytes, 5_120_000);
    let mut data = volume_data();
    data[102] = 2;
    assert_eq!(decode_geometry(&data).unwrap_err(), "지원하지 않는 NTFS 버전");
    let mut data = volume_data();
    put32(&mut data, 48, 1000);
    assert_eq!(
        decode_geometry(&data).unwrap_err(),
        "지원하지 않는 NTFS 볼륨 구조"
    );
    let mut data = volume_data();
    put64(&mut data, 8, u64::MAX);
    assert_eq!(decode_geometry(&data).unwrap_err(), "Volume size overflow");
}

#[test]
fn only_the_requested_record_is_accepted() {
    let answer = |reference: u64, sequence: u16| {
        let mut data = record(vec![], 0);
        put16(&mut data, 16, sequence);
        let mut out = vec![0; 12];
        put64(&mut out, 0, reference);
        put32(&mut out, 8, 1024);
        out.extend(data);
        out
    };
    let data = accept_record(&answer(41, 7), frn(41), 1024).unwrap();
    assert_eq!(u16_at(&data, 510).unwrap(), 0x1234);
    assert_eq!(
        accept_record(&answer(40, 7), frn(41), 1024).unwrap_err(),
        "요청한 MFT 확장 레코드가 없거나 변경되었습니다"
    );
    assert_eq!(
        accept_record(&answer(41, 8), frn(41), 1024).unwrap_err(),
        "MFT 레코드 시퀀스 변경 감지"
    );
    assert!(accept_record(&answer(41, 8), 41, 1024).is_ok());
    assert!(accept_record(&answer(41, 7), frn(41), 512).is_err());
}

fn small_geometry() -> Geometry {
    Geometry {
        sector: 512,
        cluster: 1024,
        record: 1024,
        length: 4096,
        volume_bytes: 1 << 20,
    }
}

#[test]
fn record_file_extents_are_sorted_and_must_be_contiguous() {
    let g = small_geometry();
    let first = record(vec![nonresident_attr(2, 3, 0, &[0x11, 2, 50, 0])], frn(0));
    let second = record(vec![nonresident_attr(0, 1, 4096, &[0x11, 2, 10, 0])], 0);
    let mapping = mft_mapping(&vec![first.clone(), second], &g).unwrap();
    assert_eq!(
        mapping,
        vec![
            Run {
                vcn: 0,
                lcn: Some(10),
                clusters: 2
            },
            Run {
                vcn: 2,
                lcn: Some(50),
                clusters: 2
            }
        ]
    );
    assert_eq!(
        mft_mapping(&vec![first], &g).unwrap_err(),
        "MFT runlist contains gaps/overlap/sparse regions"
    );
    let short = record(vec![nonresident_attr(0, 1, 2048, &[0x11, 2, 10, 0])], 0);
    assert_eq!(
        mft_mapping(&vec![short], &g).unwrap_err(),
        "MFT 크기가 스캔 준비 중 변경되었습니다"
    );
    let inside = record(vec![resident_attr(0x80, &[0; 8])], 0);
    assert_eq!(
        mft_mapping(&vec![inside], &g).unwrap_err(),
        "Unsupported MFT DATA attribute"
    );
}

#[test]
fn attribute_lists_and_extensions_are_checked() {
    let mut list = vec![0; 64];
    for (i, n) in [0u64, 41].iter().enumerate() {
        put32(&mut list, i * 32, 0x80);
        put16(&mut list, i * 32 + 4, 32);
        put64(&mut list, i * 32 + 16, frn(*n));
    }
    let b = record(vec![resident_attr(0x20, &list)], 0);
    match attribute_list(&b, 0).unwrap() {
        Some((0, ListSource::Resident(refs))) => {
            assert_eq!(refs, vec![frn(0), frn(41)]);
            assert_eq!(extension_references(&refs).unwrap(), vec![frn(41)]);
        }
        _ => panic!("Expected a resident list"),
    }
    assert!(attribute_list(&b, 1).unwrap().is_none());
    assert!(attribute_list(&b, usize::MAX).unwrap().is_none());
    assert!(attribute_list(&record(vec![], 0), 0).unwrap().is_none());
    let two = record(
        vec![
            name_attr(frn(5), "a", 1),
            resident_attr(0x20, &list),
            resident_attr(0x20, &[]),
        ],
        0,
    );
    assert_eq!(attribute_list(&two, 0).unwrap().unwrap().0, 1);
    match attribute_list(&two, 2).unwrap() {
        Some((2, ListSource::Resident(refs))) => assert!(refs.is_empty()),
        _ => panic!("Expected a second list"),
    }
    let mut outside = nonresident_attr(0, 1, 100, &[0x11, 2, 10, 0]);
    put32(&mut outside, 0, 0x20);
    match attribute_list(&record(vec![outside.clone()], 0), 0).unwrap() {
        Some((0, ListSource::Nonresident(runs, len))) => {
            assert_eq!(runs.len(), 1);
            assert_eq!(len, 100);
        }
        _ => panic!("Expected a nonresident list"),
    }
    put64(&mut outside, 48, 16_777_217);
    assert_eq!(
        attribute_list(&record(vec![outside], 0), 0).unwrap_err(),
        "MFT 속성 목록이 지원 범위를 벗어났습니다"
    );
    assert_eq!(
        extension_references(&vec![1; 4097]).unwrap_err(),
        "MFT 확장 레코드가 너무 많습니다"
    );
    let base = record(vec![], 0);
    assert!(check_extension(&base, &record(vec![], 7 << 48)).is_ok());
    assert_eq!(
        check_extension(&base, &record(vec![], 8 << 48)).unwrap_err(),
        "MFT 확장 레코드의 부모가 변경되었습니다"
    );
}

#[test]
fn slots_are_read_only_when_in_use() {
    let mut index = Index::default();
    let mut used = record(vec![name_attr(frn(5), "file", 1)], 0);
    let mut deleted = record(vec![], 0);
    put16(&mut deleted, 22, 0);
    deleted[510] ^= 1;
    ingest(&mut index, &mut deleted, 39).unwrap();
    assert_eq!(index.len(), 0);
    ingest(&mut index, &mut used, 40).unwrap();
    assert_eq!(index.len(), 1);
    ingest(&mut index, &mut vec![0; 1024], 41).unwrap();
    assert_eq!(
        ingest(&mut index, &mut vec![1; 1024], 42).unwrap_err(),
        "MFT 레코드 42의 서명을 확인할 수 없습니다"
    );
    let mut chunk = record(vec![name_attr(frn(5), "a", 1)], 0);
    chunk.extend(record(vec![name_attr(frn(5), "b", 1)], 0));
    for (i, slot) in chunk.chunks_exact_mut(1024).enumerate() {
        ingest(&mut index, slot, 50 + i as u64).unwrap();
    }
    assert_eq!(index.len(), 3);
    assert_eq!(index.key_at(2), frn(51));
    let mut p = Progress::default();
    let mut slot = record(vec![name_attr(frn(5), "c", 1)], 0);
    let g = small_geometry();
    take_slot(&mut index, &mut p, &g, 64 * 1024, 2, &mut slot).unwrap();
    assert_eq!(index.key_at(3), frn(66));
    assert_eq!(p.records, 67);
    let wrong = take_slot(&mut index, &mut p, &g, 1024, 0, &mut vec![1; 1024]);
    assert_eq!(
        wrong.unwrap_err(),
        "MFT 레코드 1의 서명을 확인할 수 없습니다"
    );
    assert_eq!(p.records, 67);
}

#[test]
fn names_are_text_off_windows() {
    let mut attr = name_attr(frn(5), "ab", 1);
    put16(&mut attr, 24 + 66, 0xd800);
    let mut b = record(vec![attr], 0);
    fixup(&mut b, false).unwrap();
    let kept = parse_record(&b, 40, true).unwrap().unwrap();
    assert_eq!(kept.links[0].name, vec![0xd800, 98]);
    let shown = parse_record(&b, 40, false).unwrap().unwrap();
    assert_eq!(shown.links[0].name, vec![0xfffd, 98]);
}

#[test]
fn volume_progress_and_chunks_follow_the_geometry() {
    let g = Geometry {
        length: 5_000_000,
        ..small_geometry()
    };
    let p = volume_progress(&g, &root());
    assert_eq!(p.engine, "MFT 고속");
    assert_eq!(p.total_records, 4882);
    assert_eq!(chunk_length(&g, 0), 4_194_304);
    assert_eq!(chunk_length(&g, 4_194_304), 805_696);
    assert_eq!(chunk_length(&g, 5_000_000), 0);
    let run = |lcn| {
        vec![Run {
            vcn: 0,
            lcn: Some(lcn),
            clusters: 4,
        }]
    };
    assert!(check_unchanged(&g, &g, &run(1), &run(1)).is_ok());
    assert_eq!(
        check_unchanged(&g, &g, &run(1), &run(2)).unwrap_err(),
        "스캔 중 MFT 크기 또는 저장 구간이 변경되었습니다"
    );
    assert!(check_unchanged(&g, &small_geometry(), &run(1), &run(1)).is_err());
}

#[test]
fn attributes_are_bounds_checked() {
    for short in [&[][..], &[0; 8]] {
        assert_eq!(resident(short).unwrap_err(), "NTFS record is truncated");
        assert_eq!(runs(short).unwrap_err(), "NTFS record is truncated");
    }
    assert_eq!(resident(&[0; 9]).unwrap_err(), "NTFS record is truncated");
    assert_eq!(
        resident(&[1; 9]).unwrap_err(),
        "Expected resident attribute"
    );
    let b = record(vec![resident_attr(0x80, &[0; 5])], 0);
    assert_eq!(attributes(&b).unwrap().len(), 1);
    let mut long = b.clone();
    put32(&mut long, 24, 2048);
    assert_eq!(attributes(&long).unwrap_err(), "Invalid record length");
    let mut early = b.clone();
    put16(&mut early, 20, 40);
    assert_eq!(attributes(&early).unwrap_err(), "Invalid attribute offset");
    let mut thin = b.clone();
    put32(&mut thin, 60, 16);
    assert_eq!(attributes(&thin).unwrap_err(), "Invalid attribute length");
    let mut odd = b;
    odd[64] = 2;
    assert_eq!(attributes(&odd).unwrap_err(), "Invalid attribute form");
}
