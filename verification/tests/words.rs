use diskusagemap::i18n::Language;
use diskusagemap::labels::{age_text, date_label, date_text, demo_report, drives, size};
use diskusagemap::text::{contains, replace, trim, utf16_text, utf16_units};
use diskusagemap::time::Timestamp;

#[test]
fn language_preference_roundtrips_and_invalid_value_defaults_to_korean() {
    for language in [Language::English, Language::Korean] {
        assert_eq!(Language::parse(&language.save()), language);
    }
    assert_eq!(Language::parse("invalid"), Language::Korean);
    assert_eq!(Language::parse(" en\u{3000}\r\n"), Language::English);
    assert_eq!(Language::default(), Language::Korean);
}

#[test]
fn saved_diagnostics_switch_language_without_changing_paths() {
    let path = r"D:\자료\스캔 완료\한글.txt";
    let message = format!("부분 재스캔 중: {path} · 완료 후 지도에 적용");
    assert_eq!(Language::Korean.message(&message), message);
    assert_eq!(
        Language::English.message(&message),
        format!("Refreshing: {path} · The map will update after completion")
    );
    assert_eq!(Language::English.message(path), path);
    assert_eq!(
        Language::English
            .message("MFT를 사용할 수 없어 폴더 열거로 전환: 지원하지 않는 NTFS 버전"),
        "MFT unavailable; falling back to directory enumeration: Unsupported NTFS version"
    );
}

#[test]
fn messages_nest_and_keep_unknown_details() {
    assert_eq!(
        Language::English.message("DB 저장 완료 · 2026-01-01"),
        "Database saved · 2026-01-01"
    );
    assert_eq!(
        Language::English.message("부분 갱신: D:\\x (삭제 확인) · 읽기 실패한 항목과 범위 밖 폴더는 이전 집계 유지. 오류·제외 수와 상세는 누적 진단입니다."),
        "Partial refresh: D:\\x (deletion confirmed) · Unreadable items and folders outside this scope retain previous totals. Diagnostics are cumulative."
    );
    assert_eq!(Language::English.message("스캔 중지"), "Scan stopped");
    assert_eq!(Language::English.pick("가", "a"), "a");
}

#[test]
fn ages_and_dates_have_words() {
    assert_eq!(age_text(Language::Korean, Some(540)), "540일 전");
    assert_eq!(age_text(Language::English, Some(0)), "0 days ago");
    assert_eq!(age_text(Language::Korean, None), "날짜 미확인");
    assert_eq!(age_text(Language::English, None), "Date unknown");
    let at = |seconds: i128| Timestamp::from_nanos(seconds * 1_000_000_000).unwrap();
    assert_eq!(date_label(Language::English, at(-1)), "Time unknown");
    assert_eq!(date_label(Language::Korean, at(-1)), "시각 미확인");
    assert_eq!(
        date_label(Language::English, at(8_210_266_876_800)),
        "Time unknown"
    );
    let label = date_label(Language::English, at(1_750_000_000));
    assert_eq!(label.len(), 19);
    assert!(label.starts_with("2025-06-1"));
    assert_ne!(date_label(Language::English, at(8_210_266_876_799)), "Time unknown");
    // Whatever the zone, the shown day and time are less than a day from UTC.
    for seconds in [0, 951_782_400, 1_750_000_000, 4_107_542_399, 253_402_300_800i64] {
        let label = date_label(Language::English, at(i128::from(seconds)));
        let told = chrono::NaiveDateTime::parse_from_str(&label, "%Y-%m-%d %H:%M:%S").unwrap();
        assert!((told.and_utc().timestamp() - seconds).abs() < 86_400, "{label}");
    }
    assert!(date_label(Language::English, at(300_000_000_000)).starts_with("+11476-"));
    assert_eq!(date_text(Language::Korean, Some("x".into())), "x");
    assert_eq!(date_text(Language::Korean, None), "시각 미확인");
}

#[test]
fn drive_masks_name_drives() {
    assert_eq!(drives(0b1101), vec!["A:\\", "C:\\", "D:\\"]);
    assert_eq!(drives(1 << 25), vec!["Z:\\"]);
    assert!(drives(0).is_empty());
}

#[test]
fn demo_totals_add_up() {
    let now = Timestamp::from_nanos(1_750_000_000_000_000_000).unwrap();
    let r = demo_report(now, 47);
    let gib = 1024u64 * 1024 * 1024;
    assert_eq!(r.nodes[0].bytes, 133 * gib);
    assert_eq!(r.nodes[1].bytes, 60 * gib);
    assert_eq!(r.nodes[2].bytes, 19 * gib);
    assert_eq!(r.nodes[4].bytes, 36 * gib);
    assert_eq!(r.nodes[0].files, 133 * 80);
    assert_eq!(r.nodes[5].path.text(), "Demo/Archive/Backups");
    assert_eq!(r.nodes[5].age_days(false, now), Some(600));
    assert_eq!(r.nodes[1].age_days(false, now), Some(540));
    assert_eq!(r.nodes[4].age_days(false, now), Some(90));
    assert_eq!(r.nodes[1].children, vec![5, 6]);
    assert_eq!(r.progress.bytes, r.nodes[0].bytes);
}

#[test]
fn utf16_text_survives_and_lone_surrogates_are_replaced() {
    let text = "한글 a😀\u{10FFFF}";
    assert_eq!(utf16_units(text), text.encode_utf16().collect::<Vec<u16>>());
    assert_eq!(utf16_text(&utf16_units(text)), text);
    assert_eq!(utf16_text(&vec![0xD800, 97, 0xDC00]), "\u{FFFD}a\u{FFFD}");
    assert_eq!(
        utf16_text(&vec![0xD800, 0xD83D, 0xDE00]),
        String::from_utf16_lossy(&[0xD800, 0xD83D, 0xDE00])
    );
}

#[test]
fn text_search_and_replacement() {
    assert!(contains("abcabd", "abd"));
    assert!(contains("abc", ""));
    assert!(!contains("ab", "abc"));
    assert_eq!(replace("a{x}b{x}", "{x}", "--"), "a--b--");
    assert_eq!(replace("aaa", "aa", "b"), "aaa".replace("aa", "b"));
    assert_eq!(trim("\t a b \u{a0}"), "a b");
    assert_eq!(trim("  "), "");
}

#[test]
fn sizes_are_shown_in_the_largest_fitting_unit() {
    assert_eq!(size(0), "0.0 B");
    assert_eq!(size(1023), "1023.0 B");
    assert_eq!(size(1024), "1.0 KiB");
    assert_eq!(size(1_280), "1.2 KiB");
    assert_eq!(size(1_792), "1.8 KiB");
    assert_eq!(size(1_048_575), "1024.0 KiB");
    assert_eq!(size(3 << 29), "1.5 GiB");
    assert_eq!(size(u64::MAX), "16384.0 PiB");
}

#[test]
fn sizes_agree_with_floating_point() {
    let float_text = |bytes: u64| {
        let units = ["B", "KiB", "MiB", "GiB", "TiB", "PiB"];
        let mut n = bytes as f64;
        let mut i = 0;
        while n >= 1024.0 && i < units.len() - 1 {
            n /= 1024.0;
            i += 1;
        }
        format!("{n:.1} {}", units[i])
    };
    for shift in 0..64 {
        for factor in [1u64, 3, 5, 7, 9, 13, 25, 1023, 1025] {
            for near in [-513i64, -512, -1, 0, 1, 511, 512, 513, 1024] {
                let bytes = factor.wrapping_shl(shift).wrapping_add_signed(near);
                assert_eq!(size(bytes), float_text(bytes), "{bytes}");
            }
        }
    }
}
