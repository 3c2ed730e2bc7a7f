//! The language of the window. Saved texts keep the words they were saved in.
use vstd::prelude::*;
use crate::text::{chars_of, find, find_from, find_from_finds, is_at, replace, replace_from, same_text, stands_at, text_of, trim, trimmed};

verus! {

/// The language of the window.
#[derive(Clone, Copy, Debug, PartialEq, Eq, Structural)]
pub enum Language {
    Korean,
    English,
}

impl Default for Language {
    fn default() -> (r: Language)
        ensures
            r == Language::Korean,
    {
        Language::Korean
    }
}

/// What stands in a message for a part that varies.
pub const HOLE: &'static str = "{detail}";

/// The part of `value` that stands where `template` has its hole.
pub open spec fn detail_of(template: Seq<char>, value: Seq<char>) -> Option<Seq<char>> {
    match find_from(template, HOLE@, 0) {
        None => None,
        Some(at) => {
            let prefix = template.take(at);
            let suffix = template.skip(at + HOLE@.len());
            let end = value.len() - suffix.len();
            if prefix.len() <= end && prefix.len() + suffix.len() > 0 && stands_at(value, prefix, 0)
                && stands_at(value, suffix, end) {
                Some(value.subrange(prefix.len() as int, end))
            } else {
                None
            }
        },
    }
}

/// The first message, from `from` on, whose words are exactly `value`.
pub open spec fn message_with_words(value: Seq<char>, from: int) -> Option<int>
    decreases MESSAGES@.len() - from,
{
    if from >= MESSAGES@.len() {
        None
    } else if MESSAGES@[from].0@ == value {
        Some(from)
    } else {
        message_with_words(value, from + 1)
    }
}

/// The first message, from `from` on, whose template fits `value`.
pub open spec fn message_with_detail(value: Seq<char>, from: int) -> Option<int>
    decreases MESSAGES@.len() - from,
{
    if from >= MESSAGES@.len() {
        None
    } else if detail_of(MESSAGES@[from].0@, value) is Some {
        Some(from)
    } else {
        message_with_detail(value, from + 1)
    }
}

/// `value` in English, as far as it is made of known messages.
pub open spec fn in_english(value: Seq<char>) -> Seq<char>
    decreases value.len(),
{
    match message_with_words(value, 0) {
        Some(i) => MESSAGES@[i].1@,
        None => match message_with_detail(value, 0) {
            None => value,
            Some(i) => {
                let detail = detail_of(MESSAGES@[i].0@, value);
                match detail {
                    Some(d) if d.len() < value.len() => replace_from(
                        MESSAGES@[i].1@,
                        HOLE@,
                        in_english(d),
                        0,
                    ),
                    _ => value,
                }
            },
        },
    }
}

fn find_detail(template: &str, value: &Vec<char>) -> (r: Option<String>)
    ensures
        match r {
            Some(d) => detail_of(template@, value@) == Some(d@),
            None => detail_of(template@, value@) is None,
        },
{
    let words = chars_of(template);
    let hole = chars_of(HOLE);
    proof {
        find_from_finds(template@, HOLE@, 0);
    }
    let at: usize = match find(&words, &hole, 0) {
        None => {
            return None;
        },
        Some(i) => i,
    };
    assert(words.len() == words@.len() && value.len() == value@.len());
    let rest: usize = at + hole.len();
    let prefix = chars_of(text_of(&words, 0, at).as_str());
    let suffix = chars_of(text_of(&words, rest, words.len()).as_str());
    assert(prefix@ =~= template@.take(at as int));
    assert(suffix@ =~= template@.skip(at + HOLE@.len()));
    if suffix.len() > value.len() {
        return None;
    }
    let end: usize = value.len() - suffix.len();
    if prefix.len() <= end && (prefix.len() > 0 || suffix.len() > 0) && is_at(value, &prefix, 0)
        && is_at(value, &suffix, end) {
        Some(text_of(value, prefix.len(), end))
    } else {
        None
    }
}

fn english(value: &str) -> (r: String)
    ensures
        r@ == in_english(value@),
    decreases value@.len(),
{
    let mut i: usize = 0;
    while i < MESSAGES.len()
        invariant
            i <= MESSAGES@.len(),
            message_with_words(value@, i as int) == message_with_words(value@, 0),
        decreases MESSAGES@.len() - i,
    {
        if same_text(MESSAGES[i].0, value) {
            return MESSAGES[i].1.to_string();
        }
        i += 1;
    }
    let chars = chars_of(value);
    let mut i: usize = 0;
    while i < MESSAGES.len()
        invariant
            i <= MESSAGES@.len(),
            chars@ == value@,
            message_with_words(value@, 0) is None,
            message_with_detail(value@, i as int) == message_with_detail(value@, 0),
        decreases MESSAGES@.len() - i,
    {
        if let Some(detail) = find_detail(MESSAGES[i].0, &chars) {
            proof {
                reveal_strlit("{detail}");
                find_from_finds(MESSAGES@[i as int].0@, HOLE@, 0);
            }
            let translated = english(detail.as_str());
            return replace(MESSAGES[i].1, HOLE, translated.as_str());
        }
        i += 1;
    }
    value.to_string()
}

impl Language {
    /// The language that a saved preference names; Korean where it names none.
    pub fn parse(value: &str) -> (r: Language)
        ensures
            r == if trimmed(value@) == "en"@ {
                Language::English
            } else {
                Language::Korean
            },
    {
        if same_text(trim(value).as_str(), "en") {
            Language::English
        } else {
            Language::Korean
        }
    }

    /// The text in which the preference is saved.
    pub open spec fn code_text(self) -> Seq<char> {
        match self {
            Language::Korean => "ko"@,
            Language::English => "en"@,
        }
    }

    /// The text in which the preference is saved.
    pub fn save(self) -> (r: String)
        ensures
            r@ == self.code_text(),
    {
        match self {
            Language::Korean => "ko".to_string(),
            Language::English => "en".to_string(),
        }
    }

    /// A text of the program, in this language. Only known messages are
    /// translated; whatever stands in their holes, such as a path, is kept
    /// unless it is a known message itself.
    pub fn message(self, value: &str) -> (r: String)
        ensures
            r@ == if self == Language::Korean {
                value@
            } else {
                in_english(value@)
            },
    {
        match self {
            Language::Korean => value.to_string(),
            Language::English => english(value),
        }
    }

    /// The one of two texts that is in this language.
    pub fn pick<'a>(self, korean: &'a str, english: &'a str) -> (r: &'a str)
        ensures
            r@ == if self == Language::Korean {
                korean@
            } else {
                english@
            },
    {
        match self {
            Language::Korean => korean,
            Language::English => english,
        }
    }
}

/// A saved preference is understood again.
pub proof fn preferences_survive(language: Language)
    ensures
        (trimmed(language.code_text()) == "en"@) == (language == Language::English),
{
    reveal_strlit("en");
    reveal_strlit("ko");
    assert("en"@ != "ko"@) by {
        assert("en"@[0] != "ko"@[0]);
    }
    let t = language.code_text();
    assert(t.len() == 2);
    assert(trimmed(t) == t);
}

/// Text that is no known message, whole or with a detail, is shown as it is.
pub proof fn other_text_is_kept(value: Seq<char>)
    requires
        message_with_words(value, 0) is None,
        message_with_detail(value, 0) is None,
    ensures
        in_english(value) == value,
{
}

/// The messages of the program, in Korean and in English.
pub const MESSAGES: [(&'static str, &'static str); 72] = [
    ("폴더 열거", "Directory enumeration"),
    ("MFT 고속", "Fast MFT"),
    (
        "저장 DB 위치를 찾을 수 없습니다.",
        "Cannot locate the database directory.",
    ),
    ("스캔할 경로를 입력하세요.", "Enter a path to scan."),
    (
        "스캔 완료 후 결과를 자동 저장합니다.",
        "Results will be saved automatically after scanning.",
    ),
    (
        "재스캔 중: {detail} · 완료 전까지 기존 지도를 유지합니다.",
        "Rescanning: {detail} · Showing the previous map until completion.",
    ),
    (
        "부분 재스캔 작업이 종료되었습니다. 기존 결과를 유지합니다.",
        "The refresh worker stopped. Previous results are retained.",
    ),
    (
        "현재 폴더 재스캔 결과를 반영했습니다.",
        "Folder refresh results applied.",
    ),
    (
        "기존 지도와 DB를 유지했습니다.",
        "The previous map and database were preserved.",
    ),
    (
        "스캔 작업이 예기치 않게 종료되었습니다.",
        "The scan worker stopped unexpectedly.",
    ),
    (
        "저장 결과를 찾을 경로를 입력하세요.",
        "Enter the path of the saved map to open.",
    ),
    ("저장된 지도 불러오는 중…", "Loading saved map…"),
    ("DB 작업이 종료되었습니다.", "The database worker stopped."),
    (
        "중지된 결과는 저장하지 않습니다. 이전 저장 결과가 유지됩니다.",
        "Stopped scans are not saved. The previous saved map is retained.",
    ),
    (
        "스캔 완료 · DB 저장 중…",
        "Scan complete · Saving to database…",
    ),
    (
        "DB 작업이 종료되어 결과를 저장하지 못했습니다.",
        "Results could not be saved because the database worker stopped.",
    ),
    (
        "DB 작업이 종료되었습니다. 저장 여부를 확인하세요.",
        "The database worker stopped. Check whether results were saved.",
    ),
    (
        "저장된 지도를 복원했습니다. ‘현재 폴더 재스캔’ 또는 ‘전체 다시 스캔’으로 갱신하세요.",
        "Saved map restored. Use Rescan current folder or Rescan all to update it.",
    ),
    (
        "저장된 결과가 없습니다. 스캔 완료 후 자동 저장됩니다.",
        "No saved map found. Results are saved automatically after scanning.",
    ),
    (
        "저장된 지도를 읽지 못했습니다: {detail}",
        "Cannot load saved map: {detail}",
    ),
    ("DB 저장 실패: {detail}", "Database save failed: {detail}"),
    ("DB 저장 완료 · {detail}", "Database saved · {detail}"),
    (
        "DB 저장 실패 (스캔 결과는 화면에서 확인 가능): {detail}",
        "Database save failed (scan results remain visible): {detail}",
    ),
    (
        "언어 설정 저장 실패: {detail}",
        "Cannot save language preference: {detail}",
    ),
    (
        "데모 경로는 탐색기로 열 수 없습니다.",
        "Demo paths cannot be opened in Explorer.",
    ),
    (
        "탐색기를 열 수 없습니다: {detail}",
        "Cannot open Explorer: {detail}",
    ),
    (
        "MFT를 사용할 수 없어 폴더 열거로 전환: {detail}",
        "MFT unavailable; falling back to directory enumeration: {detail}",
    ),
    (
        "폴더 경로는 기존 방식으로 스캔합니다. MFT는 로컬 드라이브 루트에서 사용합니다.",
        "Folders use directory enumeration. MFT scanning is available for local drive roots.",
    ),
    (
        "폴더 경로는 기존 방식으로 스캔합니다. MFT는 로컬 드라이브 루트에서 사용합니다. · 읽기 실패한 부분은 이전 집계를 유지했습니다.",
        "Folders use directory enumeration. MFT scanning is available for local drive roots. Previous totals were retained for unreadable items.",
    ),
    (
        "경로를 읽을 수 없습니다: {detail}",
        "Cannot read path: {detail}",
    ),
    (
        "일반 디렉터리 또는 드라이브 루트를 선택하세요 (링크 제외).",
        "Select a regular directory or drive root (not a link).",
    ),
    (
        "부분 재스캔을 중지했습니다. 기존 지도와 저장 결과를 유지합니다.",
        "Refresh stopped. The previous map and saved results are retained.",
    ),
    (
        "재스캔할 완료된 폴더 결과가 없습니다.",
        "No completed folder scan is available to refresh.",
    ),
    (
        "경로가 일반 폴더가 아닙니다. 상위 폴더를 재스캔하세요.",
        "The path is no longer a regular folder. Rescan its parent.",
    ),
    (
        "경로를 확인할 수 없어 기존 결과를 유지합니다: {detail}",
        "Cannot verify the path; previous results retained: {detail}",
    ),
    (
        "상위 경로 확인 실패: {detail}",
        "Cannot verify ancestor path: {detail}",
    ),
    (
        "상위 경로가 링크 또는 다른 형식으로 변경되어 기존 결과를 유지합니다.",
        "An ancestor became a link or another type; previous results retained.",
    ),
    (
        "삭제 경로를 확인할 수 없습니다.",
        "Cannot verify the deleted path.",
    ),
    (
        "경로가 다시 나타났습니다. 기존 결과를 유지합니다. 재스캔을 다시 실행하세요.",
        "The path reappeared. Previous results retained; try refreshing again.",
    ),
    (
        "부분 재스캔 중: {detail} · 완료 후 지도에 적용",
        "Refreshing: {detail} · The map will update after completion",
    ),
    (
        "재스캔 중 읽기 오류가 있어 기존 결과를 유지합니다. {detail}",
        "Refresh did not complete; previous results retained. {detail}",
    ),
    ("스캔 중지", "Scan stopped"),
    (
        "루트 삭제는 부분 갱신으로 처리하지 않습니다.",
        "Root deletion cannot be handled by a partial refresh.",
    ),
    (
        "상위 폴더의 직속 파일 정보 갱신 중…",
        "Refreshing direct-file metadata in ancestor folders…",
    ),
    (
        "부분 갱신: {detail} · 읽기 실패한 항목과 범위 밖 폴더는 이전 집계 유지. 오류·제외 수와 상세는 누적 진단입니다.",
        "Partial refresh: {detail} · Unreadable items and folders outside this scope retain previous totals. Diagnostics are cumulative.",
    ),
    (
        "상위 폴더 형식이 변경되었습니다.",
        "An ancestor folder changed type.",
    ),
    (
        "상위 폴더 읽기 실패: {detail}",
        "Cannot read ancestor folder: {detail}",
    ),
    (
        "상위 항목 읽기 실패: {detail}",
        "Cannot read ancestor entry: {detail}",
    ),
    (
        "재스캔 경로가 일치하지 않습니다.",
        "Refresh path does not match.",
    ),
    (
        "저장 DB 형식이 이 버전과 호환되지 않습니다. DB를 다른 이름으로 옮긴 뒤 다시 스캔하세요.",
        "The saved database format is incompatible. Rename the database and scan again.",
    ),
    (
        "중지되었거나 진행 중인 스캔은 저장하지 않습니다.",
        "Stopped or ongoing scans cannot be saved.",
    ),
    ("NTFS 조회 실패: {detail}", "NTFS query failed: {detail}"),
    ("지원하지 않는 NTFS 버전", "Unsupported NTFS version"),
    (
        "지원하지 않는 NTFS 볼륨 구조",
        "Unsupported NTFS volume layout",
    ),
    (
        "요청한 MFT 확장 레코드가 없거나 변경되었습니다",
        "The requested MFT extension record is missing or changed",
    ),
    ("MFT 레코드 시퀀스 변경 감지", "MFT record sequence changed"),
    (
        "MFT 데이터 구간이 누락되었습니다",
        "Missing MFT data extent",
    ),
    (
        "MFT 디스크 읽기 실패: {detail}",
        "MFT disk read failed: {detail}",
    ),
    (
        "MFT 속성 목록이 지원 범위를 벗어났습니다",
        "MFT attribute list exceeds supported limits",
    ),
    (
        "MFT 확장 레코드가 너무 많습니다",
        "Too many MFT extension records",
    ),
    (
        "MFT 확장 레코드의 부모가 변경되었습니다",
        "MFT extension record parent changed",
    ),
    (
        "MFT 크기가 스캔 준비 중 변경되었습니다",
        "MFT size changed during scan preparation",
    ),
    (
        "로컬 고정/이동식 드라이브만 지원합니다",
        "Only local fixed and removable drives are supported",
    ),
    (
        "볼륨 읽기 권한이 필요합니다. 관리자 권한으로 실행하세요 ({detail})",
        "Volume read permission is required. Run as administrator ({detail})",
    ),
    (
        "NTFS MFT 직접 읽기 · 시스템 메타파일 제외 · 하드 링크는 경로별 집계",
        "Direct NTFS MFT scan · System metafiles excluded · Hard links counted per path",
    ),
    (
        "MFT 레코드 {detail}의 서명을 확인할 수 없습니다",
        "Cannot verify the signature of MFT record {detail}",
    ),
    (
        "스캔 중 MFT 크기 또는 저장 구간이 변경되었습니다",
        "MFT size or storage extents changed during scanning",
    ),
    (
        "MFT: 부모 참조를 확인하지 못한 항목 {detail}개 (스캔 중 변경 또는 아직 읽지 않은 레코드)",
        "MFT: {detail} unresolved parent references (records changed or not yet read)",
    ),
    (
        "MFT: 확장 속성 목록을 완전히 검증하지 못한 레코드 {detail}개. 해당 폴더는 부분 집계입니다.",
        "MFT: {detail} records have unverified extension attributes. Their folders have incomplete totals.",
    ),
    (
        "{detail} (직속 파일은 이전 집계 유지)",
        "{detail} (previous direct-file totals retained)",
    ),
    ("{detail} (삭제 확인)", "{detail} (deletion confirmed)"),
    (
        "{detail} · 읽기 실패한 부분은 이전 집계를 유지했습니다.",
        "{detail} · Previous totals retained for unreadable items.",
    ),
];

} // verus!
