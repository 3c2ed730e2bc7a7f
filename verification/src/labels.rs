//! Texts that the window shows for numbers and dates, and the demo map.
use vstd::prelude::*;
use crate::i18n::Language;
use crate::path::{FolderPath, PathView};
use crate::scan::{Progress, ProgressView, Report};
use crate::text::{decimal, digits, encode_utf16, join2, join3, utf16_units};
use crate::time::{representable, Duration, Timestamp, NANOS_PER_SECOND};
use crate::tree::{added_up, adding_up_gives_sizes, aggregate, joined, join_folder, joining_keeps_the_shape, no_children, shaped, sizes_add_up, totals_do_not_move_folders, tree_of, Node, NodeView};

verus! {

/// The form in which dates are shown.
pub const DATE_FORMAT: &'static str = "%Y-%m-%d %H:%M:%S";

/// The last second that the calendar knows.
pub const LAST_SECOND: i64 = 8_210_266_876_799;

/// Whether a year has a 29th of February.
pub open spec fn leap_year(year: int) -> bool {
    year % 4 == 0 && (year % 100 != 0 || year % 400 == 0)
}

/// How many days a month has.
pub open spec fn month_length(year: int, month: int) -> int {
    if month == 2 {
        if leap_year(year) {
            29
        } else {
            28
        }
    } else if month == 4 || month == 6 || month == 9 || month == 11 {
        30
    } else {
        31
    }
}

/// How many days of a year lie before a month.
pub open spec fn days_before_month(year: int, month: int) -> int
    decreases month,
{
    if month <= 1 {
        0
    } else {
        days_before_month(year, month - 1) + month_length(year, month - 1)
    }
}

/// Whether the Gregorian calendar has a day.
pub open spec fn is_day(year: int, month: int, day: int) -> bool {
    1 <= month <= 12 && 1 <= day <= month_length(year, month)
}

/// How many days lie between 1970-01-01 and a day: 365 for each year, one more
/// for each leap year, of which 477 lie before 1970.
pub open spec fn day_number(year: int, month: int, day: int) -> int {
    let before = year - 1;
    365 * (year - 1970) + (before / 4 - before / 100 + before / 400 - 477) + days_before_month(
        year,
        month,
    ) + day - 1
}

/// A number below a hundred in two digits.
pub open spec fn two_digits(n: int) -> Seq<char> {
    digits(n / 10) + digits(n % 10)
}

/// A day from 1000 on as `2024-02-29`; years of more than four digits have a
/// plus sign.
pub open spec fn day_text(year: int, month: int, day: int) -> Seq<char> {
    (if year > 9999 {
        "+"@ + digits(year)
    } else {
        digits(year)
    }) + "-"@ + two_digits(month) + "-"@ + two_digits(day)
}

/// A second of a day as `23:59:58`.
pub open spec fn clock_text(second: int) -> Seq<char> {
    two_digits(second / 3600) + ":"@ + two_digits(second / 60 % 60) + ":"@ + two_digits(second % 60)
}

/// Whether a text tells the day and time `second` seconds after 1970-01-01 00:00:00.
pub open spec fn tells(text: Seq<char>, second: int) -> bool {
    exists|year: int, month: int, day: int|
        is_day(year, month, day) && day_number(year, month, day) == second / 86400 && text
            == #[trigger] day_text(year, month, day) + " "@ + clock_text(second % 86400)
}

/// Whether a text tells the day and time of an instant, `second` seconds after
/// 1970-01-01 00:00:00 UTC, in some time zone; zones differ from UTC by less
/// than a day.
pub open spec fn shows(text: Seq<char>, second: int) -> bool {
    exists|offset: int| -86400 < offset < 86400 && #[trigger] tells(text, second + offset)
}

/// The local date and time of an instant, as `chrono::DateTime::from_timestamp`,
/// `with_timezone` to `chrono::Local` and `format` give it: there is one exactly
/// up to the last second of the year 262142, and it is the Gregorian day and the
/// time of the day in a zone less than a day from UTC. Which zone depends on the
/// machine, so that is not said.
#[verifier::external_body]
fn local_time(seconds: i64, nanos: u32, format: &str) -> (r: Option<String>)
    requires
        0 <= seconds,
        nanos < NANOS_PER_SECOND,
        format@ == DATE_FORMAT@,
    ensures
        r is Some <==> seconds <= LAST_SECOND,
        r matches Some(text) ==> shows(text@, seconds as int),
{
    let date = chrono::DateTime::from_timestamp(seconds, nanos)?;
    Some(date.with_timezone(&chrono::Local).format(format).to_string())
}

/// What is shown for an instant that has no date.
pub open spec fn unknown_time(language: Language) -> Seq<char> {
    if language == Language::Korean {
        "시각 미확인"@
    } else {
        "Time unknown"@
    }
}

/// Whether an instant has a date that can be shown.
pub open spec fn has_date(at: int) -> bool {
    0 <= at && at / (NANOS_PER_SECOND as int) <= LAST_SECOND
}

/// What is shown for an instant, given its local date where it has one.
pub fn date_text(language: Language, date: Option<String>) -> (r: String)
    ensures
        r@ == match date {
            Some(text) => text@,
            None => unknown_time(language),
        },
{
    match date {
        Some(text) => text,
        None => language.pick("시각 미확인", "Time unknown").to_string(),
    }
}

/// The local date and time of an instant, as shown in the window. The time zone
/// is the machine's.
pub fn date_label(language: Language, at: Timestamp) -> (r: String)
    ensures
        !has_date(at@) ==> r@ == unknown_time(language),
        has_date(at@) ==> shows(r@, at@ / (NANOS_PER_SECOND as int)),
{
    let nanos: i128 = at.nanos();
    if nanos < 0 {
        return date_text(language, None);
    }
    let seconds: i128 = nanos / NANOS_PER_SECOND;
    let rest: i128 = nanos % NANOS_PER_SECOND;
    date_text(language, local_time(seconds as i64, rest as u32, DATE_FORMAT))
}

/// The whole number nearest to `n / d`; of two equally near, the even one.
pub open spec fn half_even(n: int, d: int) -> int {
    if 2 * (n % d) < d || (2 * (n % d) == d && (n / d) % 2 == 0) {
        n / d
    } else {
        n / d + 1
    }
}

/// The step between the floating-point numbers of 53 significant bits around `n`,
/// if it is at least `step`.
pub open spec fn float_step(n: int, step: int) -> int
    decreases n - step,
{
    if step <= 0 || n < 0x20_0000_0000_0000 * step {
        step
    } else {
        float_step(n, 2 * step)
    }
}

/// The floating-point number of 53 significant bits nearest to `n`.
pub open spec fn nearest_float(n: int) -> int {
    half_even(n, float_step(n, 1)) * float_step(n, 1)
}

/// The names of the units, each 1024 of the one before.
pub const UNITS: [&'static str; 6] = ["B", "KiB", "MiB", "GiB", "TiB", "PiB"];

/// Bytes in the unit at this position.
pub open spec fn bytes_in_unit(i: nat) -> int
    decreases i,
{
    if i == 0 {
        1
    } else {
        1024 * bytes_in_unit((i - 1) as nat)
    }
}

/// The first unit from `i` on of which there are less than 1024, or the last unit.
pub open spec fn fitting_unit(bytes: int, i: nat) -> nat
    decreases 5 - i,
{
    if i < 5 && bytes >= bytes_in_unit(i + 1) {
        fitting_unit(bytes, i + 1)
    } else {
        i
    }
}

/// A number of tenths, with its decimal point.
pub open spec fn tenths_text(tenths: int) -> Seq<char> {
    digits(tenths / 10) + "."@ + digits(tenths % 10)
}

/// What is shown for a size: the number in the largest unit that is not too
/// large, to one decimal.
pub open spec fn size_text(bytes: int) -> Seq<char> {
    let n = nearest_float(bytes);
    let unit = fitting_unit(n, 0);
    tenths_text(half_even(n * 10, bytes_in_unit(unit))) + " "@ + UNITS[unit as int]@
}

fn round_half_even(n: u128, d: u128) -> (r: u128)
    requires
        0 < d <= 0x1_0000_0000_0000_0000,
        n < 0x1000_0000_0000_0000_0000_0000,
    ensures
        r == half_even(n as int, d as int),
        r <= n / d + 1,
        r * d <= n + d,
{
    let q: u128 = n / d;
    let rest: u128 = n % d;
    assert(q * d + rest == n && q <= n && (q + 1) * d == q * d + d) by (nonlinear_arith)
        requires
            q == n / d,
            rest == n % d,
            d > 0,
    ;
    if 2 * rest < d || (2 * rest == d && q % 2 == 0) {
        q
    } else {
        q + 1
    }
}

/// A size in words.
pub fn size(bytes: u64) -> (r: String)
    ensures
        r@ == size_text(bytes as int),
{
    let n: u128 = bytes as u128;
    let mut step: u128 = 1;
    while n >= 0x20_0000_0000_0000 * step
        invariant
            n == bytes,
            0 < step <= 0x1_0000,
            float_step(n as int, 1) == float_step(n as int, step as int),
        decreases 0x1_0000 - step,
    {
        step = 2 * step;
    }
    let near: u128 = round_half_even(n, step) * step;
    let mut i: usize = 0;
    let mut unit: u128 = 1;
    while i < 5 && near >= 1024 * unit
        invariant
            i <= 5,
            unit == bytes_in_unit(i as nat),
            0 < unit <= near + 1,
            near < 0x2_0000_0000_0000_0000,
            fitting_unit(near as int, 0) == fitting_unit(near as int, i as nat),
        decreases 5 - i,
    {
        i = i + 1;
        unit = 1024 * unit;
    }
    proof {
        reveal_with_fuel(bytes_in_unit, 6);
    }
    let tenths: u128 = round_half_even(near * 10, unit);
    assert(tenths <= 400_000) by {
        assert(i == 0 || i == 1 || i == 2 || i == 3 || i == 4 || i == 5);
        assert(near * 10 < 400_000 * unit);
        assert((near * 10) / (unit as int) < 400_000) by (nonlinear_arith)
            requires
                near * 10 < 400_000 * unit,
                unit > 0,
        ;
    }
    assert(fitting_unit(near as int, 0) == i);
    let whole = decimal((tenths / 10) as u64);
    let part = decimal((tenths % 10) as u64);
    let number = join3(whole.as_str(), ".", part.as_str());
    join3(number.as_str(), " ", UNITS[i])
}

/// How long a folder has rested, in words.
pub fn age_text(language: Language, age: Option<u64>) -> (r: String)
    ensures
        r@ == match (age, language) {
            (Some(days), Language::Korean) => digits(days as int) + "일 전"@,
            (Some(days), Language::English) => digits(days as int) + " days ago"@,
            (None, Language::Korean) => "날짜 미확인"@,
            (None, Language::English) => "Date unknown"@,
        },
{
    match age {
        Some(days) => join2(decimal(days).as_str(), language.pick("일 전", " days ago")),
        None => language.pick("날짜 미확인", "Date unknown").to_string(),
    }
}

/// Bytes in a gibibyte.
pub const GIBIBYTE: u64 = 1_073_741_824;

/// Nanoseconds in a day.
pub const NANOS_PER_DAY: i128 = 86_400_000_000_000;

/// The folders of the demo map: name, the position of the folder around it,
/// direct files in gibibytes, and days since they changed. The first is the root.
pub const DEMO: [(&'static str, usize, u64, u64); 10] = [
    ("Demo", 0, 0, 0),
    ("Archive", 0, 6, 540),
    ("Projects", 0, 4, 5),
    ("Downloads", 0, 18, 240),
    ("Media", 0, 12, 90),
    ("Backups", 1, 38, 600),
    ("Old builds", 1, 16, 540),
    ("Active", 2, 8, 5),
    ("Experiments", 2, 7, 320),
    ("Video", 4, 24, 120),
];

/// The path of the `i`th demo folder.
pub open spec fn demo_path(i: int, separator: u16) -> PathView
    decreases i,
{
    let above = if 0 < i && 0 <= DEMO@[i].1 < i {
        demo_path(DEMO@[i].1 as int, separator)
    } else {
        PathView { separator, ..PathView::empty() }
    };
    above.join(encode_utf16(DEMO@[i].0@))
}

/// The `i`th demo folder, before subfolders are added.
pub open spec fn demo_node(i: int, separator: u16, now: int) -> NodeView {
    let date = Some(Timestamp::at(now - DEMO@[i].3 * NANOS_PER_DAY));
    NodeView {
        own_bytes: (DEMO@[i].2 * GIBIBYTE) as u64,
        files: (DEMO@[i].2 * 80) as u64,
        modified: date,
        accessed: date,
        ..NodeView::fresh(
            demo_path(i, separator),
            if i == 0 {
                None
            } else {
                Some(DEMO@[i].1)
            },
        )
    }
}

/// The first `n` demo folders, before subfolders are added.
pub open spec fn demo_nodes(n: int, separator: u16, now: int) -> Seq<NodeView>
    decreases n,
{
    if n <= 0 {
        seq![]
    } else {
        joined(demo_nodes(n - 1, separator, now), demo_node(n - 1, separator, now))
    }
}

/// A made-up map, for trying the window out. It was scanned in no time, by
/// which it is known as a demo.
pub fn demo_report(now: Timestamp, separator: u16) -> (r: Report)
    requires
        representable(now@ - 600 * NANOS_PER_DAY),
    ensures
        added_up(demo_nodes(10, separator, now@), r@.nodes, false),
        r@.nodes.len() == 10,
        shaped(r@.nodes),
        sizes_add_up(r@.nodes),
        r@.progress == (ProgressView {
            folders: 10,
            files: r@.nodes[0].files,
            bytes: r@.nodes[0].bytes,
            ..ProgressView::starting(""@, seq![])
        }),
        r@.issues.len() == 0,
        !r.cancelled,
        !r.scanning,
        r.elapsed == (Duration { seconds: 0, nanos: 0 }),
{
    let start: i128 = now.nanos();
    let mut nodes: Vec<Node> = Vec::new();
    let mut i: usize = 0;
    assert(tree_of(nodes@) =~= seq![]);
    while i < 10
        invariant
            i <= 10,
            start == now@,
            representable(now@),
            representable(now@ - 600 * NANOS_PER_DAY),
            nodes@.len() == i,
            tree_of(nodes@) == demo_nodes(i as int, separator, now@),
            i > 0 ==> shaped(tree_of(nodes@)),
            forall|k: int| 0 <= k < i ==> (#[trigger] tree_of(nodes@)[k]).bytes == 0,
            forall|k: int| 0 <= k < i ==> (#[trigger] tree_of(nodes@)[k]).path == demo_path(k, separator),
        decreases 10 - i,
    {
        let ghost before = tree_of(nodes@);
        let (name, above, gibibytes, days) = DEMO[i];
        assert((name, above, gibibytes, days) == DEMO@[i as int]);
        proof {
            demo_facts(i as int);
        }
        let units = utf16_units(name);
        let path = if i == 0 {
            let mut top = FolderPath::empty();
            top.separator = separator;
            assert(top@ =~= PathView { separator, ..PathView::empty() });
            top.join(&units)
        } else {
            assert(before[above as int] == nodes@[above as int]@);
            assert(before[above as int].path == demo_path(above as int, separator));
            nodes[above].path.join(&units)
        };
        assert(path@ == demo_path(i as int, separator));
        let mut node = Node::new(
            path,
            if i == 0 {
                None
            } else {
                Some(above)
            },
        );
        let at: i128 = start - days as i128 * NANOS_PER_DAY;
        let date = Timestamp::from_nanos(at);
        node.own_bytes = gibibytes * GIBIBYTE;
        node.files = gibibytes * 80;
        node.modified = date;
        node.accessed = date;
        let ghost fresh = node@;
        assert(fresh =~= demo_node(i as int, separator, now@));
        join_folder(&mut nodes, node);
        proof {
            let after = tree_of(nodes@);
            assert(after.len() == nodes.len());
            if i == 0 {
                assert(after =~= seq![fresh]);
                no_children(after, 0, 1);
            } else {
                joining_keeps_the_shape(before, fresh);
            }
            assert forall|k: int| 0 <= k < i + 1 implies (#[trigger] after[k]).bytes == 0
                && after[k].path == demo_path(k, separator) by {
                if k < i {
                    assert(before[k].bytes == 0 && before[k].path == demo_path(k, separator));
                }
            }
        }
        i += 1;
    }
    let ghost raw = tree_of(nodes@);
    aggregate(&mut nodes, false);
    proof {
        let tree = tree_of(nodes@);
        assert forall|k: int| 0 <= k < raw.len() implies (#[trigger] tree[k]).parent
            == raw[k].parent && tree[k].children == raw[k].children && tree[k].path == raw[k].path by {}
        totals_do_not_move_folders(raw, tree);
        adding_up_gives_sizes(raw, tree, false);
        assert(tree[0] == nodes@[0]@);
    }
    let progress = Progress {
        folders: nodes.len(),
        files: nodes[0].files,
        bytes: nodes[0].bytes,
        ..Default::default()
    };
    Report {
        nodes,
        progress,
        issues: Vec::new(),
        cancelled: false,
        scanning: false,
        elapsed: Duration { seconds: 0, nanos: 0 },
    }
}

proof fn demo_facts(i: int)
    requires
        0 <= i < 10,
    ensures
        i > 0 ==> DEMO@[i].1 < i,
        DEMO@[i].2 <= 38,
        DEMO@[i].3 <= 600,
{
    assert(DEMO@.len() == 10);
    assert(DEMO@[0] == ("Demo", 0usize, 0u64, 0u64));
    assert(DEMO@[1] == ("Archive", 0usize, 6u64, 540u64));
    assert(DEMO@[2] == ("Projects", 0usize, 4u64, 5u64));
    assert(DEMO@[3] == ("Downloads", 0usize, 18u64, 240u64));
    assert(DEMO@[4] == ("Media", 0usize, 12u64, 90u64));
    assert(DEMO@[5] == ("Backups", 1usize, 38u64, 600u64));
    assert(DEMO@[6] == ("Old builds", 1usize, 16u64, 540u64));
    assert(DEMO@[7] == ("Active", 2usize, 8u64, 5u64));
    assert(DEMO@[8] == ("Experiments", 2usize, 7u64, 320u64));
    assert(DEMO@[9] == ("Video", 4usize, 24u64, 120u64));
}

/// The drives of the first `n` letters, as a bit mask tells them.
pub open spec fn drive_names(mask: u32, n: int) -> Seq<Seq<char>>
    decreases n,
{
    if n <= 0 {
        seq![]
    } else if mask & (1u32 << ((n - 1) as u32)) != 0 {
        drive_names(mask, n - 1).push(seq![(64 + n) as char, ':', '\\'])
    } else {
        drive_names(mask, n - 1)
    }
}

/// The roots of the drives that a bit mask tells, one bit for each letter.
pub fn drives(mask: u32) -> (r: Vec<String>)
    ensures
        crate::scan::texts_of(r@) == drive_names(mask, 26),
{
    let mut r: Vec<String> = Vec::new();
    let mut i: u32 = 0;
    assert(crate::scan::texts_of(r@) =~= seq![]);
    while i < 26
        invariant
            i <= 26,
            crate::scan::texts_of(r@) == drive_names(mask, i as int),
        decreases 26 - i,
    {
        let ghost before = crate::scan::texts_of(r@);
        if mask & (1u32 << i) != 0 {
            let letter: u8 = 65 + i as u8;
            let mut name: String = String::new();
            name.push(letter as char);
            name.push(':');
            name.push('\\');
            assert(name@ =~= seq![(65 + i) as char, ':', '\\']);
            r.push(name);
            assert(crate::scan::texts_of(r@) =~= before.push(name@));
        }
        i += 1;
    }
    r
}

} // verus!
