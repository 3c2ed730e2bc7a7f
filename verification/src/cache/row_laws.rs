//! What the rows of a saved map hold, byte by byte, and which rows are refused.
use vstd::prelude::*;
use crate::anchor::AnchorView;
use crate::around_laws::{bytes_inside, subfolder_bytes_add_up};
use crate::below::shows_sum;
use crate::bytes::{le_bytes, le_round_trip, pow256_values};
use crate::cache::{byte_units, folded_unit, key_bytes, key_units, saved_number, saved_path, saved_time, time_bytes, unit_bytes, without_trailing_separators};
use crate::cache::restore::{header_of, node_of, nodes_of, restored, saved_optional_time, HeaderView};
use crate::cache::snapshot::{fault, node_row, place_fault, places_fault, refusal, rows_of, NodeRowView, SnapshotRowView, SnapshotView};
use crate::mft::record_laws::{eight, four, le_eight, le_four, two};
use crate::scan::ReportView;
use crate::time::{instants_stand_at_their_distance, representable, Timestamp};
use crate::tree::{joined, sizes_add_up, NodeView};

verus! {

/// Whether eight bytes are those of a number.
pub open spec fn spells(bytes: Seq<u8>, n: u64) -> bool {
    bytes.len() == 8 && n == eight(bytes, 0)
}

/// A saved number is the one that its eight bytes spell, and other lengths are refused.
pub proof fn saved_numbers_are_spelt(bytes: Seq<u8>, n: u64)
    ensures
        saved_number(bytes) == Ok::<u64, Seq<char>>(n) <==> spells(bytes, n),
        spells(le_bytes(n as int, 8), n),
{
    if bytes.len() == 8 {
        le_eight(bytes);
    }
    pow256_values();
    le_round_trip(n as int, 8);
    le_eight(le_bytes(n as int, 8));
}

/// Whether thirteen bytes are those of an instant: a mark whether it lies before the
/// epoch, then the whole seconds from it in eight and the nanoseconds in four bytes.
pub open spec fn spells_time(bytes: Seq<u8>, t: int) -> bool {
    &&& bytes.len() == 13
    &&& bytes[0] <= 1
    &&& four(bytes, 9) < 1_000_000_000
    &&& t == if bytes[0] == 0 {
        eight(bytes, 1) * 1_000_000_000 + four(bytes, 9)
    } else {
        -(eight(bytes, 1) * 1_000_000_000 + four(bytes, 9))
    }
}

/// A saved instant is the one that its bytes spell, where it exists.
pub proof fn saved_times_are_spelt(bytes: Seq<u8>, t: Timestamp)
    requires
        representable(t@),
    ensures
        saved_time(bytes) == Ok::<Timestamp, Seq<char>>(t) <==> spells_time(bytes, t@),
        spells_time(time_bytes(t@), t@),
{
    crate::time::timestamp_is_its_distance(t);
    if bytes.len() == 13 {
        le_eight(bytes.subrange(1, 9));
        le_four(bytes.subrange(9, 13));
        let d = eight(bytes, 1) * 1_000_000_000 + four(bytes, 9);
        assert(eight(bytes.subrange(1, 9), 0) == eight(bytes, 1));
        assert(four(bytes.subrange(9, 13), 0) == four(bytes, 9));
        if representable(d) {
            instants_stand_at_their_distance(d);
        }
        if representable(-d) {
            instants_stand_at_their_distance(-d);
        }
    }
    let distance = if t@ < 0 {
        -t@
    } else {
        t@
    };
    let b = time_bytes(t@);
    pow256_values();
    le_round_trip(distance / 1_000_000_000, 8);
    le_round_trip(distance % 1_000_000_000, 4);
    le_eight(le_bytes(distance / 1_000_000_000, 8));
    le_four(le_bytes(distance % 1_000_000_000, 4));
    assert(b.subrange(1, 9) =~= le_bytes(distance / 1_000_000_000, 8));
    assert(b.subrange(9, 13) =~= le_bytes(distance % 1_000_000_000, 4));
    assert(eight(b.subrange(1, 9), 0) == eight(b, 1));
    assert(four(b.subrange(9, 13), 0) == four(b, 9));
}

/// Whether optional bytes are those of an optional instant.
pub open spec fn spells_optional_time(bytes: Option<Seq<u8>>, t: Option<Timestamp>) -> bool {
    match (bytes, t) {
        (None, None) => true,
        (Some(b), Some(t)) => spells_time(b, t@),
        _ => false,
    }
}

/// On Windows a path is saved as its units, two bytes each, the low one first; a path
/// with a zero in it and an odd number of bytes are refused.
pub proof fn saved_paths_are_units(bytes: Seq<u8>, units: Seq<u16>)
    ensures
        saved_path(bytes, true) == Ok::<Seq<u16>, Seq<char>>(units) <==> (bytes.len() == 2
            * units.len() && forall|i: int|
            0 <= i < units.len() ==> #[trigger] units[i] == two(bytes, 2 * i) && units[i] != 0),
        unit_bytes(units).len() == 2 * units.len(),
        forall|i: int| 0 <= i < units.len() ==> #[trigger] units[i] == two(unit_bytes(units), 2 * i),
{
    if saved_path(bytes, true) == Ok::<Seq<u16>, Seq<char>>(units) {
        assert(units == byte_units(bytes));
        assert forall|i: int| 0 <= i < units.len() implies #[trigger] units[i] == two(bytes, 2 * i)
            && units[i] != 0 by {
            assert(units.contains(units[i]));
        }
    }
    if bytes.len() == 2 * units.len() && forall|i: int|
        0 <= i < units.len() ==> #[trigger] units[i] == two(bytes, 2 * i) && units[i] != 0 {
        assert(byte_units(bytes) =~= units);
        assert(!units.contains(0));
    }
}

/// A unit with upper case letters lowered and slashes turned.
pub open spec fn plain(u: u16) -> int {
    if 0x41 <= u <= 0x5a {
        u + 0x20
    } else if u == 0x2f {
        0x5c
    } else {
        u as int
    }
}

proof fn trailing_separators_go(units: Seq<u16>)
    ensures
        ({
            let k = without_trailing_separators(units);
            &&& k.len() <= units.len()
            &&& k == units.take(k.len() as int)
            &&& forall|i: int| k.len() <= i < units.len() ==> units[i] == 0x5c
            &&& k.len() < units.len() ==> k.len() >= 3
            &&& k.len() > 3 ==> k.last() != 0x5c
        }),
    decreases units.len(),
{
    let k = without_trailing_separators(units);
    if units.len() > 3 && units.last() == 92 {
        trailing_separators_go(units.drop_last());
        assert(units.drop_last().take(k.len() as int) =~= units.take(k.len() as int));
        assert forall|i: int| k.len() <= i < units.len() implies units[i] == 0x5c by {
            if i < units.len() - 1 {
                assert(units.drop_last()[i] == units[i]);
            }
        }
    } else {
        assert(units.take(units.len() as int) =~= units);
    }
}

/// The key of a map on Windows is the absolute path of its root in lower case, with
/// backslashes, and without the separators at its end beyond the first three units;
/// elsewhere it is the path itself.
pub proof fn keys_are_plain_paths(units: Seq<u16>)
    ensures
        ({
            let k = key_units(units, true);
            &&& k.len() <= units.len()
            &&& forall|i: int| 0 <= i < k.len() ==> #[trigger] k[i] == plain(units[i])
            &&& forall|i: int| k.len() <= i < units.len() ==> plain(#[trigger] units[i]) == 0x5c
            &&& k.len() < units.len() ==> k.len() >= 3
            &&& k.len() > 3 ==> k.last() != 0x5c
        }),
        key_units(units, false) == units,
{
    let folded = units.map_values(|u: u16| folded_unit(u));
    trailing_separators_go(folded);
    let k = key_units(units, true);
    assert forall|i: int| k.len() <= i < units.len() implies plain(#[trigger] units[i]) == 0x5c by {
        assert(folded[i] == folded_unit(units[i]));
    }
    assert forall|i: int| 0 <= i < k.len() implies #[trigger] k[i] == plain(units[i]) by {
        assert(folded[i] == folded_unit(units[i]));
    }
}

/// Whether a row holds a folder, all but its path and subfolders.
pub open spec fn holds(row: NodeRowView, node: NodeView, at: int) -> bool {
    &&& row.id == at
    &&& match (row.parent, node.parent) {
        (None, None) => true,
        (Some(a), Some(b)) => a == b,
        _ => false,
    }
    &&& spells(row.bytes, node.bytes)
    &&& spells(row.own_bytes, node.own_bytes)
    &&& spells(row.files, node.files)
    &&& spells_optional_time(row.modified, node.modified)
    &&& spells_optional_time(row.accessed, node.accessed)
    &&& row.flags == (if node.missing_modified {
        1int
    } else {
        0
    }) + (if node.missing_accessed {
        2int
    } else {
        0
    }) + (if node.incomplete {
        4int
    } else {
        0
    })
}

/// A folder is saved under its position, with its numbers and dates in bytes and its
/// three marks in one number.
pub proof fn rows_hold_their_folder(node: NodeView, at: int, windows: bool)
    requires
        0 <= at <= i64::MAX,
        node.parent matches Some(p) ==> p <= i64::MAX,
        node.modified matches Some(t) ==> representable(t@),
        node.accessed matches Some(t) ==> representable(t@),
    ensures
        holds(node_row(node, at, windows), node, at),
{
    saved_numbers_are_spelt(seq![], node.bytes);
    saved_numbers_are_spelt(seq![], node.own_bytes);
    saved_numbers_are_spelt(seq![], node.files);
    if let Some(t) = node.modified {
        saved_times_are_spelt(seq![], t);
    }
    if let Some(t) = node.accessed {
        saved_times_are_spelt(seq![], t);
    }
}

proof fn optional_times_are_spelt(bytes: Option<Seq<u8>>, t: Option<Timestamp>)
    requires
        t matches Some(x) ==> representable(x@),
    ensures
        saved_optional_time(bytes) == Ok::<Option<Timestamp>, Seq<char>>(t)
            <==> spells_optional_time(bytes, t),
{
    if let Some(b) = bytes {
        if let Some(x) = t {
            saved_times_are_spelt(b, x);
        }
    }
}

/// A row is read as a folder exactly where it holds that folder, at its own position,
/// below an earlier one, and under a path that can be read; the root alone has no
/// folder above it.
pub proof fn folders_are_read_from_their_rows(
    row: NodeRowView,
    at: int,
    anchor: AnchorView,
    windows: bool,
    node: NodeView,
)
    requires
        0 <= at <= i64::MAX,
        at <= usize::MAX,
        node.modified matches Some(t) ==> representable(t@),
        node.accessed matches Some(t) ==> representable(t@),
    ensures
        node_of(row, at, anchor, windows) == Ok::<NodeView, Seq<char>>(node) <==> ({
            &&& holds(row, node, at)
            &&& at == 0 ==> node.parent is None
            &&& at > 0 ==> node.parent is Some && node.parent->0 < at
            &&& node.children == Seq::<usize>::empty()
            &&& saved_path(row.path, windows) is Ok
            &&& node.path == anchor.path(saved_path(row.path, windows)->Ok_0)
        }),
{
    saved_numbers_are_spelt(row.bytes, node.bytes);
    saved_numbers_are_spelt(row.own_bytes, node.own_bytes);
    saved_numbers_are_spelt(row.files, node.files);
    optional_times_are_spelt(row.modified, node.modified);
    optional_times_are_spelt(row.accessed, node.accessed);
    let flags = row.flags as int;
    if holds(row, node, at) && (at == 0 ==> node.parent is None) && (at > 0 ==> node.parent is Some
        && node.parent->0 < at) && node.children == Seq::<usize>::empty() && saved_path(
        row.path,
        windows,
    ) is Ok && node.path == anchor.path(saved_path(row.path, windows)->Ok_0) {
        marks_stand_in_the_flags(
            flags,
            node.missing_modified,
            node.missing_accessed,
            node.incomplete,
        );
        assert(node_of(row, at, anchor, windows) is Ok);
        let made = node_of(row, at, anchor, windows)->Ok_0;
        assert(made.children =~= node.children);
        assert(made.parent == node.parent);
        assert(made == node);
    }
    if node_of(row, at, anchor, windows) == Ok::<NodeView, Seq<char>>(node) {
        flags_are_marks(flags);
        assert(node.children =~= Seq::<usize>::empty());
        assert(holds(row, node, at));
    }
}

proof fn marks_stand_in_the_flags(flags: int, a: bool, b: bool, c: bool)
    requires
        flags == (if a {
            1int
        } else {
            0
        }) + (if b {
            2int
        } else {
            0
        }) + (if c {
            4int
        } else {
            0
        }),
    ensures
        0 <= flags <= 7,
        flags % 2 == 1 <==> a,
        flags / 2 % 2 == 1 <==> b,
        flags / 4 == 1 <==> c,
{
}

proof fn flags_are_marks(flags: int)
    requires
        0 <= flags <= 7,
    ensures
        flags == (if flags % 2 == 1 {
            1int
        } else {
            0
        }) + (if flags / 2 % 2 == 1 {
            2int
        } else {
            0
        }) + (if flags / 4 == 1 {
            4int
        } else {
            0
        }),
{
}

/// Whether a map is one that can be saved and shown: one root with an absolute path,
/// every other folder directly inside an earlier one, and every folder with the size
/// of its direct files and its subfolders.
pub open spec fn is_sound(tree: Seq<NodeView>) -> bool {
    &&& tree.len() > 0
    &&& tree[0].parent is None
    &&& tree[0].path.absolute
    &&& forall|i: int|
        0 < i < tree.len() ==> (#[trigger] tree[i]).parent is Some && tree[i].parent->0 < i
            && tree[i].path.is_inside(tree[tree[i].parent->0 as int].path)
    &&& forall|i: int|
        0 <= i < tree.len() ==> shows_sum(
            (#[trigger] tree[i]).bytes,
            tree[i].own_bytes + bytes_inside(tree, i, 0),
        )
}

proof fn sound_places(tree: Seq<NodeView>, n: int)
    requires
        n < tree.len(),
    ensures
        places_fault(tree, n) is None <==> forall|i: int|
            0 < i <= n ==> (#[trigger] tree[i]).parent is Some && tree[i].parent->0 < i
                && tree[i].path.is_inside(tree[tree[i].parent->0 as int].path),
    decreases n,
{
    if n >= 1 {
        sound_places(tree, n - 1);
        assert(place_fault(tree, n) is None <==> tree[n].parent is Some && tree[n].parent->0 < n
            && tree[n].path.is_inside(tree[tree[n].parent->0 as int].path));
    }
}

/// A map has no fault exactly where it is sound.
pub proof fn faults_are_what_is_unsound(tree: Seq<NodeView>)
    ensures
        fault(tree) is None <==> is_sound(tree),
{
    if tree.len() > 0 {
        sound_places(tree, tree.len() - 1);
        assert(sizes_add_up(tree) <==> forall|i: int|
            0 <= i < tree.len() ==> shows_sum(
                (#[trigger] tree[i]).bytes,
                tree[i].own_bytes + bytes_inside(tree, i, 0),
            )) by {
            assert forall|i: int| 0 <= i < tree.len() implies ((#[trigger] tree[i]).bytes
                == crate::tree::saturated(
                tree[i].own_bytes + crate::tree::subfolder_totals(tree, i, 0).bytes,
            ) <==> shows_sum(tree[i].bytes, tree[i].own_bytes + bytes_inside(tree, i, 0))) by {
                subfolder_bytes_add_up(tree, i);
            }
        }
    }
}

/// A map is saved exactly where its scan came to its end, it is sound, the absolute
/// path of its root is known, and the date of saving is not before the epoch.
pub proof fn sound_finished_maps_are_saved(
    report: ReportView,
    saved_at: int,
    root: Result<Seq<u16>, Seq<char>>,
)
    ensures
        refusal(report, saved_at, root) is None <==> !report.cancelled && !report.scanning && is_sound(
            report.nodes,
        ) && root is Ok && saved_at >= 0,
{
    faults_are_what_is_unsound(report.nodes);
}

/// The row of a saved map holds the date of saving, the engine, the note, how long
/// the scan took, what it counted and how many folders there are; the folders and the
/// problems follow in their order.
pub proof fn saved_maps_hold_the_report(
    report: ReportView,
    saved_at: int,
    root: Seq<u16>,
    windows: bool,
)
    requires
        0 <= saved_at,
        representable(saved_at),
        report.nodes.len() <= i64::MAX,
    ensures
        ({
            let saved = rows_of(report, saved_at, root, windows);
            let row = saved.row;
            let p = report.progress;
            &&& row.root_key == key_bytes(root, windows)
            &&& row.saved_seconds * 1_000_000_000 + row.saved_nanos == saved_at
            &&& row.saved_nanos < 1_000_000_000
            &&& row.engine == p.engine
            &&& row.note == p.note
            &&& spells(row.elapsed_seconds, report.elapsed.seconds)
            &&& row.elapsed_nanos == report.elapsed.nanos
            &&& spells(row.files, p.files)
            &&& spells(row.bytes, p.bytes)
            &&& spells(row.errors, p.errors)
            &&& spells(row.skipped, p.skipped)
            &&& spells(row.records, p.records)
            &&& spells(row.total_records, p.total_records)
            &&& row.node_count == report.nodes.len()
            &&& saved.nodes.len() == report.nodes.len()
            &&& forall|i: int|
                0 <= i < report.nodes.len() ==> #[trigger] saved.nodes[i] == node_row(
                    report.nodes[i],
                    i,
                    windows,
                )
            &&& saved.issues == report.issues
        }),
{
    let p = report.progress;
    saved_numbers_are_spelt(seq![], report.elapsed.seconds);
    saved_numbers_are_spelt(seq![], p.files);
    saved_numbers_are_spelt(seq![], p.bytes);
    saved_numbers_are_spelt(seq![], p.errors);
    saved_numbers_are_spelt(seq![], p.skipped);
    saved_numbers_are_spelt(seq![], p.records);
    saved_numbers_are_spelt(seq![], p.total_records);
}

/// Whether a row says of a map as a whole what a header holds.
pub open spec fn says(row: SnapshotRowView, header: HeaderView) -> bool {
    let p = header.progress;
    &&& row.saved_seconds >= 0
    &&& row.saved_nanos < 1_000_000_000
    &&& header.saved_at@ == row.saved_seconds * 1_000_000_000 + row.saved_nanos
    &&& row.engine == "MFT 고속"@ || row.engine == "폴더 열거"@
    &&& row.elapsed_nanos < 1_000_000_000
    &&& header.elapsed.nanos == row.elapsed_nanos
    &&& spells(row.elapsed_seconds, header.elapsed.seconds)
    &&& header.expected == row.node_count
    &&& p.engine == row.engine
    &&& p.note == row.note
    &&& spells(row.files, p.files)
    &&& spells(row.bytes, p.bytes)
    &&& spells(row.errors, p.errors)
    &&& spells(row.skipped, p.skipped)
    &&& spells(row.records, p.records)
    &&& spells(row.total_records, p.total_records)
}

proof fn headers_can_be_read(row: SnapshotRowView)
    ensures
        header_of(row) is Ok <==> row.saved_seconds >= 0 && row.saved_nanos < 1_000_000_000 && (
        row.engine == "MFT 고속"@ || row.engine == "폴더 열거"@) && row.elapsed_nanos
            < 1_000_000_000 && 0 <= row.node_count <= usize::MAX && row.elapsed_seconds.len() == 8
            && row.files.len() == 8 && row.bytes.len() == 8 && row.errors.len() == 8
            && row.skipped.len() == 8 && row.records.len() == 8 && row.total_records.len() == 8,
{
}

/// A row whose numbers cannot be read, whose date lies before the epoch, or whose
/// engine is unknown is refused; of any other the header is what the row says.
pub proof fn headers_say_what_their_row_says(row: SnapshotRowView)
    ensures
        header_of(row) matches Ok(header) ==> says(row, header),
        header_of(row) is Ok <==> row.saved_seconds >= 0 && row.saved_nanos < 1_000_000_000 && (
        row.engine == "MFT 고속"@ || row.engine == "폴더 열거"@) && row.elapsed_nanos
            < 1_000_000_000 && 0 <= row.node_count <= usize::MAX && row.elapsed_seconds.len() == 8
            && row.files.len() == 8 && row.bytes.len() == 8 && row.errors.len() == 8
            && row.skipped.len() == 8 && row.records.len() == 8 && row.total_records.len() == 8,
{
    headers_can_be_read(row);
    if header_of(row) is Ok {
        let header = header_of(row)->Ok_0;
        let p = header.progress;
        assert(saved_number(row.elapsed_seconds) == Ok::<u64, Seq<char>>(header.elapsed.seconds));
        assert(saved_number(row.files) == Ok::<u64, Seq<char>>(p.files));
        assert(saved_number(row.bytes) == Ok::<u64, Seq<char>>(p.bytes));
        assert(saved_number(row.errors) == Ok::<u64, Seq<char>>(p.errors));
        assert(saved_number(row.skipped) == Ok::<u64, Seq<char>>(p.skipped));
        assert(saved_number(row.records) == Ok::<u64, Seq<char>>(p.records));
        assert(saved_number(row.total_records) == Ok::<u64, Seq<char>>(p.total_records));
        saved_numbers_are_spelt(row.elapsed_seconds, header.elapsed.seconds);
        saved_numbers_are_spelt(row.files, p.files);
        saved_numbers_are_spelt(row.bytes, p.bytes);
        saved_numbers_are_spelt(row.errors, p.errors);
        saved_numbers_are_spelt(row.skipped, p.skipped);
        saved_numbers_are_spelt(row.records, p.records);
        saved_numbers_are_spelt(row.total_records, p.total_records);
        instants_stand_at_their_distance(row.saved_seconds * 1_000_000_000 + row.saved_nanos);
    }
}

/// A saved map is shown again exactly where its row can be read, all its folders can
/// and are as many as announced, they make a sound map, the absolute path of its root
/// gives the key that it was saved under, and the totals of the root are those that
/// were counted. It is then a finished map with these folders, counts and problems.
pub proof fn sound_rows_are_shown_again(
    snapshot: SnapshotView,
    anchors: Seq<AnchorView>,
    root: Result<Seq<u16>, Seq<char>>,
    windows: bool,
)
    ensures
        ({
            let read = nodes_of(snapshot.nodes, anchors, snapshot.nodes.len() as int, windows);
            let header = header_of(snapshot.row);
            &&& restored(snapshot, anchors, root, windows) is Ok <==> ({
                &&& header is Ok
                &&& read is Ok
                &&& read->Ok_0.len() == snapshot.row.node_count
                &&& is_sound(read->Ok_0)
                &&& root is Ok
                &&& key_bytes(root->Ok_0, windows) == snapshot.row.root_key
                &&& spells(snapshot.row.bytes, read->Ok_0[0].bytes)
                &&& spells(snapshot.row.files, read->Ok_0[0].files)
            })
            &&& restored(snapshot, anchors, root, windows) matches Ok(cached) ==> {
                let p = cached.report.progress;
                &&& cached.report.nodes == read->Ok_0
                &&& cached.report.issues == snapshot.issues
                &&& !cached.report.cancelled
                &&& !cached.report.scanning
                &&& cached.report.elapsed == header->Ok_0.elapsed
                &&& cached.saved_at == header->Ok_0.saved_at
                &&& p.folders == cached.report.nodes.len() as usize
                &&& p.current == cached.report.nodes[0].path
                &&& says(
                    snapshot.row,
                    (HeaderView { progress: p, ..header->Ok_0 }),
                )
            }
        }),
{
    let read = nodes_of(snapshot.nodes, anchors, snapshot.nodes.len() as int, windows);
    headers_say_what_their_row_says(snapshot.row);
    if header_of(snapshot.row) is Ok && read is Ok {
        faults_are_what_is_unsound(read->Ok_0);
    }
}

/// The folders of a saved map are those of its rows, in their order, each listed by
/// the folder above it; one row that cannot be read makes the whole map unreadable.
pub proof fn rows_become_folders(
    rows: Seq<NodeRowView>,
    anchors: Seq<AnchorView>,
    n: int,
    windows: bool,
)
    requires
        0 <= n <= rows.len(),
        n <= i64::MAX,
    ensures
        nodes_of(rows, anchors, n, windows) is Ok <==> forall|i: int|
            0 <= i < n ==> node_of(#[trigger] rows[i], i, anchors[i], windows) is Ok,
        nodes_of(rows, anchors, n, windows) matches Ok(tree) ==> tree.len() == n && forall|i: int|
            0 <= i < n ==> (#[trigger] tree[i]) == (NodeView {
                children: tree[i].children,
                ..node_of(rows[i], i, anchors[i], windows)->Ok_0
            }),
    decreases n,
{
    if n > 0 {
        rows_become_folders(rows, anchors, n - 1, windows);
        if nodes_of(rows, anchors, n, windows) is Ok {
            let before = nodes_of(rows, anchors, n - 1, windows)->Ok_0;
            let node = node_of(rows[n - 1], n - 1, anchors[n - 1], windows)->Ok_0;
            let tree = nodes_of(rows, anchors, n, windows)->Ok_0;
            assert(tree == joined(before, node));
            assert(node.parent is Some ==> node.parent->0 < n - 1);
            assert forall|i: int| 0 <= i < n implies (#[trigger] tree[i]) == (NodeView {
                children: tree[i].children,
                ..node_of(rows[i], i, anchors[i], windows)->Ok_0
            }) by {
                if i < n - 1 {
                    assert(before[i] == (NodeView {
                        children: before[i].children,
                        ..node_of(rows[i], i, anchors[i], windows)->Ok_0
                    }));
                }
            }
        }
    }
}

} // verus!
