//! What the map of a volume shows of the volume's records.
use vstd::prelude::*;
use crate::below::{folders_show_everything_below, is_below, not_before, shows_sum};
use crate::mft::index::IndexView;
use crate::mft::layout::{has_place, place_of, Place};
use crate::mft::place_laws::{folders_stand_where_their_first_name_says, slot_number, slots_are_the_lower_bits};
use crate::mft::record::RecordView;
use crate::mft::report::Entry;
use crate::path::PathView;
use crate::tree::{added_up, shaped, totals_do_not_move_folders, NodeView, Totals};

verus! {

/// The record that came as number `a`.
pub open spec fn record_at(ix: IndexView, a: int) -> RecordView {
    ix.records[ix.order[a]]
}

/// Whether a record is that of the user: whole, and not the file system's own.
pub open spec fn is_users(ix: IndexView, a: int) -> bool {
    0 <= a < ix.order.len() && record_at(ix, a).base_seen && slot_number(ix.order[a]) >= 16
}

/// Whether name `b` of record `a` is that of a file in the folder with the reference `folder`.
pub open spec fn is_file_in(ix: IndexView, folder: u64, a: int, b: int) -> bool {
    &&& is_users(ix, a)
    &&& !record_at(ix, a).reparse
    &&& !record_at(ix, a).directory
    &&& 0 <= b < record_at(ix, a).links.len()
    &&& record_at(ix, a).links[b].parent == folder
}

/// Whether name `b` of record `a` is that of a reparse point in the folder with the
/// reference `folder`.
pub open spec fn is_link_in(ix: IndexView, folder: u64, a: int, b: int) -> bool {
    &&& is_users(ix, a)
    &&& record_at(ix, a).reparse
    &&& 0 <= b < record_at(ix, a).links.len()
    &&& record_at(ix, a).links[b].parent == folder
}

/// Whether a part of a record was unreadable, or was announced and has not come.
pub open spec fn misses_a_part(ix: IndexView, rec: RecordView) -> bool {
    rec.incomplete || exists|i: int|
        0 <= i < rec.expected.len() && (#[trigger] rec.expected[i]) != rec.reference && !(
        ix.extensions.contains_key(rec.expected[i]) && ix.extensions[rec.expected[i]]
            == rec.reference)
}

/// The bytes of a file under those of its first `m` names that lie in a folder.
pub open spec fn bytes_by_names(rec: RecordView, folder: u64, m: int) -> int
    decreases m,
{
    if m <= 0 {
        0
    } else {
        bytes_by_names(rec, folder, m - 1) + if rec.links[m - 1].parent == folder
            && rec.bytes is Some {
            rec.bytes->0 as int
        } else {
            0
        }
    }
}

/// How many of the first `m` names of a file lie in a folder.
pub open spec fn names_in(rec: RecordView, folder: u64, m: int) -> int
    decreases m,
{
    if m <= 0 {
        0
    } else {
        names_in(rec, folder, m - 1) + if rec.links[m - 1].parent == folder {
            1int
        } else {
            0
        }
    }
}

/// The bytes of the files that the first `n` records name in a folder.
pub open spec fn bytes_in(ix: IndexView, folder: u64, n: int) -> int
    decreases n,
{
    if n <= 0 {
        0
    } else {
        bytes_in(ix, folder, n - 1) + if is_users(ix, n - 1) && !record_at(ix, n - 1).reparse
            && !record_at(ix, n - 1).directory {
            bytes_by_names(
                record_at(ix, n - 1),
                folder,
                record_at(ix, n - 1).links.len() as int,
            )
        } else {
            0
        }
    }
}

/// How many files the first `n` records name in a folder.
pub open spec fn files_in(ix: IndexView, folder: u64, n: int) -> int
    decreases n,
{
    if n <= 0 {
        0
    } else {
        files_in(ix, folder, n - 1) + if is_users(ix, n - 1) && !record_at(ix, n - 1).reparse
            && !record_at(ix, n - 1).directory {
            names_in(record_at(ix, n - 1), folder, record_at(ix, n - 1).links.len() as int)
        } else {
            0
        }
    }
}

/// Whether name `b` of record `a` is one of those of the first `n` records and the
/// first `m` of the next one.
pub open spec fn comes_before(a: int, b: int, n: int, m: int) -> bool {
    a < n || (a == n && b < m)
}

/// What names add to the folder with the reference `folder`: those of the first `n`
/// records and the first `m` of the next one.
spec fn gathers(ix: IndexView, t: Totals, folder: u64, n: int, m: int) -> bool {
    let plain = is_users(ix, n) && !record_at(ix, n).reparse && !record_at(ix, n).directory;
    &&& shows_sum(
        t.bytes,
        bytes_in(ix, folder, n) + if plain {
            bytes_by_names(record_at(ix, n), folder, m)
        } else {
            0
        },
    )
    &&& shows_sum(
        t.files,
        files_in(ix, folder, n) + if plain {
            names_in(record_at(ix, n), folder, m)
        } else {
            0
        },
    )
    &&& forall|a: int, b: int| #[trigger]
        is_file_in(ix, folder, a, b) && comes_before(a, b, n, m) ==> {
            &&& not_before(t.modified, record_at(ix, a).modified)
            &&& not_before(t.accessed, record_at(ix, a).accessed)
            &&& record_at(ix, a).modified is None ==> t.missing_modified
            &&& record_at(ix, a).accessed is None ==> t.missing_accessed
            &&& record_at(ix, a).bytes is None || misses_a_part(ix, record_at(ix, a))
                ==> t.incomplete
        }
    &&& forall|a: int, b: int| #[trigger]
        is_link_in(ix, folder, a, b) && comes_before(a, b, n, m) ==> t.incomplete
    &&& t.modified is Some ==> exists|a: int, b: int| #[trigger]
        is_file_in(ix, folder, a, b) && comes_before(a, b, n, m) && record_at(ix, a).modified
            == t.modified
    &&& t.accessed is Some ==> exists|a: int, b: int| #[trigger]
        is_file_in(ix, folder, a, b) && comes_before(a, b, n, m) && record_at(ix, a).accessed
            == t.accessed
    &&& t.missing_modified ==> exists|a: int, b: int| #[trigger]
        is_file_in(ix, folder, a, b) && comes_before(a, b, n, m) && record_at(
            ix,
            a,
        ).modified is None
    &&& t.missing_accessed ==> exists|a: int, b: int| #[trigger]
        is_file_in(ix, folder, a, b) && comes_before(a, b, n, m) && record_at(
            ix,
            a,
        ).accessed is None
    &&& t.incomplete ==> (exists|a: int, b: int| #[trigger]
        is_link_in(ix, folder, a, b) && comes_before(a, b, n, m)) || (exists|a: int, b: int| #[trigger]
        is_file_in(ix, folder, a, b) && comes_before(a, b, n, m) && (record_at(ix, a).bytes is None
            || misses_a_part(ix, record_at(ix, a))))
}

proof fn sums_are_not_negative(ix: IndexView, rec: RecordView, folder: u64, n: int)
    ensures
        bytes_by_names(rec, folder, n) >= 0,
        names_in(rec, folder, n) >= 0,
    decreases n,
{
    if n > 0 {
        sums_are_not_negative(ix, rec, folder, n - 1);
    }
}

proof fn totals_are_not_negative(ix: IndexView, folder: u64, n: int)
    ensures
        bytes_in(ix, folder, n) >= 0,
        files_in(ix, folder, n) >= 0,
    decreases n,
{
    if n > 0 {
        totals_are_not_negative(ix, folder, n - 1);
        sums_are_not_negative(
            ix,
            record_at(ix, n - 1),
            folder,
            record_at(ix, n - 1).links.len() as int,
        );
    }
}

/// A record lacks parts exactly where it misses one.
pub proof fn parts_are_missed(ix: IndexView, rec: RecordView)
    ensures
        ix.lacks_parts(rec) <==> misses_a_part(ix, rec),
{
    if ix.lacks_parts(rec) && !rec.incomplete {
        let i = choose|i: int| 0 <= i < rec.expected.len() && ix.part_missing(rec, i);
        assert(rec.expected[i] != rec.reference);
    }
    if misses_a_part(ix, rec) && !rec.incomplete {
        let i = choose|i: int|
            0 <= i < rec.expected.len() && (#[trigger] rec.expected[i]) != rec.reference && !(
            ix.extensions.contains_key(rec.expected[i]) && ix.extensions[rec.expected[i]]
                == rec.reference);
        assert(ix.part_missing(rec, i));
    }
}

proof fn a_key_has_its_place(places: Seq<Place>, p: int, key: u64)
    requires
        0 <= p < places.len(),
        places[p].key is Some,
        forall|i: int, j: int|
            0 <= i < j < places.len() ==> (#[trigger] places[i]).key != (#[trigger] places[j]).key,
    ensures
        place_of(places, key) == Some(p) <==> places[p].key == Some(key),
{
    if has_place(places, key) {
        let q = choose|i: int| 0 <= i < places.len() && (#[trigger] places[i]).key == Some(key);
        assert(places[q].key == Some(key));
        if places[p].key == Some(key) && q != p {
            assert(places[q].key != places[p].key);
        }
    }
}

#[verifier::rlimit(60)]
proof fn one_more_name(
    ix: IndexView,
    places: Seq<Place>,
    t: Totals,
    entry: Entry,
    p: int,
    n: int,
    m: int,
)
    requires
        0 <= n < ix.order.len(),
        is_users(ix, n),
        0 <= m < record_at(ix, n).links.len(),
        entry == (Entry { key: ix.order[n], link: record_at(ix, n).links[m] }),
        0 <= p < places.len(),
        places[p].key is Some,
        forall|i: int, j: int|
            0 <= i < j < places.len() ==> (#[trigger] places[i]).key != (#[trigger] places[j]).key,
        gathers(ix, t, places[p].key->0, n, m),
    ensures
        gathers(ix, t.plus(ix.entry_totals(places, entry, p)), places[p].key->0, n, m + 1),
{
    let folder = places[p].key->0;
    let rec = record_at(ix, n);
    let added = ix.entry_totals(places, entry, p);
    let next = t.plus(added);
    a_key_has_its_place(places, p, entry.link.parent);
    parts_are_missed(ix, rec);
    totals_are_not_negative(ix, folder, n);
    sums_are_not_negative(ix, rec, folder, m);
    sums_are_not_negative(ix, rec, folder, m + 1);
    if entry.link.parent == folder {
        assert(places[p].key == Some(entry.link.parent));
        assert(has_place(places, entry.link.parent));
    }
    assert(is_file_in(ix, folder, n, m) <==> entry.link.parent == folder && !rec.reparse
        && !rec.directory);
    assert(is_link_in(ix, folder, n, m) <==> entry.link.parent == folder && rec.reparse);
    assert forall|a: int, b: int| #[trigger] is_file_in(ix, folder, a, b) && comes_before(
        a,
        b,
        n,
        m + 1,
    ) implies {
        &&& not_before(next.modified, record_at(ix, a).modified)
        &&& not_before(next.accessed, record_at(ix, a).accessed)
        &&& record_at(ix, a).modified is None ==> next.missing_modified
        &&& record_at(ix, a).accessed is None ==> next.missing_accessed
        &&& record_at(ix, a).bytes is None || misses_a_part(ix, record_at(ix, a)) ==> next.incomplete
    } by {
        if !(a == n && b == m) {
            assert(comes_before(a, b, n, m));
        }
    }
    assert forall|a: int, b: int| #[trigger] is_link_in(ix, folder, a, b) && comes_before(
        a,
        b,
        n,
        m + 1,
    ) implies next.incomplete by {
        if !(a == n && b == m) {
            assert(comes_before(a, b, n, m));
        }
    }
    assert(comes_before(n, m, n, m + 1));
    assert forall|a: int, b: int| comes_before(a, b, n, m) implies #[trigger] comes_before(
        a,
        b,
        n,
        m + 1,
    ) by {}
    dates_come_from_names(ix, t, added, folder, n, m);
    marks_come_from_names(ix, t, added, folder, n, m);
}

spec fn added_by(ix: IndexView, added: Totals, folder: u64, n: int, m: int) -> bool {
    let rec = record_at(ix, n);
    &&& added.modified is Some || added.accessed is Some || added.missing_modified
        || added.missing_accessed ==> is_file_in(ix, folder, n, m)
    &&& added.modified is Some ==> added.modified == rec.modified
    &&& added.accessed is Some ==> added.accessed == rec.accessed
    &&& added.missing_modified ==> rec.modified is None
    &&& added.missing_accessed ==> rec.accessed is None
    &&& added.incomplete ==> is_link_in(ix, folder, n, m) || (is_file_in(ix, folder, n, m) && (
    rec.bytes is None || misses_a_part(ix, rec)))
}

proof fn dates_come_from_names(
    ix: IndexView,
    t: Totals,
    added: Totals,
    folder: u64,
    n: int,
    m: int,
)
    requires
        gathers(ix, t, folder, n, m),
        added_by(ix, added, folder, n, m),
    ensures
        t.plus(added).modified is Some ==> exists|a: int, b: int| #[trigger]
            is_file_in(ix, folder, a, b) && comes_before(a, b, n, m + 1) && record_at(
                ix,
                a,
            ).modified == t.plus(added).modified,
        t.plus(added).accessed is Some ==> exists|a: int, b: int| #[trigger]
            is_file_in(ix, folder, a, b) && comes_before(a, b, n, m + 1) && record_at(
                ix,
                a,
            ).accessed == t.plus(added).accessed,
{
    let next = t.plus(added);
    if next.modified is Some {
        if next.modified == added.modified {
            assert(is_file_in(ix, folder, n, m));
        } else {
            let (a, b) = choose|a: int, b: int| #[trigger]
                is_file_in(ix, folder, a, b) && comes_before(a, b, n, m) && record_at(
                    ix,
                    a,
                ).modified == t.modified;
            assert(is_file_in(ix, folder, a, b) && comes_before(a, b, n, m + 1));
        }
    }
    if next.accessed is Some {
        if next.accessed == added.accessed {
            assert(is_file_in(ix, folder, n, m));
        } else {
            let (a, b) = choose|a: int, b: int| #[trigger]
                is_file_in(ix, folder, a, b) && comes_before(a, b, n, m) && record_at(
                    ix,
                    a,
                ).accessed == t.accessed;
            assert(is_file_in(ix, folder, a, b) && comes_before(a, b, n, m + 1));
        }
    }
}

proof fn marks_come_from_names(
    ix: IndexView,
    t: Totals,
    added: Totals,
    folder: u64,
    n: int,
    m: int,
)
    requires
        gathers(ix, t, folder, n, m),
        added_by(ix, added, folder, n, m),
    ensures
        t.plus(added).missing_modified ==> exists|a: int, b: int| #[trigger]
            is_file_in(ix, folder, a, b) && comes_before(a, b, n, m + 1) && record_at(
                ix,
                a,
            ).modified is None,
        t.plus(added).missing_accessed ==> exists|a: int, b: int| #[trigger]
            is_file_in(ix, folder, a, b) && comes_before(a, b, n, m + 1) && record_at(
                ix,
                a,
            ).accessed is None,
        t.plus(added).incomplete ==> (exists|a: int, b: int| #[trigger]
            is_link_in(ix, folder, a, b) && comes_before(a, b, n, m + 1)) || (exists|
            a: int,
            b: int,
        | #[trigger]
            is_file_in(ix, folder, a, b) && comes_before(a, b, n, m + 1) && (record_at(
                ix,
                a,
            ).bytes is None || misses_a_part(ix, record_at(ix, a)))),
{
    if t.missing_modified {
        let (a, b) = choose|a: int, b: int| #[trigger]
            is_file_in(ix, folder, a, b) && comes_before(a, b, n, m) && record_at(
                ix,
                a,
            ).modified is None;
        assert(is_file_in(ix, folder, a, b) && comes_before(a, b, n, m + 1));
    } else if added.missing_modified {
        assert(is_file_in(ix, folder, n, m));
    }
    if t.missing_accessed {
        let (a, b) = choose|a: int, b: int| #[trigger]
            is_file_in(ix, folder, a, b) && comes_before(a, b, n, m) && record_at(
                ix,
                a,
            ).accessed is None;
        assert(is_file_in(ix, folder, a, b) && comes_before(a, b, n, m + 1));
    } else if added.missing_accessed {
        assert(is_file_in(ix, folder, n, m));
    }
    if t.incomplete {
        if exists|a: int, b: int| #[trigger]
            is_link_in(ix, folder, a, b) && comes_before(a, b, n, m) {
            let (a, b) = choose|a: int, b: int| #[trigger]
                is_link_in(ix, folder, a, b) && comes_before(a, b, n, m);
            assert(is_link_in(ix, folder, a, b) && comes_before(a, b, n, m + 1));
        } else {
            let (a, b) = choose|a: int, b: int| #[trigger]
                is_file_in(ix, folder, a, b) && comes_before(a, b, n, m) && (record_at(
                    ix,
                    a,
                ).bytes is None || misses_a_part(ix, record_at(ix, a)));
            assert(is_file_in(ix, folder, a, b) && comes_before(a, b, n, m + 1));
        }
    } else if added.incomplete {
        assert(is_link_in(ix, folder, n, m) || is_file_in(ix, folder, n, m));
    }
}

proof fn the_next_record_starts(ix: IndexView, t: Totals, folder: u64, n: int, m: int)
    requires
        0 < n <= ix.order.len(),
        gathers(ix, t, folder, n - 1, m),
        if is_users(ix, n - 1) {
            m == record_at(ix, n - 1).links.len()
        } else {
            m == 0
        },
    ensures
        gathers(ix, t, folder, n, 0),
{
    assert forall|a: int, b: int| #[trigger] is_file_in(ix, folder, a, b) implies (comes_before(
        a,
        b,
        n - 1,
        m,
    ) <==> comes_before(a, b, n, 0)) by {}
    assert forall|a: int, b: int| #[trigger] is_link_in(ix, folder, a, b) implies (comes_before(
        a,
        b,
        n - 1,
        m,
    ) <==> comes_before(a, b, n, 0)) by {}
    if t.incomplete {
        if exists|a: int, b: int| #[trigger]
            is_link_in(ix, folder, a, b) && comes_before(a, b, n - 1, m) {
            let (a, b) = choose|a: int, b: int| #[trigger]
                is_link_in(ix, folder, a, b) && comes_before(a, b, n - 1, m);
            assert(is_link_in(ix, folder, a, b) && comes_before(a, b, n, 0));
        } else {
            let (a, b) = choose|a: int, b: int| #[trigger]
                is_file_in(ix, folder, a, b) && comes_before(a, b, n - 1, m) && (record_at(
                    ix,
                    a,
                ).bytes is None || misses_a_part(ix, record_at(ix, a)));
            assert(is_file_in(ix, folder, a, b) && comes_before(a, b, n, 0));
        }
    }
}

proof fn names_of_one_record(ix: IndexView, places: Seq<Place>, p: int, n: int, m: int)
    requires
        0 <= n < ix.order.len(),
        is_users(ix, n),
        0 <= m <= record_at(ix, n).links.len(),
        0 <= p < places.len(),
        places[p].key is Some,
        forall|i: int, j: int|
            0 <= i < j < places.len() ==> (#[trigger] places[i]).key != (#[trigger] places[j]).key,
    ensures
        gathers(
            ix,
            ix.direct_totals(places, ix.entries(n) + ix.names_of(ix.order[n], m), p),
            places[p].key->0,
            n,
            m,
        ),
    decreases n, m + 1,
{
    let all = ix.entries(n) + ix.names_of(ix.order[n], m);
    if m == 0 {
        names_of_all_records(ix, places, p, n);
        assert(all =~= ix.entries(n));
    } else {
        names_of_one_record(ix, places, p, n, m - 1);
        let rest = ix.entries(n) + ix.names_of(ix.order[n], m - 1);
        assert(all.drop_last() =~= rest);
        one_more_name(
            ix,
            places,
            ix.direct_totals(places, rest, p),
            all.last(),
            p,
            n,
            m - 1,
        );
    }
}

proof fn names_of_all_records(ix: IndexView, places: Seq<Place>, p: int, n: int)
    requires
        0 <= n <= ix.order.len(),
        0 <= p < places.len(),
        places[p].key is Some,
        forall|i: int, j: int|
            0 <= i < j < places.len() ==> (#[trigger] places[i]).key != (#[trigger] places[j]).key,
    ensures
        gathers(ix, ix.direct_totals(places, ix.entries(n), p), places[p].key->0, n, 0),
    decreases n, 0int,
{
    if n > 0 {
        slots_are_the_lower_bits(ix.order[n - 1]);
        if is_users(ix, n - 1) {
            let m = record_at(ix, n - 1).links.len() as int;
            names_of_one_record(ix, places, p, n - 1, m);
            the_next_record_starts(
                ix,
                ix.direct_totals(places, ix.entries(n), p),
                places[p].key->0,
                n,
                m,
            );
        } else {
            names_of_all_records(ix, places, p, n - 1);
            the_next_record_starts(
                ix,
                ix.direct_totals(places, ix.entries(n), p),
                places[p].key->0,
                n,
                0,
            );
        }
    }
}

proof fn nothing_lies_in_a_nameless_root(ix: IndexView, places: Seq<Place>, entries: Seq<Entry>)
    requires
        places.len() == 1,
        places[0].key is None,
    ensures
        ix.direct_totals(places, entries, 0) == Totals::nothing(),
    decreases entries.len(),
{
    if entries.len() > 0 {
        nothing_lies_in_a_nameless_root(ix, places, entries.drop_last());
        crate::tree::totals_in_any_order(
            Totals::nothing(),
            Totals::nothing(),
            Totals::nothing(),
        );
        assert(!has_place(places, entries.last().link.parent)) by {
            assert forall|i: int| 0 <= i < places.len() implies (#[trigger] places[i]).key != Some(
                entries.last().link.parent,
            ) by {
                assert(i == 0);
            }
        }
    }
}

/// Whether the record of a file in the folder at place `p` came as number `a`, under name `b`.
pub open spec fn holds_file(ix: IndexView, places: Seq<Place>, p: int, a: int, b: int) -> bool {
    0 <= p < places.len() && places[p].key is Some && is_file_in(ix, places[p].key->0, a, b)
}

/// Whether the record of a reparse point in the folder at place `p` came as number
/// `a`, under name `b`.
pub open spec fn holds_link(ix: IndexView, places: Seq<Place>, p: int, a: int, b: int) -> bool {
    0 <= p < places.len() && places[p].key is Some && is_link_in(ix, places[p].key->0, a, b)
}

/// Whether the folder at place `p` is known in part only: by its own record, by a
/// file or a link in it, or, at the root, because something could not be placed.
pub open spec fn is_partly_known(ix: IndexView, places: Seq<Place>, p: int) -> bool {
    ||| places[p].key is Some && misses_a_part(ix, ix.records[places[p].key->0])
    ||| exists|a: int, b: int| #[trigger] holds_link(ix, places, p, a, b)
    ||| exists|a: int, b: int| #[trigger]
        holds_file(ix, places, p, a, b) && (record_at(ix, a).bytes is None || misses_a_part(
            ix,
            record_at(ix, a),
        ))
    ||| p == 0 && ix.errors(places) > 0
}

/// What the folder at place `p` shows before its subfolders are added.
spec fn shows_direct_files(ix: IndexView, places: Seq<Place>, p: int, node: NodeView) -> bool {
    let n = ix.order.len() as int;
    let own = if places[p].key is Some {
        ix.records[places[p].key->0].modified
    } else {
        None
    };
    &&& shows_sum(
        node.own_bytes,
        if places[p].key is Some {
            bytes_in(ix, places[p].key->0, n)
        } else {
            0
        },
    )
    &&& shows_sum(
        node.files,
        if places[p].key is Some {
            files_in(ix, places[p].key->0, n)
        } else {
            0
        },
    )
    &&& not_before(node.modified, own)
    &&& forall|a: int, b: int| #[trigger]
        holds_file(ix, places, p, a, b) ==> not_before(node.modified, record_at(ix, a).modified)
            && not_before(node.accessed, record_at(ix, a).accessed)
    &&& node.modified is Some ==> node.modified == own || exists|a: int, b: int| #[trigger]
        holds_file(ix, places, p, a, b) && record_at(ix, a).modified == node.modified
    &&& node.accessed is Some ==> exists|a: int, b: int| #[trigger]
        holds_file(ix, places, p, a, b) && record_at(ix, a).accessed == node.accessed
    &&& node.missing_modified <==> (places[p].key is Some && own is None) || exists|a: int, b: int| #[trigger]
        holds_file(ix, places, p, a, b) && record_at(ix, a).modified is None
    &&& node.missing_accessed <==> exists|a: int, b: int| #[trigger]
        holds_file(ix, places, p, a, b) && record_at(ix, a).accessed is None
    &&& node.incomplete <==> is_partly_known(ix, places, p)
}

#[verifier::rlimit(60)]
proof fn folders_show_their_direct_files(ix: IndexView, places: Seq<Place>, p: int)
    requires
        0 <= p < places.len(),
        places[p].key is None ==> places.len() == 1,
        forall|i: int, j: int|
            0 <= i < j < places.len() ==> (#[trigger] places[i]).key != (#[trigger] places[j]).key,
    ensures
        shows_direct_files(ix, places, p, ix.counted_node(places, p)),
        ix.counted_node(places, p).path == places[p].path,
        ix.counted_node(places, p).parent == places[p].parent,
        ix.counted_node(places, p).bytes == 0,
{
    let n = ix.order.len() as int;
    let node = ix.counted_node(places, p);
    let t = ix.direct_totals(places, ix.entries(n), p);
    if places[p].key is None {
        nothing_lies_in_a_nameless_root(ix, places, ix.entries(n));
    } else {
        let folder = places[p].key->0;
        names_of_all_records(ix, places, p, n);
        parts_are_missed(ix, ix.records[folder]);
        assert(forall|a: int, b: int| #[trigger]
            holds_file(ix, places, p, a, b) <==> is_file_in(ix, folder, a, b));
        assert(forall|a: int, b: int|
            holds_file(ix, places, p, a, b) <==> #[trigger] is_file_in(ix, folder, a, b));
        assert(forall|a: int, b: int| #[trigger]
            holds_link(ix, places, p, a, b) <==> is_link_in(ix, folder, a, b));
        assert(forall|a: int, b: int|
            holds_link(ix, places, p, a, b) <==> #[trigger] is_link_in(ix, folder, a, b));
        assert(forall|a: int, b: int| #[trigger]
            is_file_in(ix, folder, a, b) ==> comes_before(a, b, n, 0));
        assert(forall|a: int, b: int| #[trigger]
            is_link_in(ix, folder, a, b) ==> comes_before(a, b, n, 0));
    }
}

/// What a folder of the map shows of the records below it.
///
/// Its size is that of the files named at or below it, each under each of its names,
/// and so is the number of files. Its date of the last change is the latest among the
/// records of the folders at or below it and of the files counted there; its date of
/// the last access is the latest among the records of those files. A date is marked
/// as missing exactly where one of these records has none. The folder is marked as
/// partly known exactly where the map is partial, or a record, a link or an
/// unplaced record below it says so.
pub proof fn folders_show_the_records_below(
    ix: IndexView,
    root: PathView,
    tree: Seq<NodeView>,
    partial: bool,
    i: int,
)
    requires
        ix.valid(),
        ix.order.len() <= usize::MAX,
        added_up(ix.counted_nodes(root), tree, partial),
        shaped(tree),
        0 <= i < tree.len(),
    ensures
        ({
            let places = ix.places(root);
            let n = ix.order.len() as int;
            &&& tree.len() == places.len()
            &&& tree[i].path == places[i].path
            &&& tree[i].parent == places[i].parent
            &&& shows_sum(
                tree[i].own_bytes,
                if places[i].key is Some {
                    bytes_in(ix, places[i].key->0, n)
                } else {
                    0
                },
            )
            &&& shows_sum(tree[i].bytes, all_bytes_below(ix, places, tree, i, tree.len() as int))
            &&& shows_sum(tree[i].files, all_files_below(ix, places, tree, i, tree.len() as int))
            &&& forall|p: int, a: int, b: int| #[trigger]
                holds_file(ix, places, p, a, b) && is_below(tree, p, i) ==> not_before(
                    tree[i].accessed,
                    record_at(ix, a).accessed,
                ) && not_before(tree[i].modified, record_at(ix, a).modified)
            &&& tree[i].accessed is Some ==> exists|p: int, a: int, b: int| #[trigger]
                holds_file(ix, places, p, a, b) && is_below(tree, p, i) && record_at(ix, a).accessed
                    == tree[i].accessed
            &&& tree[i].missing_accessed <==> exists|p: int, a: int, b: int| #[trigger]
                holds_file(ix, places, p, a, b) && is_below(tree, p, i) && record_at(
                    ix,
                    a,
                ).accessed is None
            &&& forall|p: int|
                0 <= p < places.len() && #[trigger] is_below(tree, p, i) && places[p].key is Some
                    ==> not_before(tree[i].modified, ix.records[places[p].key->0].modified)
            &&& tree[i].modified is Some ==> (exists|p: int|
                0 <= p < places.len() && #[trigger] is_below(tree, p, i) && places[p].key is Some
                    && ix.records[places[p].key->0].modified == tree[i].modified) || exists|
                p: int,
                a: int,
                b: int,
            | #[trigger]
                holds_file(ix, places, p, a, b) && is_below(tree, p, i) && record_at(ix, a).modified
                    == tree[i].modified
            &&& tree[i].missing_modified <==> (exists|p: int|
                0 <= p < places.len() && #[trigger] is_below(tree, p, i) && places[p].key is Some
                    && ix.records[places[p].key->0].modified is None) || exists|
                p: int,
                a: int,
                b: int,
            | #[trigger]
                holds_file(ix, places, p, a, b) && is_below(tree, p, i) && record_at(
                    ix,
                    a,
                ).modified is None
            &&& tree[i].incomplete <==> partial || exists|p: int|
                0 <= p < places.len() && #[trigger] is_below(tree, p, i) && is_partly_known(
                    ix,
                    places,
                    p,
                )
        }),
{
    let places = ix.places(root);
    let raw = ix.counted_nodes(root);
    folders_stand_where_their_first_name_says(ix, root);
    assert forall|p: int| 0 <= p < raw.len() implies shows_direct_files(
        ix,
        places,
        p,
        #[trigger] raw[p],
    ) && raw[p].path == places[p].path && raw[p].parent == places[p].parent && raw[p].bytes == 0 by {
        if places[p].key is None {
            if p > 0 {
                assert(crate::mft::place_laws::stands_right(ix, places, p));
            }
        }
        folders_show_their_direct_files(ix, places, p);
    }
    assert forall|p: int| 0 <= p < raw.len() implies (#[trigger] raw[p]).parent == tree[p].parent
        && raw[p].children == tree[p].children && raw[p].path == tree[p].path by {
        assert(tree[p] == tree[p]);
    }
    totals_do_not_move_folders(tree, raw);
    folders_show_everything_below(raw, tree, partial, i);
    assert forall|p: int| 0 <= p < raw.len() implies #[trigger] is_below(tree, p, i) == is_below(
        raw,
        p,
        i,
    ) by {
        below_in_both(raw, tree, p, i);
    }
    assert forall|p: int| 0 <= p < raw.len() implies is_below(tree, p, i) == #[trigger] is_below(
        raw,
        p,
        i,
    ) by {
        below_in_both(raw, tree, p, i);
    }
    sums_below_agree(ix, places, raw, tree, i, raw.len() as int);
    assert forall|p: int| 0 <= p < raw.len() && #[trigger] is_below(
        tree,
        p,
        i,
    ) implies shows_direct_files(ix, places, p, raw[p]) by {
        assert(shows_direct_files(ix, places, p, raw[p]));
    }
    if tree[i].accessed is Some {
        let p = choose|p: int|
            0 <= p < raw.len() && #[trigger] is_below(raw, p, i) && raw[p].accessed
                == tree[i].accessed;
        let (a, b) = choose|a: int, b: int| #[trigger]
            holds_file(ix, places, p, a, b) && record_at(ix, a).accessed == raw[p].accessed;
        assert(holds_file(ix, places, p, a, b) && is_below(tree, p, i));
    }
    if tree[i].missing_accessed {
        let p = choose|p: int|
            0 <= p < raw.len() && #[trigger] is_below(raw, p, i) && raw[p].missing_accessed;
        let (a, b) = choose|a: int, b: int| #[trigger]
            holds_file(ix, places, p, a, b) && record_at(ix, a).accessed is None;
        assert(holds_file(ix, places, p, a, b) && is_below(tree, p, i));
    }
    if tree[i].modified is Some {
        let p = choose|p: int|
            0 <= p < raw.len() && #[trigger] is_below(raw, p, i) && raw[p].modified
                == tree[i].modified;
        assert(is_below(tree, p, i));
        if !(places[p].key is Some && ix.records[places[p].key->0].modified == tree[i].modified) {
            let (a, b) = choose|a: int, b: int| #[trigger]
                holds_file(ix, places, p, a, b) && record_at(ix, a).modified == raw[p].modified;
            assert(holds_file(ix, places, p, a, b) && is_below(tree, p, i));
        }
    }
    if tree[i].missing_modified {
        let p = choose|p: int|
            0 <= p < raw.len() && #[trigger] is_below(raw, p, i) && raw[p].missing_modified;
        assert(is_below(tree, p, i));
        if !(places[p].key is Some && ix.records[places[p].key->0].modified is None) {
            let (a, b) = choose|a: int, b: int| #[trigger]
                holds_file(ix, places, p, a, b) && record_at(ix, a).modified is None;
            assert(holds_file(ix, places, p, a, b) && is_below(tree, p, i));
        }
    }
    if exists|p: int|
        0 <= p < places.len() && #[trigger] is_below(tree, p, i) && is_partly_known(ix, places, p) {
        let p = choose|p: int|
            0 <= p < places.len() && #[trigger] is_below(tree, p, i) && is_partly_known(
                ix,
                places,
                p,
            );
        assert(is_below(raw, p, i) && raw[p].incomplete);
    }
}

proof fn below_in_both(raw: Seq<NodeView>, tree: Seq<NodeView>, p: int, i: int)
    requires
        raw.len() == tree.len(),
        0 <= p < raw.len(),
        forall|j: int| 0 <= j < raw.len() ==> (#[trigger] raw[j]).parent == tree[j].parent,
    ensures
        is_below(tree, p, i) == is_below(raw, p, i),
    decreases p,
{
    assert(raw[p].parent == tree[p].parent);
    if tree[p].parent is Some && tree[p].parent->0 < p {
        below_in_both(raw, tree, tree[p].parent->0 as int, i);
    }
}

/// The bytes that folders show for the files directly in them: those of the files
/// that are named there, or the largest number where they do not fit.
pub open spec fn shown(sum: int) -> int {
    if sum <= 0xFFFF_FFFF_FFFF_FFFF {
        sum
    } else {
        0xFFFF_FFFF_FFFF_FFFF
    }
}

/// The bytes of the files that are named in those of the first `m` folders that are
/// at or below folder `i`.
pub open spec fn all_bytes_below(
    ix: IndexView,
    places: Seq<Place>,
    tree: Seq<NodeView>,
    i: int,
    m: int,
) -> int
    decreases m,
{
    if m <= 0 {
        0
    } else {
        all_bytes_below(ix, places, tree, i, m - 1) + if is_below(tree, m - 1, i)
            && places[m - 1].key is Some {
            shown(bytes_in(ix, places[m - 1].key->0, ix.order.len() as int))
        } else {
            0
        }
    }
}

/// How many files are named in those of the first `m` folders that are at or below folder `i`.
pub open spec fn all_files_below(
    ix: IndexView,
    places: Seq<Place>,
    tree: Seq<NodeView>,
    i: int,
    m: int,
) -> int
    decreases m,
{
    if m <= 0 {
        0
    } else {
        all_files_below(ix, places, tree, i, m - 1) + if is_below(tree, m - 1, i)
            && places[m - 1].key is Some {
            shown(files_in(ix, places[m - 1].key->0, ix.order.len() as int))
        } else {
            0
        }
    }
}

proof fn sums_below_agree(
    ix: IndexView,
    places: Seq<Place>,
    raw: Seq<NodeView>,
    tree: Seq<NodeView>,
    i: int,
    m: int,
)
    requires
        0 <= m <= raw.len(),
        raw.len() == places.len(),
        raw.len() == tree.len(),
        forall|p: int|
            0 <= p < raw.len() ==> shows_direct_files(ix, places, p, #[trigger] raw[p]),
        forall|p: int|
            0 <= p < raw.len() ==> is_below(tree, p, i) == #[trigger] is_below(raw, p, i),
    ensures
        crate::below::bytes_below(raw, i, m) == all_bytes_below(ix, places, tree, i, m),
        crate::below::files_below(raw, i, m) == all_files_below(ix, places, tree, i, m),
    decreases m,
{
    if m > 0 {
        sums_below_agree(ix, places, raw, tree, i, m - 1);
        assert(shows_direct_files(ix, places, m - 1, raw[m - 1]));
        assert(is_below(tree, m - 1, i) == is_below(raw, m - 1, i));
    }
}

} // verus!
