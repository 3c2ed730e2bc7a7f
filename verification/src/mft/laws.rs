//! What holds of every decoded record and of every index.
use vstd::prelude::*;
use crate::bytes::{le, le_bound, number_at, pow256_values, sliced};
use crate::mft::{attributes_of, decode_pairs, fixup_layout, fixup_result, references_of, repaired, resident_value, runs_of, sector_ends_with, sectors_are_raw, sectors_are_restored, Run};
use crate::mft::index::{slot, with_links, IndexView};
use crate::mft::layout::{folders_in_are_the_folders, has_place, place_of, Place, FIRST_USER_SLOT, ROOT_SLOT};
use crate::mft::record::{record_of, with_attribute, with_attributes, LinkView, RecordView};
use crate::mft::report::Entry;
use crate::path::PathView;
use crate::sort::{in_order_keeps_the_numbers, strictly_increasing};
use crate::time::later_is_associative_and_commutative;
use crate::tree::Totals;

verus! {

/// Runs that follow each other from cluster `vcn` on.
pub open spec fn follow_on(runs: Seq<Run>, vcn: int, end: int) -> bool
    decreases runs.len(),
{
    if runs.len() == 0 {
        vcn == end
    } else {
        runs[0].vcn == vcn && runs[0].clusters > 0 && follow_on(
            runs.drop_first(),
            vcn + runs[0].clusters,
            end,
        )
    }
}

proof fn decoded_runs_follow_on(pairs: Seq<u8>, vcn: int, lcn: int, end: int)
    requires
        0 <= vcn <= u64::MAX,
        decode_pairs(pairs, vcn, lcn, end) is Ok,
    ensures
        follow_on(decode_pairs(pairs, vcn, lcn, end)->Ok_0, vcn, end),
    decreases pairs.len(),
{
    if pairs[0] != 0 {
        let n = pairs[0] as int % 16;
        let d = pairs[0] as int / 16;
        let bytes = sliced(pairs, 1, n + d)->Ok_0;
        let clusters = le(bytes.take(n));
        le_bound(bytes.take(n));
        let position = lcn + crate::mft::signed_le(bytes.skip(n));
        let next = if d == 0 {
            lcn
        } else {
            position
        };
        decoded_runs_follow_on(pairs.skip(1 + n + d), vcn + clusters, next, end);
        let rest = decode_pairs(pairs.skip(1 + n + d), vcn + clusters, next, end)->Ok_0;
        let all = decode_pairs(pairs, vcn, lcn, end)->Ok_0;
        assert(all.drop_first() =~= rest);
    }
}

/// The runs of an attribute cover its clusters from the first to the last,
/// without a gap, an overlap or an empty run.
pub proof fn runs_cover_their_range(attr: Seq<u8>)
    requires
        runs_of(attr) is Ok,
    ensures
        follow_on(
            runs_of(attr)->Ok_0,
            number_at(attr, 16, 8)->Ok_0,
            number_at(attr, 24, 8)->Ok_0 + 1,
        ),
{
    let vcn = number_at(attr, 16, 8)->Ok_0;
    let last = number_at(attr, 24, 8)->Ok_0;
    let offset = number_at(attr, 32, 2)->Ok_0;
    le_bound(sliced(attr, 16, 8)->Ok_0);
    pow256_values();
    decoded_runs_follow_on(attr.skip(offset), vcn, 0, last + 1);
}

/// The references of an attribute list come in increasing order, each once.
pub proof fn references_are_in_order(data: Seq<u8>)
    requires
        references_of(data) is Ok,
    ensures
        strictly_increasing(references_of(data)->Ok_0),
{
    in_order_keeps_the_numbers(crate::mft::listed_references(data, 0)->Ok_0);
}

/// A record that was repaired is recognised as such, and repairing it again
/// changes nothing.
pub proof fn repairing_twice_changes_nothing(data: Seq<u8>, allow_restored: bool)
    requires
        fixup_result(data, allow_restored).0 is Ok,
        data.len() <= usize::MAX,
    ensures
        fixup_result(fixup_result(data, allow_restored).1, true) == (
            Ok::<(), Seq<char>>(()),
            fixup_result(data, allow_restored).1,
        ),
{
    let (offset, count, stride) = fixup_layout(data)->Ok_0;
    if sectors_are_raw(data, offset, count, stride) {
        let whole = repaired(data, offset, stride);
        le_bound(sliced(data, 4, 2)->Ok_0);
        le_bound(sliced(data, 6, 2)->Ok_0);
        assert(stride >= 512);
        assert(data.len() == (count - 1) * stride) by (nonlinear_arith)
            requires
                data.len() as int % (count - 1) == 0,
                stride == data.len() as int / (count - 1),
                count >= 2,
        ;
        assert(data.len() >= stride) by (nonlinear_arith)
            requires
                data.len() == (count - 1) * stride,
                count >= 2,
                stride >= 512,
        ;
        assert forall|k: int| 0 <= k < stride - 2 implies whole[k] == data[k] by {
            assert(k % stride == k) by (nonlinear_arith)
                requires
                    0 <= k < stride,
            ;
        }
        assert(sliced(whole, 0, 4)->Ok_0 =~= sliced(data, 0, 4)->Ok_0);
        assert(sliced(whole, 4, 2)->Ok_0 =~= sliced(data, 4, 2)->Ok_0);
        assert(sliced(whole, 6, 2)->Ok_0 =~= sliced(data, 6, 2)->Ok_0);
        assert(fixup_layout(whole) == fixup_layout(data));
        assert forall|i: int, b: int| 1 <= i < count && 0 <= b < 2 implies #[trigger] whole[i * stride
            - 2 + b] == data[offset + i * 2 + b] by {
            let k = i * stride - 2 + b;
            assert(0 <= k < data.len() && k / stride == i - 1 && k % stride == stride - 2 + b)
                by (nonlinear_arith)
                requires
                    k == i * stride - 2 + b,
                    1 <= i < count,
                    0 <= b < 2,
                    stride >= 512,
                    data.len() == (count - 1) * stride,
            ;
        }
        assert forall|i: int| 1 <= i < count implies #[trigger] sector_ends_with(
            whole,
            stride,
            i,
            offset + i * 2,
        ) by {
            assert(whole[i * stride - 2 + 0] == data[offset + i * 2 + 0]);
            assert(whole[i * stride - 2 + 1] == data[offset + i * 2 + 1]);
            assert(whole[offset + i * 2] == data[offset + i * 2]);
            assert(whole[offset + i * 2 + 1] == data[offset + i * 2 + 1]);
        }
        assert(sectors_are_restored(whole, offset, count, stride));
        assert(repaired(whole, offset, stride) =~= whole) by {
            assert forall|k: int| 0 <= k < whole.len() implies #[trigger] repaired(
                whole,
                offset,
                stride,
            )[k] == whole[k] by {
                if k % stride >= stride - 2 {
                    let at = offset + (k / stride + 1) * 2 + (k % stride - (stride - 2));
                    assert(0 <= k / stride < count - 1 && 0 <= k % stride < stride)
                        by (nonlinear_arith)
                        requires
                            0 <= k < data.len(),
                            data.len() == (count - 1) * stride,
                            stride >= 512,
                    ;
                    assert(0 <= at < stride - 2);
                    assert(whole[at] == data[at]);
                }
            }
        }
    }
}

proof fn attributes_keep_links_distinct(rec: RecordView, attrs: Seq<Seq<u8>>, number: u64, windows: bool)
    requires
        rec.links.no_duplicates(),
        with_attributes(rec, attrs, number, windows) is Ok,
    ensures
        with_attributes(rec, attrs, number, windows)->Ok_0.links.no_duplicates(),
    decreases attrs.len(),
{
    if attrs.len() > 0 {
        let next = with_attribute(rec, attrs[0], number, windows)->Ok_0;
        assert(next.links.no_duplicates());
        attributes_keep_links_distinct(next, attrs.drop_first(), number, windows);
    }
}

/// A record holds each of its names once, however often they are spelt.
pub proof fn records_hold_each_name_once(data: Seq<u8>, number: u64, windows: bool)
    requires
        record_of(data, number, windows) is Ok,
        record_of(data, number, windows)->Ok_0 is Some,
    ensures
        (record_of(data, number, windows)->Ok_0->0).links.no_duplicates(),
{
    let attrs = attributes_of(data)->Ok_0;
    let flags = number_at(data, 22, 2)->Ok_0;
    let base = number_at(data, 32, 8)->Ok_0;
    let sequence = number_at(data, 16, 2)->Ok_0;
    let rec = RecordView {
        reference: number | ((sequence as u64) << 48),
        base: base as u64,
        base_seen: base == 0,
        directory: (flags as u16) & 2 != 0,
        ..RecordView::blank()
    };
    attributes_keep_links_distinct(rec, attrs, number, windows);
}

/// A short DOS alias of a name adds nothing to its record.
pub proof fn aliases_add_nothing(rec: RecordView, attr: Seq<u8>, number: u64, windows: bool)
    requires
        number_at(attr, 0, 4) == Ok::<int, Seq<char>>(0x30),
        resident_value(attr) is Ok,
        resident_value(attr)->Ok_0.len() >= 66,
        resident_value(attr)->Ok_0[65] == 2,
    ensures
        with_attribute(rec, attr, number, windows) == Ok::<RecordView, Seq<char>>(rec),
{
}

/// A named data stream adds nothing to the size of its file.
pub proof fn named_streams_add_nothing(rec: RecordView, attr: Seq<u8>, number: u64, windows: bool)
    requires
        number_at(attr, 0, 4) == Ok::<int, Seq<char>>(0x80),
        attr[9] != 0,
    ensures
        with_attribute(rec, attr, number, windows) == Ok::<RecordView, Seq<char>>(rec),
{
}

/// Only names of whole records that are not the file system's own are counted.
pub proof fn only_user_records_are_counted(ix: IndexView, n: int, k: int)
    requires
        0 <= n <= ix.order.len(),
        0 <= k < ix.entries(n).len(),
    ensures
        ix.records[ix.entries(n)[k].key].base_seen,
        slot(ix.entries(n)[k].key) >= FIRST_USER_SLOT,
    decreases n,
{
    if n > 0 {
        let rest = ix.entries(n - 1);
        if k < rest.len() {
            only_user_records_are_counted(ix, n - 1, k);
            assert(ix.entries(n)[k] == rest[k]);
        } else {
            let key = ix.order[n - 1];
            let names = ix.names_of(key, ix.records[key].links.len() as int);
            assert(ix.entries(n)[k] == names[k - rest.len()]);
        }
    }
}

/// Whether every place but that of the root belongs to a folder of the user.
spec fn user_places(ix: IndexView, places: Seq<Place>) -> bool {
    forall|j: int|
        0 <= j < places.len() ==> ((#[trigger] places[j]).key matches Some(key) ==> slot(key)
            == ROOT_SLOT || ix.is_folder(key))
}

proof fn root_has_its_slot(ix: IndexView, from: int)
    requires
        0 <= from,
    ensures
        ix.root_from(from) matches Some(key) ==> slot(key) == ROOT_SLOT,
    decreases ix.order.len() - from,
{
    if from < ix.order.len() {
        root_has_its_slot(ix, from + 1);
    }
}

proof fn placing_keeps_to_user_folders(ix: IndexView, places: Seq<Place>, next: int)
    requires
        ix.valid(),
        user_places(ix, places),
        0 <= next,
    ensures
        user_places(ix, ix.placed(places, next)),
    decreases ix.order.len() - next,
{
    if next < places.len() && next < ix.order.len() {
        if let Some(key) = places[next].key {
            let keys = ix.folders_in(key);
            let row = ix.below(places[next], next, keys);
            folders_in_are_the_folders(ix, key);
            assert forall|j: int| 0 <= j < (places + row).len() implies ((
            #[trigger] (places + row)[j]).key matches Some(k) ==> slot(k) == ROOT_SLOT
                || ix.is_folder(k)) by {
                if j < places.len() {
                    assert((places + row)[j] == places[j]);
                } else {
                    assert(keys.contains(keys[j - places.len()]));
                }
            }
            placing_keeps_to_user_folders(ix, places + row, next + 1);
        }
    }
}

/// The map shows only the root and plain folders of the user: the file system's
/// own folders, links and records without a name have no place.
pub proof fn only_user_folders_are_shown(ix: IndexView, root: PathView, key: u64)
    requires
        ix.valid(),
        has_place(ix.places(root), key),
    ensures
        slot(key) == ROOT_SLOT || (slot(key) >= FIRST_USER_SLOT && ix.records[key].directory
            && !ix.records[key].reparse && ix.records[key].base_seen),
{
    let start = seq![ix.root_place(root)];
    root_has_its_slot(ix, 0);
    assert(user_places(ix, start));
    placing_keeps_to_user_folders(ix, start, 0);
    let places = ix.places(root);
    let i = choose|i: int| 0 <= i < places.len() && (#[trigger] places[i]).key == Some(key);
    assert(places[i].key == Some(key));
}

/// What lies in one of the file system's own folders is not counted.
pub proof fn names_in_reserved_folders_add_nothing(
    ix: IndexView,
    root: PathView,
    entry: Entry,
    p: int,
)
    requires
        ix.valid(),
        slot(entry.link.parent) < FIRST_USER_SLOT,
        slot(entry.link.parent) != ROOT_SLOT,
    ensures
        ix.entry_totals(ix.places(root), entry, p) == Totals::nothing(),
        !ix.is_counted(ix.places(root), entry),
        !ix.is_skipped(ix.places(root), entry),
{
    if has_place(ix.places(root), entry.link.parent) {
        only_user_folders_are_shown(ix, root, entry.link.parent);
    }
}

/// A file is counted once for each of its names, in the folder that holds the
/// name; a link is not counted, but marks that folder.
pub proof fn files_count_under_each_name(
    ix: IndexView,
    places: Seq<Place>,
    before: Seq<Entry>,
    entry: Entry,
    p: int,
)
    requires
        place_of(places, entry.link.parent) == Some(p),
        !ix.records[entry.key].directory || ix.records[entry.key].reparse,
    ensures
        ({
            let rec = ix.records[entry.key];
            let added = if rec.reparse {
                Totals { incomplete: true, ..Totals::nothing() }
            } else {
                ix.file_totals(rec)
            };
            ix.direct_totals(places, before.push(entry), p) == ix.direct_totals(
                places,
                before,
                p,
            ).plus(added)
        }),
{
    assert(before.push(entry).drop_last() =~= before);
}

/// Links that are put together hold each name of either, once.
pub proof fn merged_links(links: Seq<LinkView>, more: Seq<LinkView>)
    ensures
        links.no_duplicates() ==> with_links(links, more).no_duplicates(),
        forall|link: LinkView| #[trigger]
            with_links(links, more).contains(link) <==> links.contains(link) || more.contains(link),
    decreases more.len(),
{
    if more.len() > 0 {
        let rest = more.drop_last();
        merged_links(links, rest);
        let before = with_links(links, rest);
        let after = with_links(links, more);
        assert forall|link: LinkView| #[trigger] after.contains(link) <==> links.contains(link)
            || more.contains(link) by {
            if more.contains(link) && link != more.last() {
                let k = choose|k: int| 0 <= k < more.len() && more[k] == link;
                assert(rest[k] == link);
                assert(rest.contains(link));
            }
            if rest.contains(link) {
                let k = choose|k: int| 0 <= k < rest.len() && rest[k] == link;
                assert(more[k] == link);
            }
            if before.contains(more.last()) {
                assert(after == before);
            } else {
                assert(after == before.push(more.last()));
                if before.contains(link) {
                    let k = choose|k: int| 0 <= k < before.len() && before[k] == link;
                    assert(after[k] == link);
                }
                assert(after[before.len() as int] == more.last());
                if after.contains(link) {
                    let k = choose|k: int| 0 <= k < after.len() && after[k] == link;
                    if k < before.len() {
                        assert(before[k] == link);
                    }
                }
            }
            assert(more[more.len() - 1] == more.last());
        }
    }
}

/// Whether every record of an index holds each of its names once.
pub open spec fn names_once(ix: IndexView) -> bool {
    forall|key: u64| #[trigger]
        ix.records.contains_key(key) ==> ix.records[key].links.no_duplicates()
}

/// Taking a record in keeps every name once: parts of one record that repeat a
/// hard link do not count it twice.
pub proof fn hard_links_are_merged_once(ix: IndexView, rec: RecordView)
    requires
        names_once(ix),
        rec.links.no_duplicates(),
    ensures
        names_once(ix.inserted(rec)),
{
    if ix.records.contains_key(rec.key()) {
        merged_links(ix.records[rec.key()].links, rec.links);
    }
}

/// A base record and an extension that does not contradict it give the same
/// record, whichever comes first; only the order of names and of announced
/// parts may differ.
pub proof fn parts_may_come_in_any_order(base: RecordView, part: RecordView)
    requires
        base.base == 0,
        base.base_seen,
        !part.base_seen,
        !base.conflicts_with(part),
    ensures
        ({
            let a = base.merged(part);
            let b = part.merged(base);
            &&& a.reference == b.reference
            &&& a.base == b.base
            &&& a.base_seen == b.base_seen
            &&& a.directory == b.directory
            &&& a.reparse == b.reparse
            &&& a.bytes == b.bytes
            &&& a.modified == b.modified
            &&& a.accessed == b.accessed
            &&& a.incomplete == b.incomplete
            &&& a.expected.to_multiset() == b.expected.to_multiset()
            &&& forall|link: LinkView| a.links.contains(link) <==> b.links.contains(link)
        }),
{
    later_is_associative_and_commutative(base.modified, part.modified, None);
    later_is_associative_and_commutative(base.accessed, part.accessed, None);
    merged_links(base.links, part.links);
    merged_links(part.links, base.links);
    vstd::seq_lib::lemma_multiset_commutative(base.expected, part.expected);
    vstd::seq_lib::lemma_multiset_commutative(part.expected, base.expected);
    assert(base.expected.to_multiset().add(part.expected.to_multiset())
        =~= part.expected.to_multiset().add(base.expected.to_multiset()));
}

} // verus!
