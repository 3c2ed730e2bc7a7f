//! The order in which the records of a volume come, which its map does not show.
use vstd::prelude::*;
use crate::mft::index::{slot, with_links, IndexView};
use crate::mft::laws::merged_links;
use crate::mft::layout::{folders_in_are_the_folders, Place, ROOT_SLOT};
use crate::mft::record::{LinkView, RecordView};
use crate::mft::report::{unseen, unseen_shrinks, Entry};
use crate::path::PathView;
use crate::scan::ProgressView;
use crate::sort::increasing_lists_are_unique;
use crate::time::{later, later_is_associative_and_commutative, Timestamp};
use crate::tree::{added_up, adding_up_has_one_result, parents_first, shaped, totals_in_any_order, NodeView, Totals};

verus! {

/// The index of a volume whose records came in this order.
pub open spec fn all_in(parts: Seq<RecordView>) -> IndexView
    decreases parts.len(),
{
    if parts.len() == 0 {
        IndexView { order: seq![], records: Map::empty(), extensions: Map::empty() }
    } else {
        all_in(parts.drop_last()).inserted(parts.last())
    }
}

/// Whether `part` is one of `parts` and belongs to the record under `key`.
pub open spec fn belongs(parts: Seq<RecordView>, part: RecordView, key: u64) -> bool {
    parts.contains(part) && part.key() == key
}

/// Whether two parts can stand in one volume: parts of one record agree on its
/// length and on whether it is a folder, and an extension has one base.
pub open spec fn agree(a: RecordView, b: RecordView) -> bool {
    &&& a.key() == b.key() ==> !a.conflicts_with(b)
    &&& a.key() == b.key() && a.base_seen && b.base_seen ==> a.directory == b.directory
    &&& a.reference == b.reference && a.base != 0 && b.base != 0 ==> a.base == b.base
}

/// Whether parts are as they are decoded, and agree with each other.
pub open spec fn consistent(parts: Seq<RecordView>) -> bool {
    &&& forall|a: RecordView| #[trigger]
        parts.contains(a) ==> a.base_seen == (a.base == 0) && a.links.no_duplicates()
    &&& forall|a: RecordView, b: RecordView| #[trigger]
        parts.contains(a) && #[trigger] parts.contains(b) ==> agree(a, b)
}

/// When a part says that its record was changed.
spec fn changed() -> spec_fn(RecordView) -> Option<Timestamp> {
    |a: RecordView| a.modified
}

/// When a part says that its record was read.
spec fn read() -> spec_fn(RecordView) -> Option<Timestamp> {
    |a: RecordView| a.accessed
}

/// Whether `latest` is the latest of some dates, told by `date`.
spec fn is_latest(
    latest: Option<Timestamp>,
    parts: Seq<RecordView>,
    key: u64,
    date: spec_fn(RecordView) -> Option<Timestamp>,
) -> bool {
    &&& forall|a: RecordView| #[trigger] belongs(parts, a, key) ==> later(latest, date(a)) == latest
    &&& latest is Some ==> exists|a: RecordView| #[trigger] belongs(parts, a, key) && date(a) == latest
}

/// Whether the first name of a part is `link`.
pub open spec fn starts_with(part: RecordView, link: LinkView) -> bool {
    part.links.len() > 0 && part.links[0] == link
}

/// Whether a record is what its parts say together.
spec fn gathers(rec: RecordView, parts: Seq<RecordView>, key: u64) -> bool {
    &&& rec.base_seen <==> exists|a: RecordView| #[trigger] belongs(parts, a, key) && a.base_seen
    &&& rec.base_seen ==> rec.reference == key
    &&& forall|a: RecordView| #[trigger]
        belongs(parts, a, key) && a.base_seen ==> rec.directory == a.directory
    &&& rec.reparse <==> exists|a: RecordView| #[trigger] belongs(parts, a, key) && a.reparse
    &&& rec.incomplete <==> exists|a: RecordView| #[trigger] belongs(parts, a, key) && a.incomplete
    &&& rec.links.no_duplicates()
    &&& forall|link: LinkView| #[trigger]
        rec.links.contains(link) <==> exists|a: RecordView| #[trigger]
            belongs(parts, a, key) && a.links.contains(link)
    &&& rec.links.len() > 0 ==> exists|a: RecordView| #[trigger]
        belongs(parts, a, key) && starts_with(a, rec.links[0])
    &&& forall|a: RecordView| #[trigger]
        belongs(parts, a, key) && a.bytes is Some ==> rec.bytes == a.bytes
    &&& rec.bytes is Some ==> exists|a: RecordView| #[trigger]
        belongs(parts, a, key) && a.bytes == rec.bytes
    &&& is_latest(rec.modified, parts, key, changed())
    &&& is_latest(rec.accessed, parts, key, read())
    &&& forall|part: u64| #[trigger]
        rec.expected.contains(part) <==> exists|a: RecordView| #[trigger]
            belongs(parts, a, key) && a.expected.contains(part)
}

proof fn one_more_part(parts: Seq<RecordView>)
    requires
        parts.len() > 0,
    ensures
        forall|a: RecordView|
            #![trigger parts.contains(a)]
            #![trigger parts.drop_last().contains(a)]
            parts.contains(a) <==> parts.drop_last().contains(a) || a == parts.last(),
{
    let rest = parts.drop_last();
    assert forall|a: RecordView|
        #![trigger parts.contains(a)]
        #![trigger rest.contains(a)]
        parts.contains(a) <==> rest.contains(a) || a == parts.last() by {
        if parts.contains(a) {
            let i = choose|i: int| 0 <= i < parts.len() && parts[i] == a;
            if i < rest.len() {
                assert(rest[i] == a);
            }
        }
        if rest.contains(a) {
            let i = choose|i: int| 0 <= i < rest.len() && rest[i] == a;
            assert(parts[i] == a);
        }
        assert(parts[parts.len() - 1] == parts.last());
    }
}

proof fn one_more_announced(expected: Seq<u64>, more: Seq<u64>)
    ensures
        forall|part: u64| #[trigger]
            (expected + more).contains(part) <==> expected.contains(part) || more.contains(part),
{
    assert forall|part: u64| #[trigger]
        (expected + more).contains(part) <==> expected.contains(part) || more.contains(part) by {
        let all = expected + more;
        if all.contains(part) {
            let i = choose|i: int| 0 <= i < all.len() && all[i] == part;
            if i < expected.len() {
                assert(expected[i] == part);
            } else {
                assert(more[i - expected.len()] == part);
            }
        }
        if expected.contains(part) {
            let i = choose|i: int| 0 <= i < expected.len() && expected[i] == part;
            assert(all[i] == part);
        }
        if more.contains(part) {
            let i = choose|i: int| 0 <= i < more.len() && more[i] == part;
            assert(all[i + expected.len()] == part);
        }
    }
}

proof fn later_stays_the_latest(
    latest: Option<Timestamp>,
    parts: Seq<RecordView>,
    key: u64,
    date: spec_fn(RecordView) -> Option<Timestamp>,
)
    requires
        parts.len() > 0,
        parts.last().key() == key,
        is_latest(latest, parts.drop_last(), key, date),
    ensures
        is_latest(later(latest, date(parts.last())), parts, key, date),
{
    let rest = parts.drop_last();
    let last = parts.last();
    one_more_part(parts);
    let now = later(latest, date(last));
    assert forall|a: RecordView| #[trigger] belongs(parts, a, key) implies later(now, date(a))
        == now by {
        later_is_associative_and_commutative(latest, date(last), date(a));
        later_is_associative_and_commutative(latest, date(a), date(last));
        later_is_associative_and_commutative(date(last), date(a), None);
        if a != last {
            assert(belongs(rest, a, key));
        }
    }
    if now is Some {
        if now == date(last) {
            assert(belongs(parts, last, key));
        } else {
            let a = choose|a: RecordView| #[trigger] belongs(rest, a, key) && date(a) == latest;
            assert(belongs(parts, a, key));
        }
    }
}

proof fn the_first_name_stays_first(links: Seq<LinkView>, more: Seq<LinkView>)
    ensures
        links.len() > 0 ==> with_links(links, more).len() > 0 && with_links(links, more)[0]
            == links[0],
        links.len() == 0 && more.len() > 0 ==> with_links(links, more).len() > 0 && with_links(
            links,
            more,
        )[0] == more[0],
        links.len() == 0 && more.len() == 0 ==> with_links(links, more).len() == 0,
    decreases more.len(),
{
    if more.len() > 0 {
        the_first_name_stays_first(links, more.drop_last());
    }
}

/// A record with one more part says what all its parts say.
proof fn merging_gathers(rec: RecordView, parts: Seq<RecordView>, key: u64)
    requires
        parts.len() > 0,
        consistent(parts),
        parts.last().key() == key,
        gathers(rec, parts.drop_last(), key),
    ensures
        !rec.conflicts_with(parts.last()),
        gathers(rec.merged(parts.last()), parts, key),
{
    let rest = parts.drop_last();
    let last = parts.last();
    let now = rec.merged(last);
    one_more_part(parts);
    assert(parts.contains(last));
    assert(forall|a: RecordView| #[trigger]
        belongs(parts, a, key) <==> belongs(rest, a, key) || a == last);
    if rec.bytes is Some {
        let a = choose|a: RecordView| #[trigger] belongs(rest, a, key) && a.bytes == rec.bytes;
        assert(parts.contains(a));
        assert(agree(a, last));
    }
    assert(belongs(parts, last, key));
    if rec.base_seen && last.base_seen {
        let a = choose|a: RecordView| #[trigger] belongs(rest, a, key) && a.base_seen;
        assert(agree(a, last));
    }
    assert forall|a: RecordView| #[trigger] belongs(parts, a, key) && a.base_seen implies now.directory
        == a.directory by {
        assert(agree(a, last));
        if a != last {
            assert(belongs(rest, a, key));
        }
    }
    merged_links(rec.links, last.links);
    the_first_name_stays_first(rec.links, last.links);
    if rec.links.len() > 0 {
        let a = choose|a: RecordView| #[trigger]
            belongs(rest, a, key) && starts_with(a, rec.links[0]);
        assert(belongs(parts, a, key) && starts_with(a, now.links[0]));
    } else if last.links.len() > 0 {
        assert(starts_with(last, now.links[0]));
    }
    one_more_announced(rec.expected, last.expected);
    later_stays_the_latest(rec.modified, parts, key, changed());
    later_stays_the_latest(rec.accessed, parts, key, read());
    assert(now.base_seen <==> exists|a: RecordView| #[trigger]
        belongs(parts, a, key) && a.base_seen) by {
        if rec.base_seen {
            let a = choose|a: RecordView| #[trigger] belongs(rest, a, key) && a.base_seen;
            assert(belongs(parts, a, key));
        }
    }
    assert(now.reparse <==> exists|a: RecordView| #[trigger] belongs(parts, a, key) && a.reparse)
        by {
        if rec.reparse {
            let a = choose|a: RecordView| #[trigger] belongs(rest, a, key) && a.reparse;
            assert(belongs(parts, a, key));
        }
    }
    assert(now.incomplete <==> exists|a: RecordView| #[trigger]
        belongs(parts, a, key) && a.incomplete) by {
        if rec.incomplete {
            let a = choose|a: RecordView| #[trigger] belongs(rest, a, key) && a.incomplete;
            assert(belongs(parts, a, key));
        }
    }
    assert forall|link: LinkView| #[trigger] now.links.contains(link) <==> exists|a: RecordView|
        #[trigger] belongs(parts, a, key) && a.links.contains(link) by {
        if rec.links.contains(link) {
            let a = choose|a: RecordView| #[trigger]
                belongs(rest, a, key) && a.links.contains(link);
            assert(belongs(parts, a, key));
        }
        assert(now.links.contains(link) <==> rec.links.contains(link) || last.links.contains(link));
    }
    assert forall|part: u64| #[trigger] now.expected.contains(part) <==> exists|a: RecordView|
        #[trigger] belongs(parts, a, key) && a.expected.contains(part) by {
        if rec.expected.contains(part) {
            let a = choose|a: RecordView| #[trigger]
                belongs(rest, a, key) && a.expected.contains(part);
            assert(belongs(parts, a, key));
        }
        assert(now.expected.contains(part) <==> rec.expected.contains(part)
            || last.expected.contains(part));
    }
    if now.bytes is Some {
        if rec.bytes is Some {
            let a = choose|a: RecordView| #[trigger] belongs(rest, a, key) && a.bytes == rec.bytes;
            assert(belongs(parts, a, key));
        } else {
            assert(belongs(parts, last, key) && last.bytes == now.bytes);
        }
    }
}

/// The first part of a record says what all its parts say.
proof fn the_first_part_gathers(parts: Seq<RecordView>, key: u64)
    requires
        parts.len() > 0,
        consistent(parts),
        parts.last().key() == key,
        forall|a: RecordView| !#[trigger] belongs(parts.drop_last(), a, key),
    ensures
        gathers(parts.last(), parts, key),
{
    let last = parts.last();
    one_more_part(parts);
    assert forall|a: RecordView| #[trigger] belongs(parts, a, key) <==> a == last by {
        if a != last {
            assert(!belongs(parts.drop_last(), a, key));
        }
    }
    assert(belongs(parts, last, key));
    if last.links.len() > 0 {
        assert(starts_with(last, last.links[0]));
    }
}

/// The record under a key is what its parts say, and nothing comes from the others.
proof fn other_parts_add_nothing(rec: RecordView, parts: Seq<RecordView>, key: u64)
    requires
        parts.len() > 0,
        parts.last().key() != key,
        gathers(rec, parts.drop_last(), key),
    ensures
        gathers(rec, parts, key),
{
    one_more_part(parts);
    let rest = parts.drop_last();
    assert forall|a: RecordView|
        #![trigger belongs(parts, a, key)]
        #![trigger belongs(rest, a, key)]
        belongs(parts, a, key) <==> belongs(rest, a, key) by {}
}

proof fn fewer_are_consistent(parts: Seq<RecordView>)
    requires
        parts.len() > 0,
        consistent(parts),
    ensures
        consistent(parts.drop_last()),
{
    one_more_part(parts);
}

/// An index holds the records of the parts that came, each as its parts say.
proof fn an_index_gathers(parts: Seq<RecordView>)
    requires
        consistent(parts),
    ensures
        all_in(parts).valid(),
        forall|key: u64| #[trigger]
            all_in(parts).records.contains_key(key) <==> exists|a: RecordView| #[trigger]
                belongs(parts, a, key),
        forall|key: u64| #[trigger]
            all_in(parts).records.contains_key(key) ==> gathers(
                all_in(parts).records[key],
                parts,
                key,
            ),
        forall|r: u64| #[trigger]
            all_in(parts).extensions.contains_key(r) <==> exists|a: RecordView| #[trigger]
                parts.contains(a) && a.base != 0 && a.reference == r,
        forall|a: RecordView| #[trigger]
            parts.contains(a) && a.base != 0 ==> all_in(parts).extensions[a.reference] == a.base,
    decreases parts.len(),
{
    let ix = all_in(parts);
    if parts.len() > 0 {
        let rest = parts.drop_last();
        let last = parts.last();
        let before = all_in(rest);
        fewer_are_consistent(parts);
        an_index_gathers(rest);
        one_more_part(parts);
        assert(parts.contains(last));
        assert(belongs(parts, last, last.key()));
        if before.records.contains_key(last.key()) {
            merging_gathers(before.records[last.key()], parts, last.key());
        } else {
            the_first_part_gathers(parts, last.key());
        }
        assert(ix.valid()) by {
            assert(!before.records.contains_key(last.key()) ==> !before.order.contains(last.key()));
            assert forall|key: u64| #[trigger] ix.order.contains(key)
                <==> ix.records.contains_key(key) by {
                if before.order.contains(key) {
                    let i = choose|i: int| 0 <= i < before.order.len() && before.order[i] == key;
                    assert(ix.order[i] == key);
                }
                if ix.order.len() > before.order.len() {
                    assert(ix.order[before.order.len() as int] == last.key());
                }
                if ix.order.contains(key) {
                    let i = choose|i: int| 0 <= i < ix.order.len() && ix.order[i] == key;
                    if i < before.order.len() {
                        assert(before.order[i] == key);
                    }
                }
            }
        }
        assert forall|key: u64| #[trigger] ix.records.contains_key(key) <==> exists|a: RecordView|
            #[trigger] belongs(parts, a, key) by {
            if before.records.contains_key(key) {
                let a = choose|a: RecordView| #[trigger] belongs(rest, a, key);
                assert(belongs(parts, a, key));
            }
            if exists|a: RecordView| #[trigger] belongs(parts, a, key) {
                let a = choose|a: RecordView| #[trigger] belongs(parts, a, key);
                if a != last {
                    assert(belongs(rest, a, key));
                }
            }
        }
        assert forall|key: u64| #[trigger] ix.records.contains_key(key) implies gathers(
            ix.records[key],
            parts,
            key,
        ) by {
            if key != last.key() {
                assert(before.records.contains_key(key));
                other_parts_add_nothing(before.records[key], parts, key);
            }
        }
        assert forall|r: u64| #[trigger] ix.extensions.contains_key(r) <==> exists|a: RecordView|
            #[trigger] parts.contains(a) && a.base != 0 && a.reference == r by {
            if before.extensions.contains_key(r) {
                let a = choose|a: RecordView| #[trigger]
                    rest.contains(a) && a.base != 0 && a.reference == r;
                assert(parts.contains(a));
            }
        }
        assert forall|a: RecordView| #[trigger] parts.contains(a) && a.base != 0 implies ix.extensions[
        a.reference] == a.base by {
            assert(agree(a, last));
        }
    } else {
        assert(forall|a: RecordView| !parts.contains(a));
    }
}

/// Whether two records differ at most in the order of their names and of the
/// parts they announce, and in what only their base can tell.
spec fn same_record(x: RecordView, y: RecordView) -> bool {
    &&& x.base_seen == y.base_seen
    &&& x.base_seen ==> x.reference == y.reference && x.directory == y.directory
    &&& x.reparse == y.reparse
    &&& x.bytes == y.bytes
    &&& x.modified == y.modified
    &&& x.accessed == y.accessed
    &&& x.incomplete == y.incomplete
    &&& x.links.no_duplicates()
    &&& y.links.no_duplicates()
    &&& forall|link: LinkView| #[trigger] x.links.contains(link) <==> y.links.contains(link)
    &&& forall|part: u64| #[trigger] x.expected.contains(part) <==> y.expected.contains(part)
}

proof fn there_is_one_latest(
    x: Option<Timestamp>,
    y: Option<Timestamp>,
    parts: Seq<RecordView>,
    key: u64,
    date: spec_fn(RecordView) -> Option<Timestamp>,
)
    requires
        is_latest(x, parts, key, date),
        is_latest(y, parts, key, date),
    ensures
        x == y,
{
    later_is_associative_and_commutative(x, y, None);
    later_is_associative_and_commutative(y, x, None);
    if x is Some {
        let a = choose|a: RecordView| #[trigger] belongs(parts, a, key) && date(a) == x;
        assert(later(y, date(a)) == y);
    }
    if y is Some {
        let a = choose|a: RecordView| #[trigger] belongs(parts, a, key) && date(a) == y;
        assert(later(x, date(a)) == x);
    }
}

/// What the parts of a record say together depends on nothing else.
proof fn gathering_is_unique(x: RecordView, y: RecordView, parts: Seq<RecordView>, key: u64)
    requires
        gathers(x, parts, key),
        gathers(y, parts, key),
    ensures
        same_record(x, y),
{
    there_is_one_latest(x.modified, y.modified, parts, key, changed());
    there_is_one_latest(x.accessed, y.accessed, parts, key, read());
    if x.base_seen {
        let a = choose|a: RecordView| #[trigger] belongs(parts, a, key) && a.base_seen;
        assert(x.directory == a.directory);
    }
    if x.bytes is Some {
        let a = choose|a: RecordView| #[trigger] belongs(parts, a, key) && a.bytes == x.bytes;
        assert(y.bytes == a.bytes);
    }
    if y.bytes is Some {
        let a = choose|a: RecordView| #[trigger] belongs(parts, a, key) && a.bytes == y.bytes;
        assert(x.bytes == a.bytes);
    }
}

/// Whether two lists hold the same records.
pub open spec fn same_parts(parts: Seq<RecordView>, others: Seq<RecordView>) -> bool {
    forall|a: RecordView| #[trigger] parts.contains(a) <==> others.contains(a)
}

proof fn the_order_of_parts_is_not_gathered(
    rec: RecordView,
    parts: Seq<RecordView>,
    others: Seq<RecordView>,
    key: u64,
)
    requires
        same_parts(parts, others),
        gathers(rec, others, key),
    ensures
        gathers(rec, parts, key),
{
    assert forall|a: RecordView|
        #![trigger belongs(parts, a, key)]
        #![trigger belongs(others, a, key)]
        belongs(parts, a, key) <==> belongs(others, a, key) by {
        assert(parts.contains(a) <==> others.contains(a));
    }
}

/// The first name of a record.
spec fn first_name(rec: RecordView) -> Option<LinkView> {
    if rec.links.len() > 0 {
        Some(rec.links[0])
    } else {
        None
    }
}

/// Whether the way up from some folder comes to `key` after `n` steps.
spec fn is_above(ix: IndexView, key: u64, n: nat) -> bool
    decreases n,
{
    if n == 0 {
        ix.records[key].base_seen && ix.records[key].directory
    } else {
        exists|below: u64| #[trigger]
            ix.records.contains_key(below) && is_above(ix, below, (n - 1) as nat)
                && ix.records[below].links.len() > 0 && ix.records[below].links[0].parent == key
    }
}

/// Whether the way up from some folder comes to `key`.
spec fn stands_above(ix: IndexView, key: u64) -> bool {
    exists|n: nat| is_above(ix, key, n)
}

/// Whether two indexes hold the same records, whatever their order.
spec fn alike(a: IndexView, b: IndexView) -> bool {
    &&& a.valid()
    &&& b.valid()
    &&& a.extensions == b.extensions
    &&& forall|key: u64|
        #![trigger a.records.contains_key(key)]
        #![trigger b.records.contains_key(key)]
        a.records.contains_key(key) <==> b.records.contains_key(key)
    &&& forall|key: u64|
        #![trigger a.records.contains_key(key)]
        #![trigger b.records.contains_key(key)]
        a.records.contains_key(key) ==> same_record(a.records[key], b.records[key])
    &&& forall|key: u64| #[trigger]
        a.records.contains_key(key) && stands_above(a, key) ==> first_name(a.records[key])
            == first_name(b.records[key])
    &&& a.root_from(0) == b.root_from(0)
}

proof fn alike_records(a: IndexView, b: IndexView, key: u64)
    requires
        alike(a, b),
    ensures
        a.order.contains(key) <==> b.order.contains(key),
        a.records.contains_key(key) ==> {
            &&& same_record(a.records[key], b.records[key])
            &&& (a.records[key].links.len() == 0 <==> b.records[key].links.len() == 0)
            &&& a.records[key].base_seen ==> a.lacks_parts(a.records[key]) == b.lacks_parts(
                b.records[key],
            )
        },
{
    let x = a.records[key];
    let y = b.records[key];
    assert(a.order.contains(key) <==> a.records.contains_key(key));
    assert(b.order.contains(key) <==> b.records.contains_key(key));
    if a.records.contains_key(key) {
        assert(same_record(x, y));
        if x.links.len() > 0 {
            assert(x.links.contains(x.links[0]));
        }
        if y.links.len() > 0 {
            assert(y.links.contains(y.links[0]));
            assert(x.links.contains(y.links[0]));
        }
        if x.base_seen {
            if a.lacks_parts(x) && !x.incomplete {
                let i = choose|i: int| 0 <= i < x.expected.len() && a.part_missing(x, i);
                assert(x.expected.contains(x.expected[i]));
                let j = choose|j: int| 0 <= j < y.expected.len() && y.expected[j] == x.expected[i];
                assert(b.part_missing(y, j));
            }
            if b.lacks_parts(y) && !y.incomplete {
                let i = choose|i: int| 0 <= i < y.expected.len() && b.part_missing(y, i);
                assert(y.expected.contains(y.expected[i]));
                assert(x.expected.contains(y.expected[i]));
                let j = choose|j: int| 0 <= j < x.expected.len() && x.expected[j] == y.expected[i];
                assert(a.part_missing(x, j));
            }
        }
    }
}

/// Whether a folder of the map has a record whose base came.
spec fn is_known(ix: IndexView, place: Place) -> bool {
    place.key matches Some(key) ==> ix.records.contains_key(key) && ix.records[key].base_seen
}

proof fn alike_folders(a: IndexView, b: IndexView, folder: Place, at: int, parent: u64)
    requires
        alike(a, b),
    ensures
        a.folders_in(parent) == b.folders_in(parent),
        a.below(folder, at, a.folders_in(parent)) == b.below(folder, at, b.folders_in(parent)),
        forall|j: int|
            0 <= j < a.folders_in(parent).len() ==> is_known(
                a,
                #[trigger] a.below(folder, at, a.folders_in(parent))[j],
            ),
{
    folders_in_are_the_folders(a, parent);
    folders_in_are_the_folders(b, parent);
    assert forall|key: u64| a.is_folder_in(key, parent) <==> b.is_folder_in(key, parent) by {
        alike_records(a, b, key);
        if a.records.contains_key(key) && a.records[key].base_seen && a.records[key].directory {
            assert(is_above(a, key, 0));
        }
        assert(a.records.contains_key(key) <==> b.records.contains_key(key));
    }
    assert forall|key: u64|
        a.folders_in(parent).contains(key) <==> b.folders_in(parent).contains(key) by {
        assert(a.is_folder_in(key, parent) <==> b.is_folder_in(key, parent));
    }
    increasing_lists_are_unique(a.folders_in(parent), b.folders_in(parent));
    let keys = a.folders_in(parent);
    assert forall|j: int| 0 <= j < keys.len() implies #[trigger] a.below(folder, at, keys)[j]
        == b.below(folder, at, keys)[j] && is_known(a, a.below(folder, at, keys)[j]) by {
        assert(keys.contains(keys[j]));
        assert(is_above(a, keys[j], 0));
        assert(first_name(a.records[keys[j]]) == first_name(b.records[keys[j]]));
        alike_records(a, b, keys[j]);
    }
    assert(a.below(folder, at, keys) =~= b.below(folder, at, keys));
}

proof fn lists_without_duplicates<A>(s: Seq<A>, t: Seq<A>)
    requires
        s.no_duplicates(),
        t.no_duplicates(),
        forall|x: A| #[trigger] s.contains(x) <==> t.contains(x),
    ensures
        s.to_multiset() == t.to_multiset(),
        s.len() == t.len(),
{
    s.lemma_multiset_has_no_duplicates();
    t.lemma_multiset_has_no_duplicates();
    s.to_multiset_ensures();
    t.to_multiset_ensures();
    assert forall|x: A| s.to_multiset().count(x) == t.to_multiset().count(x) by {
        assert(s.contains(x) <==> s.to_multiset().count(x) > 0);
        assert(t.contains(x) <==> t.to_multiset().count(x) > 0);
        assert(s.to_multiset().contains(x) ==> s.to_multiset().count(x) == 1);
        assert(t.to_multiset().contains(x) ==> t.to_multiset().count(x) == 1);
    }
    assert(s.to_multiset() =~= t.to_multiset());
}

proof fn alike_orders(a: IndexView, b: IndexView)
    requires
        alike(a, b),
    ensures
        a.order.to_multiset() == b.order.to_multiset(),
        a.order.len() == b.order.len(),
{
    assert forall|key: u64| #[trigger] a.order.contains(key) <==> b.order.contains(key) by {
        alike_records(a, b, key);
    }
    lists_without_duplicates(a.order, b.order);
}

proof fn alike_places(a: IndexView, b: IndexView, places: Seq<Place>, next: int)
    requires
        alike(a, b),
        forall|i: int| 0 <= i < places.len() ==> is_known(a, #[trigger] places[i]),
    ensures
        a.placed(places, next) == b.placed(places, next),
        forall|i: int|
            0 <= i < a.placed(places, next).len() ==> is_known(
                a,
                #[trigger] a.placed(places, next)[i],
            ),
    decreases a.order.len() - next,
{
    alike_orders(a, b);
    if next < places.len() && next < a.order.len() {
        if let Some(key) = places[next].key {
            alike_folders(a, b, places[next], next, key);
            let more = places + a.below(places[next], next, a.folders_in(key));
            assert forall|i: int| 0 <= i < more.len() implies is_known(a, #[trigger] more[i]) by {
                if i >= places.len() {
                    let j = i - places.len();
                    assert(more[i] == a.below(places[next], next, a.folders_in(key))[j]);
                }
            }
            alike_places(a, b, more, next + 1);
        }
    }
}

proof fn alike_ways_up(a: IndexView, b: IndexView, places: Seq<Place>, seen: Set<u64>, ancestor: u64)
    requires
        alike(a, b),
        stands_above(a, ancestor),
    ensures
        a.is_lost(places, seen, ancestor) == b.is_lost(places, seen, ancestor),
    decreases unseen(a.order, seen),
{
    alike_records(a, b, ancestor);
    assert(a.order.contains(ancestor) <==> a.records.contains_key(ancestor));
    let x = a.records[ancestor];
    if a.order.contains(ancestor) && !seen.contains(ancestor) && x.links.len() > 0 {
        assert(first_name(x) == first_name(b.records[ancestor]));
        let n = choose|n: nat| is_above(a, ancestor, n);
        assert(first_name(x) == Some(x.links[0]));
        assert(is_above(a, x.links[0].parent, n + 1));
        unseen_shrinks(a.order, seen, ancestor);
        alike_ways_up(a, b, places, seen.insert(ancestor), x.links[0].parent);
    }
}

proof fn alike_strays(a: IndexView, b: IndexView, places: Seq<Place>, key: u64)
    requires
        alike(a, b),
        a.records.contains_key(key),
    ensures
        a.is_stray(places, key) == b.is_stray(places, key),
{
    alike_records(a, b, key);
    if a.records[key].base_seen && a.records[key].directory {
        assert(is_above(a, key, 0));
        alike_ways_up(a, b, places, Set::empty(), key);
    }
}

/// How many items of a list are marked.
spec fn how_many<A>(list: Seq<A>, marked: spec_fn(A) -> bool) -> nat
    decreases list.len(),
{
    if list.len() == 0 {
        0
    } else {
        how_many(list.drop_last(), marked) + if marked(list.last()) {
            1nat
        } else {
            0nat
        }
    }
}

/// What the items of a list add up to.
spec fn total<A>(list: Seq<A>, each: spec_fn(A) -> Totals) -> Totals
    decreases list.len(),
{
    if list.len() == 0 {
        Totals::nothing()
    } else {
        total(list.drop_last(), each).plus(each(list.last()))
    }
}

proof fn counting_is_folding<A>(list: Seq<A>, marked: spec_fn(A) -> bool)
    ensures
        how_many(list, marked) == list.fold_left(
            0nat,
            |n: nat, x: A|
                n + if marked(x) {
                    1nat
                } else {
                    0nat
                },
        ),
    decreases list.len(),
{
    if list.len() > 0 {
        counting_is_folding(list.drop_last(), marked);
    }
}

proof fn adding_is_folding<A>(list: Seq<A>, each: spec_fn(A) -> Totals)
    ensures
        total(list, each) == list.fold_left(Totals::nothing(), |t: Totals, x: A| t.plus(each(x))),
    decreases list.len(),
{
    if list.len() > 0 {
        adding_is_folding(list.drop_last(), each);
    }
}

/// Counting and adding do not depend on the order of a list.
proof fn sums_in_any_order<A>(
    s: Seq<A>,
    t: Seq<A>,
    marked: spec_fn(A) -> bool,
    each: spec_fn(A) -> Totals,
)
    requires
        s.to_multiset() == t.to_multiset(),
    ensures
        how_many(s, marked) == how_many(t, marked),
        total(s, each) == total(t, each),
{
    let f = |n: nat, x: A|
        n + if marked(x) {
            1nat
        } else {
            0nat
        };
    let g = |t: Totals, x: A| t.plus(each(x));
    counting_is_folding(s, marked);
    counting_is_folding(t, marked);
    adding_is_folding(s, each);
    adding_is_folding(t, each);
    assert(vstd::seq_lib::commutative_foldl(f));
    assert forall|x: A, y: A, v: Totals| #[trigger] g(g(v, x), y) == g(g(v, y), x) by {
        totals_in_any_order(v, each(x), each(y));
    }
    vstd::seq_lib::lemma_fold_left_permutation(s, t, f, 0nat);
    vstd::seq_lib::lemma_fold_left_permutation(s, t, g, Totals::nothing());
}

proof fn strays_are_counted(ix: IndexView, places: Seq<Place>, n: int, marked: spec_fn(u64) -> bool)
    requires
        0 <= n <= ix.order.len(),
        forall|i: int|
            0 <= i < n ==> marked(#[trigger] ix.order[i]) == ix.is_stray(places, ix.order[i]),
    ensures
        ix.strays(places, n) == how_many(ix.order.take(n), marked),
    decreases n,
{
    if n > 0 {
        strays_are_counted(ix, places, n - 1, marked);
        assert(ix.order.take(n).drop_last() =~= ix.order.take(n - 1));
    }
}

proof fn unverified_are_counted(ix: IndexView, n: int, marked: spec_fn(u64) -> bool)
    requires
        0 <= n <= ix.order.len(),
        forall|i: int|
            0 <= i < n ==> marked(#[trigger] ix.order[i]) == (ix.records[ix.order[i]].base_seen
                && ix.lacks_parts(ix.records[ix.order[i]])),
    ensures
        ix.unverified(n) == how_many(ix.order.take(n), marked),
    decreases n,
{
    if n > 0 {
        unverified_are_counted(ix, n - 1, marked);
        assert(ix.order.take(n).drop_last() =~= ix.order.take(n - 1));
    }
}

/// What an entry adds to the volume.
spec fn counted_entry(ix: IndexView, places: Seq<Place>, entry: Entry) -> Totals {
    if ix.is_counted(places, entry) {
        ix.file_totals(ix.records[entry.key])
    } else {
        Totals::nothing()
    }
}

proof fn entries_are_counted(a: IndexView, b: IndexView, places: Seq<Place>, list: Seq<Entry>, p: int)
    requires
        alike(a, b),
        forall|i: int|
            0 <= i < list.len() ==> a.records.contains_key((#[trigger] list[i]).key)
                && a.records[list[i].key].base_seen,
    ensures
        b.direct_totals(places, list, p) == total(list, |e: Entry| a.entry_totals(places, e, p)),
        b.counted(places, list) == total(list, |e: Entry| counted_entry(a, places, e)),
        b.skipped(places, list) == how_many(list, |e: Entry| a.is_skipped(places, e)),
        b.orphans(places, list) == how_many(list, |e: Entry| a.is_orphan(places, e)),
    decreases list.len(),
{
    if list.len() > 0 {
        let rest = list.drop_last();
        let e = list.last();
        assert forall|i: int| 0 <= i < rest.len() implies a.records.contains_key(
            (#[trigger] rest[i]).key,
        ) && a.records[rest[i].key].base_seen by {
            assert(rest[i] == list[i]);
        }
        entries_are_counted(a, b, places, rest, p);
        assert(e == list[list.len() - 1]);
        alike_records(a, b, e.key);
        assert(a.file_totals(a.records[e.key]) == b.file_totals(b.records[e.key]));
        assert(a.records.contains_key(e.link.parent) <==> b.records.contains_key(e.link.parent));
        totals_in_any_order(b.counted(places, rest), Totals::nothing(), Totals::nothing());
    }
}

/// Whether an entry is a name that counts.
spec fn is_entry(ix: IndexView, n: int, entry: Entry) -> bool {
    ix.order.take(n).contains(entry.key) && ix.counts(entry.key)
        && ix.records[entry.key].links.contains(entry.link)
}

proof fn entries_are_the_names(ix: IndexView, n: int)
    requires
        ix.valid(),
        0 <= n <= ix.order.len(),
        forall|key: u64| #[trigger]
            ix.records.contains_key(key) ==> ix.records[key].links.no_duplicates(),
    ensures
        ix.entries(n).no_duplicates(),
        forall|e: Entry| #[trigger] ix.entries(n).contains(e) <==> is_entry(ix, n, e),
    decreases n,
{
    if n == 0 {
        assert forall|e: Entry| #[trigger] ix.entries(n).contains(e) <==> is_entry(ix, n, e) by {
            assert(!ix.order.take(0).contains(e.key));
        }
    } else {
        entries_are_the_names(ix, n - 1);
        let key = ix.order[n - 1];
        let earlier = ix.entries(n - 1);
        let all = ix.entries(n);
        let links = ix.records[key].links;
        let (shorter, longer) = (ix.order.take(n - 1), ix.order.take(n));
        let names = ix.names_of(key, links.len() as int);
        assert(ix.order.contains(key));
        assert(ix.records.contains_key(key));
        assert(links.no_duplicates());
        assert forall|k: u64| #[trigger] longer.contains(k) <==> shorter.contains(k) || k == key by {
            if longer.contains(k) {
                let i = choose|i: int| 0 <= i < longer.len() && longer[i] == k;
                if i < n - 1 {
                    assert(shorter[i] == k);
                }
            }
            if shorter.contains(k) {
                let i = choose|i: int| 0 <= i < shorter.len() && shorter[i] == k;
                assert(longer[i] == k);
            }
            assert(longer[n - 1] == key);
        }
        assert(!shorter.contains(key)) by {
            if shorter.contains(key) {
                let i = choose|i: int| 0 <= i < shorter.len() && shorter[i] == key;
                assert(ix.order[i] == ix.order[n - 1]);
            }
        }
        assert forall|e: Entry| #[trigger] names.contains(e) <==> e.key == key && links.contains(
            e.link,
        ) by {
            if names.contains(e) {
                let i = choose|i: int| 0 <= i < names.len() && names[i] == e;
                assert(links[i] == e.link);
            }
            if e.key == key && links.contains(e.link) {
                let i = choose|i: int| 0 <= i < links.len() && links[i] == e.link;
                assert(names[i] == e);
            }
        }
        if ix.counts(key) {
            assert(names.no_duplicates());
            assert forall|i: int, j: int| 0 <= i < earlier.len() && 0 <= j < names.len() implies
                earlier[i] != names[j] by {
                assert(earlier.contains(earlier[i]));
                assert(is_entry(ix, n - 1, earlier[i]));
            }
            vstd::seq_lib::lemma_no_dup_in_concat(earlier, names);
        }
        assert forall|e: Entry| #[trigger] all.contains(e) <==> is_entry(ix, n, e) by {
            assert(earlier.contains(e) <==> is_entry(ix, n - 1, e));
            if ix.counts(key) {
                if all.contains(e) {
                    let i = choose|i: int| 0 <= i < all.len() && all[i] == e;
                    if i < earlier.len() {
                        assert(earlier[i] == e);
                    } else {
                        assert(names[i - earlier.len()] == e);
                    }
                }
                if earlier.contains(e) {
                    let i = choose|i: int| 0 <= i < earlier.len() && earlier[i] == e;
                    assert(all[i] == e);
                }
                if names.contains(e) {
                    let i = choose|i: int| 0 <= i < names.len() && names[i] == e;
                    assert(all[earlier.len() + i] == e);
                }
            }
        }
    }
}

proof fn alike_entries(a: IndexView, b: IndexView, places: Seq<Place>, p: int)
    requires
        alike(a, b),
    ensures
        ({
            let x = a.entries(a.order.len() as int);
            let y = b.entries(b.order.len() as int);
            &&& a.direct_totals(places, x, p) == b.direct_totals(places, y, p)
            &&& a.counted(places, x) == b.counted(places, y)
            &&& a.skipped(places, x) == b.skipped(places, y)
            &&& a.orphans(places, x) == b.orphans(places, y)
        }),
{
    let n = a.order.len() as int;
    let x = a.entries(n);
    let y = b.entries(n);
    alike_orders(a, b);
    assert forall|key: u64| #[trigger] b.records.contains_key(key) implies b.records[key].links.no_duplicates() by {
        alike_records(a, b, key);
    }
    entries_are_the_names(a, n);
    entries_are_the_names(b, n);
    assert(a.order.take(n) =~= a.order);
    assert(b.order.take(n) =~= b.order);
    assert forall|e: Entry| #[trigger] x.contains(e) <==> y.contains(e) by {
        alike_records(a, b, e.key);
        assert(is_entry(a, n, e) <==> is_entry(b, n, e)) by {
            if a.order.contains(e.key) {
                assert(a.records.contains_key(e.key));
                assert(a.records[e.key].links.contains(e.link) <==> b.records[e.key].links.contains(
                    e.link,
                ));
            }
        }
        assert(y.contains(e) <==> is_entry(b, n, e));
    }
    lists_without_duplicates(x, y);
    assert forall|i: int| 0 <= i < x.len() implies a.records.contains_key((#[trigger] x[i]).key)
        && a.records[x[i].key].base_seen by {
        assert(x.contains(x[i]));
        assert(is_entry(a, n, x[i]));
    }
    assert forall|i: int| 0 <= i < y.len() implies a.records.contains_key((#[trigger] y[i]).key)
        && a.records[y[i].key].base_seen by {
        assert(y.contains(y[i]));
        assert(x.contains(y[i]));
        assert(is_entry(a, n, y[i]));
    }
    alike_to_itself(a, b);
    entries_are_counted(a, a, places, x, p);
    entries_are_counted(a, b, places, y, p);
    sums_in_any_order(
        x,
        y,
        |e: Entry| a.is_skipped(places, e),
        |e: Entry| a.entry_totals(places, e, p),
    );
    sums_in_any_order(
        x,
        y,
        |e: Entry| a.is_orphan(places, e),
        |e: Entry| counted_entry(a, places, e),
    );
}

proof fn alike_to_itself(a: IndexView, b: IndexView)
    requires
        alike(a, b),
    ensures
        alike(a, a),
{
    assert forall|key: u64| #[trigger] a.records.contains_key(key) implies same_record(
        a.records[key],
        a.records[key],
    ) by {
        alike_records(a, b, key);
    }
}

proof fn alike_counts(a: IndexView, b: IndexView, places: Seq<Place>)
    requires
        alike(a, b),
    ensures
        a.errors(places) == b.errors(places),
        a.unverified(a.order.len() as int) == b.unverified(b.order.len() as int),
{
    let n = a.order.len() as int;
    let stray = |key: u64| a.is_stray(places, key);
    let lacking = |key: u64| a.records[key].base_seen && a.lacks_parts(a.records[key]);
    alike_orders(a, b);
    assert forall|i: int| 0 <= i < n implies stray(#[trigger] b.order[i]) == b.is_stray(
        places,
        b.order[i],
    ) by {
        assert(b.order.contains(b.order[i]));
        assert(a.records.contains_key(b.order[i]));
        alike_strays(a, b, places, b.order[i]);
    }
    assert forall|i: int| 0 <= i < n implies lacking(#[trigger] b.order[i]) == (
    b.records[b.order[i]].base_seen && b.lacks_parts(b.records[b.order[i]])) by {
        assert(b.order.contains(b.order[i]));
        assert(a.records.contains_key(b.order[i]));
        alike_records(a, b, b.order[i]);
    }
    strays_are_counted(a, places, n, stray);
    strays_are_counted(b, places, n, stray);
    unverified_are_counted(a, n, lacking);
    unverified_are_counted(b, n, lacking);
    assert(a.order.take(n) =~= a.order);
    assert(b.order.take(n) =~= b.order);
    let nothing = |key: u64| Totals::nothing();
    sums_in_any_order(a.order, b.order, stray, nothing);
    sums_in_any_order(a.order, b.order, lacking, nothing);
    alike_entries(a, b, places, 0);
}

proof fn roots_are_known(ix: IndexView, from: int)
    requires
        ix.valid(),
        0 <= from,
    ensures
        match ix.root_from(from) {
            Some(key) => ix.records.contains_key(key) && slot(key) == ROOT_SLOT
                && ix.records[key].base_seen,
            None => forall|i: int|
                from <= i < ix.order.len() ==> !(slot(#[trigger] ix.order[i]) == ROOT_SLOT
                    && ix.records[ix.order[i]].base_seen),
        },
    decreases ix.order.len() - from,
{
    if from < ix.order.len() {
        roots_are_known(ix, from + 1);
        assert(ix.order.contains(ix.order[from]));
    }
}

/// Indexes that hold the same records give the same map.
proof fn alike_reports(a: IndexView, b: IndexView, root: PathView, p: ProgressView)
    requires
        alike(a, b),
    ensures
        a.counted_nodes(root) == b.counted_nodes(root),
        a.final_progress(root, p) == b.final_progress(root, p),
        a.issues(root) == b.issues(root),
{
    let start = seq![a.root_place(root)];
    roots_are_known(a, 0);
    assert(start =~= seq![b.root_place(root)]);
    alike_places(a, b, start, 0);
    let places = a.places(root);
    assert(places == b.places(root));
    alike_counts(a, b, places);
    alike_entries(a, b, places, 0);
    assert forall|i: int| 0 <= i < places.len() implies #[trigger] a.counted_node(places, i)
        == b.counted_node(places, i) by {
        alike_entries(a, b, places, i);
        assert(is_known(a, places[i]));
        if let Some(key) = places[i].key {
            alike_records(a, b, key);
        }
        assert(a.folder_node(places, i) == b.folder_node(places, i));
    }
    assert(a.counted_nodes(root) =~= b.counted_nodes(root)) by {
        assert forall|i: int| 0 <= i < places.len() implies #[trigger] a.counted_nodes(root)[i]
            == b.counted_nodes(root)[i] by {
            assert(a.counted_node(places, i) == b.counted_node(places, i));
        }
    }
}

/// Whether the way up from some folder, by first names, comes to `key` after `n` steps.
pub open spec fn leads_up(parts: Seq<RecordView>, key: u64, n: nat) -> bool
    decreases n,
{
    if n == 0 {
        exists|a: RecordView| #[trigger] belongs(parts, a, key) && a.base_seen && a.directory
    } else {
        exists|a: RecordView, link: LinkView| #[trigger]
            parts.contains(a) && #[trigger] starts_with(a, link) && link.parent == key && leads_up(
                parts,
                a.key(),
                (n - 1) as nat,
            )
    }
}

/// Whether the ways up are clear: where one comes to a record whose names stand
/// in several parts, these start with the same name.
pub open spec fn ways_up_are_clear(parts: Seq<RecordView>) -> bool {
    forall|key: u64, n: nat, a: RecordView, b: RecordView, l: LinkView, m: LinkView|
        #![trigger leads_up(parts, key, n), belongs(parts, a, key), belongs(parts, b, key), starts_with(a, l), starts_with(b, m)]
        leads_up(parts, key, n) && belongs(parts, a, key) && belongs(parts, b, key) && starts_with(
            a,
            l,
        ) && starts_with(b, m) ==> l == m
}

/// Whether at most one record is that of the volume's root.
pub open spec fn one_root(parts: Seq<RecordView>) -> bool {
    forall|a: RecordView, b: RecordView|
        #![trigger parts.contains(a), parts.contains(b)]
        parts.contains(a) && parts.contains(b) && a.base_seen && b.base_seen && slot(a.key())
            == ROOT_SLOT && slot(b.key()) == ROOT_SLOT ==> a.key() == b.key()
}

/// Lists of the same records give indexes that hold the same records.
proof fn same_parts_are_alike(parts: Seq<RecordView>, others: Seq<RecordView>)
    requires
        same_parts(parts, others),
        consistent(parts),
        ways_up_are_clear(parts),
        one_root(parts),
    ensures
        alike(all_in(parts), all_in(others)),
{
    let a = all_in(parts);
    let b = all_in(others);
    assert forall|x: RecordView| #[trigger] others.contains(x) implies x.base_seen == (x.base == 0)
        && x.links.no_duplicates() by {
        assert(parts.contains(x));
    }
    assert forall|x: RecordView, y: RecordView| #[trigger]
        others.contains(x) && #[trigger] others.contains(y) implies agree(x, y) by {
        assert(parts.contains(x) && parts.contains(y));
    }
    an_index_gathers(parts);
    an_index_gathers(others);
    assert forall|key: u64| a.records.contains_key(key) <==> b.records.contains_key(key) by {
        if a.records.contains_key(key) {
            let x = choose|x: RecordView| #[trigger] belongs(parts, x, key);
            assert(belongs(others, x, key));
        }
        if b.records.contains_key(key) {
            let x = choose|x: RecordView| #[trigger] belongs(others, x, key);
            assert(parts.contains(x));
            assert(belongs(parts, x, key));
        }
    }
    assert forall|key: u64| a.records.contains_key(key) implies same_record(
        a.records[key],
        b.records[key],
    ) by {
        assert(b.records.contains_key(key));
        the_order_of_parts_is_not_gathered(b.records[key], parts, others, key);
        gathering_is_unique(a.records[key], b.records[key], parts, key);
    }
    assert(a.extensions =~= b.extensions) by {
        assert forall|r: u64| a.extensions.contains_key(r) <==> b.extensions.contains_key(r) by {
            if a.extensions.contains_key(r) {
                let x = choose|x: RecordView| #[trigger]
                    parts.contains(x) && x.base != 0 && x.reference == r;
                assert(others.contains(x));
            }
            if b.extensions.contains_key(r) {
                let x = choose|x: RecordView| #[trigger]
                    others.contains(x) && x.base != 0 && x.reference == r;
                assert(parts.contains(x));
            }
        }
        assert forall|r: u64| a.extensions.contains_key(r) implies a.extensions[r]
            == b.extensions[r] by {
            let x = choose|x: RecordView| #[trigger]
                parts.contains(x) && x.base != 0 && x.reference == r;
            assert(others.contains(x));
        }
    }
    assert forall|key: u64| #[trigger] a.records.contains_key(key) && stands_above(
        a,
        key,
    ) implies first_name(a.records[key]) == first_name(b.records[key]) by {
        let n = choose|n: nat| is_above(a, key, n);
        ways_are_seen(parts, key, n);
        let (x, y) = (a.records[key], b.records[key]);
        assert(gathers(x, parts, key));
        the_order_of_parts_is_not_gathered(y, parts, others, key);
        gathering_is_unique(x, y, parts, key);
        if x.links.len() > 0 {
            assert(x.links.contains(x.links[0]));
            assert(y.links.contains(x.links[0]));
        }
        if y.links.len() > 0 {
            assert(y.links.contains(y.links[0]));
            assert(x.links.contains(y.links[0]));
            let s = choose|s: RecordView| #[trigger]
                belongs(parts, s, key) && starts_with(s, x.links[0]);
            let t = choose|t: RecordView| #[trigger]
                belongs(parts, t, key) && starts_with(t, y.links[0]);
            assert(leads_up(parts, key, n) && belongs(parts, s, key) && belongs(parts, t, key)
                && starts_with(s, x.links[0]) && starts_with(t, y.links[0]));
        }
    }
    same_roots(parts, others);
}

proof fn ways_are_seen(parts: Seq<RecordView>, key: u64, n: nat)
    requires
        consistent(parts),
        n == 0 ==> all_in(parts).records.contains_key(key),
        is_above(all_in(parts), key, n),
    ensures
        leads_up(parts, key, n),
    decreases n,
{
    let ix = all_in(parts);
    an_index_gathers(parts);
    if n == 0 {
        assert(gathers(ix.records[key], parts, key));
        let x = choose|x: RecordView| #[trigger] belongs(parts, x, key) && x.base_seen;
        assert(x.directory);
    } else {
        let below = choose|below: u64| #[trigger]
            ix.records.contains_key(below) && is_above(ix, below, (n - 1) as nat)
                && ix.records[below].links.len() > 0 && ix.records[below].links[0].parent == key;
        ways_are_seen(parts, below, (n - 1) as nat);
        assert(gathers(ix.records[below], parts, below));
        let link = ix.records[below].links[0];
        let x = choose|x: RecordView| #[trigger] belongs(parts, x, below) && starts_with(x, link);
        assert(parts.contains(x) && starts_with(x, link));
    }
}

proof fn a_root_is_a_part(parts: Seq<RecordView>, key: u64) -> (a: RecordView)
    requires
        consistent(parts),
        all_in(parts).records.contains_key(key),
        all_in(parts).records[key].base_seen,
    ensures
        belongs(parts, a, key),
        a.base_seen,
{
    an_index_gathers(parts);
    assert(gathers(all_in(parts).records[key], parts, key));
    choose|a: RecordView| #[trigger] belongs(parts, a, key) && a.base_seen
}

proof fn same_roots(parts: Seq<RecordView>, others: Seq<RecordView>)
    requires
        same_parts(parts, others),
        consistent(parts),
        consistent(others),
        one_root(parts),
        forall|key: u64|
            #![trigger all_in(parts).records.contains_key(key)]
            #![trigger all_in(others).records.contains_key(key)]
            all_in(parts).records.contains_key(key) <==> all_in(others).records.contains_key(key),
        forall|key: u64| #[trigger]
            all_in(parts).records.contains_key(key) ==> same_record(
                all_in(parts).records[key],
                all_in(others).records[key],
            ),
    ensures
        all_in(parts).root_from(0) == all_in(others).root_from(0),
{
    let a = all_in(parts);
    let b = all_in(others);
    an_index_gathers(parts);
    an_index_gathers(others);
    roots_are_known(a, 0);
    roots_are_known(b, 0);
    if let Some(key) = a.root_from(0) {
        assert(b.records.contains_key(key));
        assert(same_record(a.records[key], b.records[key]));
        assert(b.order.contains(key));
        let i = choose|i: int| 0 <= i < b.order.len() && b.order[i] == key;
        assert(b.root_from(0) is Some);
    }
    if let Some(key) = b.root_from(0) {
        assert(a.records.contains_key(key));
        assert(same_record(a.records[key], b.records[key]));
        assert(a.order.contains(key));
        let i = choose|i: int| 0 <= i < a.order.len() && a.order[i] == key;
        assert(a.root_from(0) is Some);
        let other = a.root_from(0)->0;
        let x = a_root_is_a_part(parts, key);
        let y = a_root_is_a_part(parts, other);
        assert(parts.contains(x) && parts.contains(y));
    }
}

/// Parts that agree are never refused, in whatever order they come.
pub proof fn agreeing_parts_are_taken_in(parts: Seq<RecordView>)
    requires
        parts.len() > 0,
        consistent(parts),
    ensures
        ({
            let before = all_in(parts.drop_last());
            let key = parts.last().key();
            !(before.records.contains_key(key) && before.records[key].conflicts_with(parts.last()))
        }),
{
    fewer_are_consistent(parts);
    an_index_gathers(parts.drop_last());
    let key = parts.last().key();
    if all_in(parts.drop_last()).records.contains_key(key) {
        merging_gathers(all_in(parts.drop_last()).records[key], parts, key);
    }
}

/// Records and the parts that extend them may come in any order, and any of
/// them more than once: the map, its progress and its problems are the same.
/// What is asked of the records is that the parts of one agree on its length
/// and kind, that the ways up from folders do not depend on which part came
/// first, and that one record at most is the root's.
pub proof fn records_may_come_in_any_order(
    parts: Seq<RecordView>,
    others: Seq<RecordView>,
    root: PathView,
    p: ProgressView,
    partial: bool,
    shown: Seq<NodeView>,
    other_shown: Seq<NodeView>,
)
    requires
        same_parts(parts, others),
        consistent(parts),
        ways_up_are_clear(parts),
        one_root(parts),
        added_up(all_in(parts).counted_nodes(root), shown, partial),
        added_up(all_in(others).counted_nodes(root), other_shown, partial),
        shaped(shown),
        shaped(other_shown),
    ensures
        shown == other_shown,
        all_in(parts).final_progress(root, p) == all_in(others).final_progress(root, p),
        all_in(parts).issues(root) == all_in(others).issues(root),
{
    let a = all_in(parts);
    let b = all_in(others);
    same_parts_are_alike(parts, others);
    alike_reports(a, b, root, p);
    let raw = a.counted_nodes(root);
    assert(parents_first(raw)) by {
        assert forall|i: int| 0 <= i < raw.len() implies ((#[trigger] raw[i]).parent matches Some(
            q,
        ) ==> q < i) by {
            assert(shown[i].parent == raw[i].parent);
        }
    }
    adding_up_has_one_result(raw, shown, other_shown, partial);
}

} // verus!
