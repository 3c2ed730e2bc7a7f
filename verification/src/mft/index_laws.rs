//! How the parts of records are put together, and what cannot be placed in the map.
use vstd::prelude::*;
use crate::below::{not_before, shows_sum};
use crate::mft::index::IndexView;
use crate::mft::laws::merged_links;
use crate::mft::layout::{has_place, Place};
use crate::mft::place_laws::{is_volume_root, slot_number, slots_are_the_lower_bits, folders_stand_where_their_first_name_says};
use crate::mft::record::{LinkView, RecordView};
use crate::mft::report::{unseen, unseen_shrinks, Entry};
use crate::mft::report_laws::{is_users, misses_a_part, parts_are_missed, record_at};
use crate::path::PathView;
use crate::scan::ProgressView;

verus! {

/// The reference under which a record is kept: that of the record it extends, or its own.
pub open spec fn kept_under(rec: RecordView) -> u64 {
    if rec.base == 0 {
        rec.reference
    } else {
        rec.base
    }
}

/// A record that arrives joins those with the same base: dates take the latest, marks
/// spread, names and announced parts come together, a size that is known stays known,
/// and the base record tells the reference and whether it is a folder. One that
/// contradicts a known size changes no record. Other records stay as they are, and an
/// extension is remembered with its base.
pub proof fn parts_are_put_together(ix: IndexView, rec: RecordView)
    requires
        ix.valid(),
    ensures
        ({
            let after = ix.inserted(rec);
            let key = kept_under(rec);
            let old = ix.records[key];
            let new = after.records[key];
            &&& after.valid()
            &&& after.records.contains_key(key)
            &&& forall|k: u64| #[trigger]
                after.records.contains_key(k) <==> ix.records.contains_key(k) || k == key
            &&& forall|k: u64| k != key ==> #[trigger] after.records[k] == ix.records[k]
            &&& rec.base == 0 ==> after.extensions == ix.extensions
            &&& rec.base != 0 ==> after.extensions == ix.extensions.insert(rec.reference, rec.base)
            &&& ix.records.contains_key(key) ==> after.order == ix.order
            &&& !ix.records.contains_key(key) ==> after.order == ix.order.push(key) && new == rec
            &&& ix.records.contains_key(key) && old.bytes is Some && rec.bytes is Some && old.bytes
                != rec.bytes ==> new == old
            &&& ix.records.contains_key(key) && !(old.bytes is Some && rec.bytes is Some && old.bytes
                != rec.bytes) ==> {
                &&& new.base_seen == (old.base_seen || rec.base_seen)
                &&& rec.base_seen ==> new.reference == rec.reference && new.base == 0
                    && new.directory == rec.directory
                &&& !rec.base_seen ==> new.reference == old.reference && new.base == old.base
                    && new.directory == old.directory
                &&& new.reparse == (old.reparse || rec.reparse)
                &&& new.incomplete == (old.incomplete || rec.incomplete)
                &&& not_before(new.modified, old.modified)
                &&& not_before(new.modified, rec.modified)
                &&& new.modified == old.modified || new.modified == rec.modified
                &&& not_before(new.accessed, old.accessed)
                &&& not_before(new.accessed, rec.accessed)
                &&& new.accessed == old.accessed || new.accessed == rec.accessed
                &&& old.bytes is Some ==> new.bytes == old.bytes
                &&& rec.bytes is Some ==> new.bytes == rec.bytes
                &&& old.bytes is None && rec.bytes is None ==> new.bytes is None
                &&& new.expected == old.expected + rec.expected
                &&& forall|link: LinkView| #[trigger]
                    new.links.contains(link) <==> old.links.contains(link) || rec.links.contains(
                        link,
                    )
                &&& old.links.no_duplicates() ==> new.links.no_duplicates()
            }
        }),
{
    let after = ix.inserted(rec);
    let key = kept_under(rec);
    assert(key == rec.key());
    merged_links(ix.records[key].links, rec.links);
    if !ix.records.contains_key(key) {
        assert(!ix.order.contains(key));
        assert forall|k: u64| #[trigger] after.order.contains(k) <==> after.records.contains_key(
            k,
        ) by {
            if ix.order.contains(k) {
                let i = choose|i: int| 0 <= i < ix.order.len() && ix.order[i] == k;
                assert(after.order[i] == k);
            }
            assert(after.order[ix.order.len() as int] == key);
            assert(ix.order.contains(k) <==> ix.records.contains_key(k));
            if after.order.contains(k) {
                let i = choose|i: int| 0 <= i < after.order.len() && after.order[i] == k;
                if i < ix.order.len() {
                    assert(ix.order[i] == k);
                }
            }
        }
    }
}

/// Whether a reference is that of one of the file system's own records, the root aside.
pub open spec fn is_reserved(key: u64) -> bool {
    slot_number(key) < 16 && slot_number(key) != 5
}

/// Whether the way up from a record goes on: it is neither placed nor reserved, and
/// known as something plain with a name.
pub open spec fn goes_on(ix: IndexView, places: Seq<Place>, key: u64) -> bool {
    &&& !is_reserved(key)
    &&& !has_place(places, key)
    &&& ix.records.contains_key(key)
    &&& !ix.records[key].reparse
    &&& ix.records[key].links.len() > 0
}

/// Whether references lead up from the first to the last, each to the folder of its
/// first name, and none but the last stands twice.
pub open spec fn is_way(ix: IndexView, places: Seq<Place>, way: Seq<u64>) -> bool {
    &&& way.len() > 0
    &&& way.drop_last().no_duplicates()
    &&& forall|k: int|
        0 <= k < way.len() - 1 ==> goes_on(ix, places, #[trigger] way[k])
            && ix.records[way[k]].links[0].parent == way[k + 1]
}

/// Whether a way up ends at something that is known: a placed folder, the file
/// system's own, or a reparse point.
pub open spec fn arrives(ix: IndexView, places: Seq<Place>, way: Seq<u64>) -> bool {
    let last = way.last();
    is_reserved(last) || has_place(places, last) || (ix.records.contains_key(last)
        && ix.records[last].reparse)
}

/// Whether a way up ends nowhere: at a record that never came, at one without a name,
/// or at one that it has passed before.
pub open spec fn ends_nowhere(ix: IndexView, places: Seq<Place>, way: Seq<u64>) -> bool {
    let last = way.last();
    &&& !is_reserved(last)
    &&& !has_place(places, last)
    &&& !ix.records.contains_key(last) || (!ix.records[last].reparse && (way.drop_last().contains(
        last,
    ) || ix.records[last].links.len() == 0))
}

proof fn ways_come_to_an_end(
    ix: IndexView,
    places: Seq<Place>,
    before: Seq<u64>,
    key: u64,
) -> (way: Seq<u64>)
    requires
        ix.valid(),
        is_way(ix, places, before.push(key)),
    ensures
        is_way(ix, places, way),
        way[0] == before.push(key)[0],
        ix.is_lost(places, before.to_set(), key) ==> ends_nowhere(ix, places, way),
        !ix.is_lost(places, before.to_set(), key) ==> arrives(ix, places, way),
    decreases unseen(ix.order, before.to_set()),
{
    let seen = before.to_set();
    let here = before.push(key);
    slots_are_the_lower_bits(key);
    assert(here.drop_last() =~= before);
    assert(here.last() == key);
    assert(before.contains(key) <==> seen.contains(key));
    assert(ix.order.contains(key) <==> ix.records.contains_key(key));
    if is_reserved(key) || has_place(places, key) || !ix.records.contains_key(key)
        || ix.records[key].reparse || before.contains(key) || ix.records[key].links.len() == 0 {
        here
    } else {
        unseen_shrinks(ix.order, seen, key);
        let next = ix.records[key].links[0].parent;
        assert(here.to_set() =~= seen.insert(key)) by {
            assert forall|k: u64| here.to_set().contains(k) <==> seen.insert(key).contains(k) by {
                if before.contains(k) {
                    let i = choose|i: int| 0 <= i < before.len() && before[i] == k;
                    assert(here[i] == k);
                }
                assert(here[before.len() as int] == key);
            }
        }
        let longer = here.push(next);
        assert(longer.drop_last() =~= here);
        assert(here.no_duplicates());
        assert forall|k: int| 0 <= k < longer.len() - 1 implies goes_on(
            ix,
            places,
            #[trigger] longer[k],
        ) && ix.records[longer[k]].links[0].parent == longer[k + 1] by {
            if k < before.len() {
                assert(here[k] == longer[k]);
                assert(here[k + 1] == longer[k + 1]);
            }
        }
        ways_come_to_an_end(ix, places, here, next)
    }
}

/// Whether the way up from a record ends nowhere.
pub open spec fn leads_nowhere(ix: IndexView, places: Seq<Place>, key: u64) -> bool {
    exists|way: Seq<u64>| #[trigger]
        is_way(ix, places, way) && way[0] == key && ends_nowhere(ix, places, way)
}

proof fn ways_agree(ix: IndexView, places: Seq<Place>, a: Seq<u64>, b: Seq<u64>, k: int)
    requires
        is_way(ix, places, a),
        is_way(ix, places, b),
        a[0] == b[0],
        0 <= k < a.len(),
        k < b.len(),
    ensures
        a[k] == b[k],
    decreases k,
{
    if k > 0 {
        ways_agree(ix, places, a, b, k - 1);
        assert(goes_on(ix, places, a[k - 1]) && goes_on(ix, places, b[k - 1]));
    }
}

/// A way up does not both arrive and end nowhere.
pub proof fn ways_end_in_one_way(ix: IndexView, places: Seq<Place>, a: Seq<u64>, b: Seq<u64>)
    requires
        is_way(ix, places, a),
        is_way(ix, places, b),
        a[0] == b[0],
        arrives(ix, places, a),
    ensures
        !ends_nowhere(ix, places, b),
{
    let m = a.len() - 1;
    let n = b.len() - 1;
    if ends_nowhere(ix, places, b) {
        if m < n {
            ways_agree(ix, places, a, b, m);
            assert(goes_on(ix, places, b[m]));
        } else {
            ways_agree(ix, places, a, b, n);
            if n < m {
                assert(goes_on(ix, places, a[n]));
                let early = b.drop_last();
                assert(early.contains(b[n]));
                let i = choose|i: int| 0 <= i < early.len() && early[i] == b[n];
                ways_agree(ix, places, a, b, i);
                assert(a.drop_last()[i] == a.drop_last()[n]);
            }
        }
    }
}

proof fn lost_records_lead_nowhere(ix: IndexView, places: Seq<Place>, key: u64)
    requires
        ix.valid(),
    ensures
        ix.is_lost(places, Set::empty(), key) <==> leads_nowhere(ix, places, key),
{
    let none = Seq::<u64>::empty();
    assert(none.to_set() =~= Set::<u64>::empty());
    assert(none.push(key).drop_last() =~= none);
    assert(is_way(ix, places, none.push(key)));
    let way = ways_come_to_an_end(ix, places, none, key);
    if leads_nowhere(ix, places, key) && !ix.is_lost(places, Set::empty(), key) {
        let other = choose|other: Seq<u64>| #[trigger]
            is_way(ix, places, other) && other[0] == key && ends_nowhere(ix, places, other);
        ways_end_in_one_way(ix, places, way, other);
    }
}

/// Whether a record of the user cannot be shown, though it should be: its base never
/// came, it has no name, or it is a folder from which no way leads up.
pub open spec fn is_unplaced(ix: IndexView, places: Seq<Place>, a: int) -> bool {
    let rec = record_at(ix, a);
    &&& slot_number(ix.order[a]) >= 16
    &&& !has_place(places, ix.order[a])
    &&& !rec.base_seen || rec.links.len() == 0 || (rec.directory && leads_nowhere(
        ix,
        places,
        ix.order[a],
    ))
}

/// How many of the first `n` records are such.
pub open spec fn unplaced(ix: IndexView, places: Seq<Place>, n: int) -> int
    decreases n,
{
    if n <= 0 {
        0
    } else {
        unplaced(ix, places, n - 1) + if is_unplaced(ix, places, n - 1) {
            1int
        } else {
            0
        }
    }
}

/// How many of the first `m` names of a record lie in folders of one kind.
pub open spec fn names_where(rec: RecordView, p: spec_fn(u64) -> bool, m: int) -> int
    decreases m,
{
    if m <= 0 {
        0
    } else {
        names_where(rec, p, m - 1) + if p(rec.links[m - 1].parent) {
            1int
        } else {
            0
        }
    }
}

/// A folder that is neither placed nor known.
pub open spec fn is_unknown(ix: IndexView, places: Seq<Place>) -> spec_fn(u64) -> bool {
    |folder: u64| !has_place(places, folder) && !ix.records.contains_key(folder)
}

/// A folder that is placed.
pub open spec fn is_shown(places: Seq<Place>) -> spec_fn(u64) -> bool {
    |folder: u64| has_place(places, folder)
}

/// How many names of the first `n` records of the user lie in unknown folders.
pub open spec fn homeless_names(ix: IndexView, places: Seq<Place>, n: int) -> int
    decreases n,
{
    if n <= 0 {
        0
    } else {
        homeless_names(ix, places, n - 1) + if is_users(ix, n - 1) {
            names_where(
                record_at(ix, n - 1),
                is_unknown(ix, places),
                record_at(ix, n - 1).links.len() as int,
            )
        } else {
            0
        }
    }
}

/// How many names of reparse points among the first `n` records lie in shown folders.
pub open spec fn link_names(ix: IndexView, places: Seq<Place>, n: int) -> int
    decreases n,
{
    if n <= 0 {
        0
    } else {
        link_names(ix, places, n - 1) + if is_users(ix, n - 1) && record_at(ix, n - 1).reparse {
            names_where(
                record_at(ix, n - 1),
                is_shown(places),
                record_at(ix, n - 1).links.len() as int,
            )
        } else {
            0
        }
    }
}

/// How many of the first `n` whole records miss a part.
pub open spec fn partly_read(ix: IndexView, n: int) -> int
    decreases n,
{
    if n <= 0 {
        0
    } else {
        partly_read(ix, n - 1) + if record_at(ix, n - 1).base_seen && misses_a_part(
            ix,
            record_at(ix, n - 1),
        ) {
            1int
        } else {
            0
        }
    }
}

proof fn strays_are_unplaced(ix: IndexView, places: Seq<Place>, n: int)
    requires
        ix.valid(),
        0 <= n <= ix.order.len(),
    ensures
        ix.strays(places, n) == unplaced(ix, places, n),
        ix.unverified(n) == partly_read(ix, n),
    decreases n,
{
    if n > 0 {
        strays_are_unplaced(ix, places, n - 1);
        slots_are_the_lower_bits(ix.order[n - 1]);
        lost_records_lead_nowhere(ix, places, ix.order[n - 1]);
        parts_are_missed(ix, record_at(ix, n - 1));
    }
}

proof fn names_of_one(ix: IndexView, places: Seq<Place>, done: Seq<Entry>, n: int, m: int)
    requires
        0 <= n < ix.order.len(),
        is_users(ix, n),
        0 <= m <= record_at(ix, n).links.len(),
    ensures
        ix.orphans(places, done + ix.names_of(ix.order[n], m)) == ix.orphans(places, done)
            + names_where(record_at(ix, n), is_unknown(ix, places), m),
        ix.skipped(places, done + ix.names_of(ix.order[n], m)) == ix.skipped(places, done) + if record_at(
            ix,
            n,
        ).reparse {
            names_where(record_at(ix, n), is_shown(places), m)
        } else {
            0
        },
    decreases m,
{
    let all = done + ix.names_of(ix.order[n], m);
    if m == 0 {
        assert(all =~= done);
    } else {
        names_of_one(ix, places, done, n, m - 1);
        assert(all.drop_last() =~= done + ix.names_of(ix.order[n], m - 1));
        assert(all.last() == (Entry { key: ix.order[n], link: record_at(ix, n).links[m - 1] }));
    }
}

proof fn names_are_counted(ix: IndexView, places: Seq<Place>, n: int)
    requires
        0 <= n <= ix.order.len(),
    ensures
        ix.orphans(places, ix.entries(n)) == homeless_names(ix, places, n),
        ix.skipped(places, ix.entries(n)) == link_names(ix, places, n),
    decreases n,
{
    if n > 0 {
        names_are_counted(ix, places, n - 1);
        slots_are_the_lower_bits(ix.order[n - 1]);
        if is_users(ix, n - 1) {
            names_of_one(
                ix,
                places,
                ix.entries(n - 1),
                n - 1,
                record_at(ix, n - 1).links.len() as int,
            );
        }
    }
}

/// The errors of a volume map are the records that cannot be placed, the names in
/// folders that never came, and one more where there is no root folder; the skipped
/// items are the names of reparse points in shown folders; the folders are those that
/// are shown. A line tells about the errors and one about records that were read in
/// part, each only where there are such.
pub proof fn volume_maps_count_what_they_leave_out(ix: IndexView, root: PathView, p: ProgressView)
    requires
        ix.valid(),
        ix.order.len() <= usize::MAX,
    ensures
        ({
            let places = ix.places(root);
            let n = ix.order.len() as int;
            let after = ix.final_progress(root, p);
            let errors = unplaced(ix, places, n) + homeless_names(ix, places, n) + if exists|a: int|
                0 <= a < n && #[trigger] is_volume_root(ix, a) {
                0int
            } else {
                1
            };
            &&& ix.errors(places) == errors
            &&& shows_sum(after.errors, errors)
            &&& shows_sum(after.skipped, link_names(ix, places, n))
            &&& after.folders == places.len() as usize
            &&& after == ProgressView {
                bytes: after.bytes,
                files: after.files,
                skipped: after.skipped,
                errors: after.errors,
                folders: after.folders,
                ..p
            }
            &&& ix.issues(root).len() == (if errors > 0 {
                1int
            } else {
                0
            }) + (if partly_read(ix, n) > 0 {
                1int
            } else {
                0
            })
        }),
{
    let places = ix.places(root);
    let n = ix.order.len() as int;
    strays_are_unplaced(ix, places, n);
    names_are_counted(ix, places, n);
    folders_stand_where_their_first_name_says(ix, root);
    the_first_place_is_the_root(ix, root);
}

proof fn the_first_place_is_the_root(ix: IndexView, root: PathView)
    requires
        ix.valid(),
        ix.order.len() <= usize::MAX,
    ensures
        ix.root_from(0) is None <==> forall|a: int|
            0 <= a < ix.order.len() ==> !#[trigger] is_volume_root(ix, a),
{
    crate::mft::place_laws::the_root_is_the_first_that_came(ix, 0);
    if let Some(key) = ix.root_from(0) {
        let a = choose|a: int|
            0 <= a < ix.order.len() && #[trigger] is_volume_root(ix, a) && ix.order[a] == key
                && forall|b: int| 0 <= b < a ==> !#[trigger] is_volume_root(ix, b);
        assert(is_volume_root(ix, a));
    }
}

} // verus!
