//! Which folders of a volume the map shows, and where.
use vstd::prelude::*;
use crate::mft::index::{slot, IndexView};
use crate::mft::layout::{distinct_keys_are_few, folders_in_are_the_folders, keys_distinct, Place};
use crate::path::PathView;

verus! {

/// The number of the slot in a reference: what is left without the 16 upper bits.
pub open spec fn slot_number(reference: u64) -> int {
    reference as int % 0x1_0000_0000_0000
}

/// The slot of a reference is its number below the upper 16 bits.
pub proof fn slots_are_the_lower_bits(reference: u64)
    ensures
        slot(reference) == slot_number(reference),
{
    assert(reference & 0xFFFF_FFFF_FFFF == reference % 0x1_0000_0000_0000) by (bit_vector);
}

/// Whether a record is that of a plain folder of the user with a name.
pub open spec fn is_user_folder(ix: IndexView, key: u64) -> bool {
    &&& ix.records.contains_key(key)
    &&& ix.records[key].base_seen
    &&& ix.records[key].directory
    &&& !ix.records[key].reparse
    &&& ix.records[key].links.len() > 0
    &&& slot_number(key) >= 16
}

/// Whether a record is that of the root folder of the volume.
pub open spec fn is_volume_root(ix: IndexView, a: int) -> bool {
    slot_number(ix.order[a]) == 5 && ix.records[ix.order[a]].base_seen
}

/// Whether the folder at place `j` stands where its first name says.
pub open spec fn stands_right(ix: IndexView, places: Seq<Place>, j: int) -> bool {
    let first = ix.records[places[j].key->0].links[0];
    &&& places[j].key is Some
    &&& is_user_folder(ix, places[j].key->0)
    &&& places[j].parent is Some
    &&& places[j].parent->0 < j
    &&& places[places[j].parent->0 as int].key == Some(first.parent)
    &&& places[j].path == places[places[j].parent->0 as int].path.join(first.name)
}

spec fn lies_ready(ix: IndexView, places: Seq<Place>, next: int) -> bool {
    &&& 0 < places.len()
    &&& 0 <= next <= places.len()
    &&& keys_distinct(places)
    &&& places[0].parent is None
    &&& places[0].key is None ==> places.len() == 1
    &&& places[0].key matches Some(key) ==> ix.records.contains_key(key) && slot_number(key) == 5
    &&& forall|j: int|
        0 < j < places.len() ==> stands_right(ix, places, j) && (#[trigger] places[j]).parent->0
            < next
    &&& forall|i: int, j: int|
        0 < i < j < places.len() ==> (#[trigger] places[i]).parent->0 < (
        #[trigger] places[j]).parent->0 || (places[i].parent == places[j].parent
            && places[i].key->0 < places[j].key->0)
    &&& forall|p: int, key: u64|
        0 <= p < next && places[p].key is Some && #[trigger] ix.is_folder_in(
            key,
            (#[trigger] places[p]).key->0,
        ) ==> exists|j: int| 0 <= j < places.len() && (#[trigger] places[j]).key == Some(key)
}

#[verifier::rlimit(40)]
proof fn a_row_is_placed(ix: IndexView, places: Seq<Place>, next: int)
    requires
        ix.valid(),
        ix.order.len() <= usize::MAX,
        lies_ready(ix, places, next),
        next < places.len(),
        next < ix.order.len(),
        places[next].key is Some,
    ensures
        lies_ready(
            ix,
            places + ix.below(places[next], next, ix.folders_in(places[next].key->0)),
            next + 1,
        ),
{
    let here = places[next].key->0;
    let row = ix.folders_in(here);
    let added = ix.below(places[next], next, row);
    let more = places + added;
    let base = places.len() as int;
    folders_in_are_the_folders(ix, here);
    assert forall|k: int| 0 <= k < row.len() implies ix.is_folder_in(#[trigger] row[k], here) by {
        assert(row.contains(row[k]));
    }
    assert forall|j: int| 0 <= j < base implies #[trigger] more[j] == places[j] by {}
    assert forall|j: int| base <= j < more.len() implies #[trigger] more[j] == added[j - base] by {}
    assert forall|j: int| 0 < j < more.len() implies stands_right(ix, more, j) && (
    #[trigger] more[j]).parent->0 < next + 1 by {
        if j < base {
            assert(stands_right(ix, places, j));
            assert(more[places[j].parent->0 as int] == places[places[j].parent->0 as int]);
        } else {
            assert(ix.is_folder_in(row[j - base], here));
            slots_are_the_lower_bits(row[j - base]);
            assert(more[next] == places[next]);
        }
    }
    assert forall|j: int, k: int| 0 <= j < base && 0 <= k < row.len() implies (
    #[trigger] places[j]).key != Some(#[trigger] row[k]) by {
        assert(ix.is_folder_in(row[k], here));
        slots_are_the_lower_bits(row[k]);
        if j > 0 {
            assert(stands_right(ix, places, j));
            let p = places[j].parent->0 as int;
            assert(p < next);
            assert(places[p].key != places[next].key);
        }
    }
    assert forall|i: int, j: int| 0 <= i < j < more.len() implies (#[trigger] more[i]).key != (
    #[trigger] more[j]).key by {
        if j >= base {
            if i < base {
                assert(places[i].key != Some(row[j - base]));
            } else {
                assert(row[i - base] < row[j - base]);
            }
        }
    }
    assert forall|i: int, j: int| 0 < i < j < more.len() implies (#[trigger] more[i]).parent->0 < (
    #[trigger] more[j]).parent->0 || (more[i].parent == more[j].parent && more[i].key->0
        < more[j].key->0) by {
        if j >= base {
            if i < base {
                assert(places[i].parent->0 < next);
            } else {
                assert(row[i - base] < row[j - base]);
            }
        }
    }
    assert forall|p: int, key: u64|
        0 <= p < next + 1 && more[p].key is Some && #[trigger] ix.is_folder_in(
            key,
            (#[trigger] more[p]).key->0,
        ) implies exists|j: int| 0 <= j < more.len() && (#[trigger] more[j]).key == Some(key) by {
        if p < next {
            assert(more[p] == places[p]);
            assert(ix.is_folder_in(key, places[p].key->0));
            let j = choose|j: int| 0 <= j < base && (#[trigger] places[j]).key == Some(key);
            assert(more[j].key == Some(key));
        } else {
            assert(row.contains(key));
            let k = choose|k: int| 0 <= k < row.len() && row[k] == key;
            assert(more[base + k].key == Some(key));
        }
    }
}

proof fn all_are_placed(ix: IndexView, places: Seq<Place>, next: int)
    requires
        ix.valid(),
        ix.order.len() <= usize::MAX,
        lies_ready(ix, places, next),
    ensures
        ({
            let all = ix.placed(places, next);
            lies_ready(ix, all, all.len() as int) && all[0] == places[0]
        }),
    decreases ix.order.len() - next,
{
    if next >= places.len() {
    } else if places[next].key is None {
        if next > 0 {
            assert(stands_right(ix, places, next));
        }
    } else {
        if next >= ix.order.len() {
            assert forall|i: int| 0 <= i < places.len() implies (#[trigger] places[i]).key is Some
                && ix.records.contains_key(places[i].key->0) by {
                if i > 0 {
                    assert(stands_right(ix, places, i));
                }
            }
            distinct_keys_are_few(ix, places);
        } else {
            a_row_is_placed(ix, places, next);
            let more = places + ix.below(
                places[next],
                next,
                ix.folders_in(places[next].key->0),
            );
            all_are_placed(ix, more, next + 1);
        }
    }
}

/// The root of the volume is the first root record that came.
pub proof fn the_root_is_the_first_that_came(ix: IndexView, from: int)
    requires
        0 <= from <= ix.order.len(),
    ensures
        match ix.root_from(from) {
            Some(key) => exists|a: int|
                from <= a < ix.order.len() && #[trigger] is_volume_root(ix, a) && ix.order[a] == key
                    && forall|b: int| from <= b < a ==> !#[trigger] is_volume_root(ix, b),
            None => forall|a: int| from <= a < ix.order.len() ==> !#[trigger] is_volume_root(ix, a),
        },
    decreases ix.order.len() - from,
{
    if from < ix.order.len() {
        slots_are_the_lower_bits(ix.order[from]);
        the_root_is_the_first_that_came(ix, from + 1);
        if is_volume_root(ix, from) {
        } else if ix.root_from(from) is Some {
            let key = ix.root_from(from)->0;
            let a = choose|a: int|
                from + 1 <= a < ix.order.len() && #[trigger] is_volume_root(ix, a) && ix.order[a]
                    == key && forall|b: int|
                    from + 1 <= b < a ==> !#[trigger] is_volume_root(ix, b);
            assert(is_volume_root(ix, a) && ix.order[a] == key);
        }
    }
}

/// The map starts with the root folder of the volume, under the path that was asked
/// for. Every other folder it shows is a plain folder of the user, stands below the
/// folder that its first name gives, and has the path that this name gives; and
/// every such folder whose first name lies in a shown folder is shown, once. Folders
/// nearer to the root come first, and those in one folder by their references.
pub proof fn folders_stand_where_their_first_name_says(ix: IndexView, root: PathView)
    requires
        ix.valid(),
        ix.order.len() <= usize::MAX,
    ensures
        ({
            let places = ix.places(root);
            &&& places.len() > 0
            &&& places[0].path == root
            &&& places[0].parent is None
            &&& match places[0].key {
                Some(key) => exists|a: int|
                    0 <= a < ix.order.len() && #[trigger] is_volume_root(ix, a) && ix.order[a] == key
                        && forall|b: int| 0 <= b < a ==> !#[trigger] is_volume_root(ix, b),
                None => places.len() == 1 && forall|a: int|
                    0 <= a < ix.order.len() ==> !#[trigger] is_volume_root(ix, a),
            }
            &&& forall|j: int| 0 < j < places.len() ==> #[trigger] stands_right(ix, places, j)
            &&& forall|i: int, j: int|
                0 <= i < j < places.len() ==> (#[trigger] places[i]).key != (#[trigger] places[j]).key
            &&& forall|i: int, j: int|
                0 < i < j < places.len() ==> (#[trigger] places[i]).parent->0 < (
                #[trigger] places[j]).parent->0 || (places[i].parent == places[j].parent
                    && places[i].key->0 < places[j].key->0)
            &&& forall|p: int, key: u64|
                0 <= p < places.len() && #[trigger] is_user_folder(ix, key) && (
                #[trigger] places[p]).key == Some(ix.records[key].links[0].parent) ==> exists|j: int|
                    0 <= j < places.len() && (#[trigger] places[j]).key == Some(key)
        }),
{
    let places = ix.places(root);
    let start = seq![ix.root_place(root)];
    the_root_is_the_first_that_came(ix, 0);
    if let Some(key) = ix.root_from(0) {
        let a = choose|a: int|
            0 <= a < ix.order.len() && #[trigger] is_volume_root(ix, a) && ix.order[a] == key
                && forall|b: int| 0 <= b < a ==> !#[trigger] is_volume_root(ix, b);
        assert(ix.order.contains(ix.order[a]));
        assert(is_volume_root(ix, a));
    }
    assert(lies_ready(ix, start, 0));
    all_are_placed(ix, start, 0);
    assert forall|j: int| 0 < j < places.len() implies #[trigger] stands_right(ix, places, j) by {
        assert(places[j] == places[j]);
    }
    assert forall|p: int, key: u64|
        0 <= p < places.len() && #[trigger] is_user_folder(ix, key) && (#[trigger] places[p]).key
            == Some(ix.records[key].links[0].parent) implies exists|j: int|
        0 <= j < places.len() && (#[trigger] places[j]).key == Some(key) by {
        slots_are_the_lower_bits(key);
        assert(ix.is_folder_in(key, places[p].key->0));
    }
}

} // verus!
