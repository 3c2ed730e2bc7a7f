//! Where the folders of a volume stand in its map.
use std::collections::HashMap;
use vstd::prelude::*;
use crate::mft::index::{index_is_valid, slot, Index, IndexView, ID_MASK};
use crate::mft::record::Record;
use crate::path::{joined_paths_are_inside, FolderPath, PathView};
use crate::sort::{in_order, in_order_keeps_the_numbers, increasing_lists_are_unique, pair_le, pairs_sorted, sort_pairs, strictly_increasing};
use crate::tree::{children_of, Node, NodeView};

verus! {

/// The record number of the volume's root folder.
pub const ROOT_SLOT: u64 = 5;

/// Record numbers below this one belong to the file system itself.
pub const FIRST_USER_SLOT: u64 = 16;

/// A folder of the map: its key, where its parent stands, and its path. Only
/// the root of a volume without a root record has no key.
pub struct Place {
    pub key: Option<u64>,
    pub parent: Option<usize>,
    pub path: PathView,
}

impl IndexView {
    /// The first key, at or after `from`, of the volume's root folder.
    pub open spec fn root_from(self, from: int) -> Option<u64>
        decreases self.order.len() - from,
    {
        if from >= self.order.len() {
            None
        } else if slot(self.order[from]) == ROOT_SLOT && self.records[self.order[from]].base_seen {
            Some(self.order[from])
        } else {
            self.root_from(from + 1)
        }
    }

    /// Whether a key belongs to a folder that the map shows below its parent.
    pub open spec fn is_folder(self, key: u64) -> bool {
        let rec = self.records[key];
        self.records.contains_key(key) && rec.base_seen && rec.directory && slot(key)
            >= FIRST_USER_SLOT && !rec.reparse && rec.links.len() > 0
    }

    /// Whether a key belongs to a folder whose first name stands in `parent`.
    pub open spec fn is_folder_in(self, key: u64, parent: u64) -> bool {
        self.is_folder(key) && self.records[key].links[0].parent == parent
    }

    /// The first `n` keys, as far as they are folders in `parent`.
    pub open spec fn folder_keys(self, parent: u64, n: int) -> Seq<u64>
        decreases n,
    {
        if n <= 0 {
            seq![]
        } else if self.is_folder_in(self.order[n - 1], parent) {
            self.folder_keys(parent, n - 1).push(self.order[n - 1])
        } else {
            self.folder_keys(parent, n - 1)
        }
    }

    /// The folders in `parent`, by increasing key.
    pub open spec fn folders_in(self, parent: u64) -> Seq<u64> {
        in_order(self.folder_keys(parent, self.order.len() as int))
    }

    /// The places of `keys` below the folder that stands at `at`.
    pub open spec fn below(self, folder: Place, at: int, keys: Seq<u64>) -> Seq<Place> {
        Seq::new(
            keys.len(),
            |j: int|
                Place {
                    key: Some(keys[j]),
                    parent: Some(at as usize),
                    path: folder.path.join(self.records[keys[j]].links[0].name),
                },
        )
    }

    /// Breadth first: every folder's subfolders are placed in one row, folder by
    /// folder from `next` on.
    pub open spec fn placed(self, places: Seq<Place>, next: int) -> Seq<Place>
        decreases self.order.len() - next,
    {
        if next >= places.len() || next >= self.order.len() {
            places
        } else {
            match places[next].key {
                None => places,
                Some(key) => self.placed(
                    places + self.below(places[next], next, self.folders_in(key)),
                    next + 1,
                ),
            }
        }
    }

    /// The place that the map starts with.
    pub open spec fn root_place(self, root: PathView) -> Place {
        Place { key: self.root_from(0), parent: None, path: root }
    }

    /// All places of the map.
    pub open spec fn places(self, root: PathView) -> Seq<Place> {
        self.placed(seq![self.root_place(root)], 0)
    }

    /// What the folder at place `i` starts with: its own record, before any
    /// file is counted.
    pub open spec fn folder_node(self, places: Seq<Place>, i: int) -> NodeView {
        let fresh = NodeView {
            children: positions_below(places, i, places.len() as int),
            ..NodeView::fresh(places[i].path, places[i].parent)
        };
        match places[i].key {
            None => fresh,
            Some(key) => NodeView {
                modified: self.records[key].modified,
                missing_modified: self.records[key].modified is None,
                incomplete: self.lacks_parts(self.records[key]),
                ..fresh
            },
        }
    }
}

/// The positions, below `n`, of the places whose parent stands at `i`.
pub open spec fn positions_below(places: Seq<Place>, i: int, n: int) -> Seq<usize>
    decreases n,
{
    if n <= 0 {
        seq![]
    } else if places[n - 1].parent == Some(i as usize) {
        positions_below(places, i, n - 1).push((n - 1) as usize)
    } else {
        positions_below(places, i, n - 1)
    }
}

proof fn positions_below_of_more(places: Seq<Place>, place: Place, i: int, n: int)
    requires
        0 <= n <= places.len(),
    ensures
        positions_below(places.push(place), i, n) == positions_below(places, i, n),
    decreases n,
{
    if n > 0 {
        positions_below_of_more(places, place, i, n - 1);
    }
}

/// Places and the folders on them have the same children.
pub proof fn positions_are_children(places: Seq<Place>, tree: Seq<NodeView>, i: int, n: int)
    requires
        0 <= n <= places.len(),
        n <= tree.len(),
        forall|j: int| 0 <= j < n ==> (#[trigger] tree[j]).parent == places[j].parent,
    ensures
        positions_below(places, i, n) == children_of(tree, i, n),
    decreases n,
{
    if n > 0 {
        positions_are_children(places, tree, i, n - 1);
        assert(tree[n - 1].parent == places[n - 1].parent);
    }
}

/// Whether a key has a place.
pub open spec fn has_place(places: Seq<Place>, key: u64) -> bool {
    exists|i: int| 0 <= i < places.len() && (#[trigger] places[i]).key == Some(key)
}

/// The place of a key.
pub open spec fn place_of(places: Seq<Place>, key: u64) -> Option<int> {
    if has_place(places, key) {
        Some(choose|i: int| 0 <= i < places.len() && (#[trigger] places[i]).key == Some(key))
    } else {
        None
    }
}

/// No key has two places.
pub open spec fn keys_distinct(places: Seq<Place>) -> bool {
    forall|i: int, j: int|
        0 <= i < j < places.len() ==> (#[trigger] places[i]).key != (#[trigger] places[j]).key
}

/// Whether every place but the first is a folder inside an earlier place.
pub open spec fn places_follow(ix: IndexView, places: Seq<Place>, bound: int) -> bool {
    &&& places.len() > 0
    &&& places[0].parent is None
    &&& places[0].key matches Some(key) ==> ix.records.contains_key(key) && slot(key) == ROOT_SLOT
    &&& forall|j: int|
        0 < j < places.len() ==> {
            &&& (#[trigger] places[j]).key is Some
            &&& ix.is_folder(places[j].key->0)
            &&& places[j].parent is Some
            &&& (places[j].parent->0 as int) < j
            &&& (places[j].parent->0 as int) < bound
            &&& places[places[j].parent->0 as int].key == Some(
                ix.records[places[j].key->0].links[0].parent,
            )
            &&& places[j].path.is_inside(places[places[j].parent->0 as int].path)
        }
}

/// Whether `mapping` tells the place of every key.
pub open spec fn maps_places(mapping: Map<u64, usize>, places: Seq<Place>) -> bool {
    &&& forall|key: u64| #[trigger]
        mapping.contains_key(key) ==> mapping[key] < places.len() && places[mapping[key] as int].key
            == Some(key)
    &&& forall|i: int|
        0 <= i < places.len() ==> ((#[trigger] places[i]).key matches Some(key)
            ==> mapping.contains_key(key) && mapping[key] == i)
}

/// A mapping finds exactly the place of a key.
pub proof fn mapping_finds_the_place(mapping: Map<u64, usize>, places: Seq<Place>, key: u64)
    requires
        maps_places(mapping, places),
    ensures
        match place_of(places, key) {
            Some(i) => mapping.contains_key(key) && mapping[key] == i && 0 <= i < places.len(),
            None => !mapping.contains_key(key),
        },
{
    if mapping.contains_key(key) {
        assert(places[mapping[key] as int].key == Some(key));
    }
}

/// There are no more places than records, where no key has two.
pub proof fn distinct_keys_are_few(ix: IndexView, places: Seq<Place>)
    requires
        ix.valid(),
        keys_distinct(places),
        forall|i: int|
            0 <= i < places.len() ==> (#[trigger] places[i]).key is Some && ix.records.contains_key(
                places[i].key->0,
            ),
    ensures
        places.len() <= ix.order.len(),
{
    let keys = Seq::new(places.len(), |i: int| places[i].key->0);
    assert forall|i: int, j: int| 0 <= i < keys.len() && 0 <= j < keys.len() && i != j implies keys[i]
        != keys[j] by {
        assert(places[i].key == Some(keys[i]) && places[j].key == Some(keys[j]));
    }
    assert(keys.no_duplicates());
    assert forall|key: u64| keys.to_set().contains(key) implies ix.order.to_set().contains(key) by {
        let i = choose|i: int| 0 <= i < keys.len() && keys[i] == key;
        assert(places[i].key == Some(key));
        assert(ix.order.contains(key));
    }
    keys.unique_seq_to_set();
    ix.order.unique_seq_to_set();
    vstd::set_lib::lemma_len_subset(keys.to_set(), ix.order.to_set());
}

/// The folder keys are the keys of folders, each once.
proof fn folder_keys_are_folders(ix: IndexView, parent: u64, n: int)
    requires
        ix.valid(),
        0 <= n <= ix.order.len(),
    ensures
        forall|key: u64| #[trigger]
            ix.folder_keys(parent, n).contains(key) <==> ix.is_folder_in(key, parent) && exists|i: int|
                0 <= i < n && ix.order[i] == key,
    decreases n,
{
    if n > 0 {
        folder_keys_are_folders(ix, parent, n - 1);
        let rest = ix.folder_keys(parent, n - 1);
        assert forall|key: u64| #[trigger]
            ix.folder_keys(parent, n).contains(key) <==> ix.is_folder_in(key, parent) && exists|
            i: int,
        |
            0 <= i < n && ix.order[i] == key by {
            if ix.folder_keys(parent, n).contains(key) {
                let i = choose|i: int|
                    0 <= i < ix.folder_keys(parent, n).len() && ix.folder_keys(parent, n)[i] == key;
                if i < rest.len() {
                    assert(rest[i] == key);
                    assert(rest.contains(key));
                } else {
                    assert(ix.order[n - 1] == key);
                }
            }
            if ix.is_folder_in(key, parent) && exists|i: int| 0 <= i < n && ix.order[i] == key {
                let i = choose|i: int| 0 <= i < n && ix.order[i] == key;
                if i < n - 1 {
                    assert(rest.contains(key));
                    let k = choose|k: int| 0 <= k < rest.len() && rest[k] == key;
                    assert(ix.folder_keys(parent, n)[k] == key);
                } else {
                    assert(ix.folder_keys(parent, n)[rest.len() as int] == key);
                }
            }
        }
    }
}

/// The folders in a folder are exactly those whose first name stands there, by increasing key.
pub proof fn folders_in_are_the_folders(ix: IndexView, parent: u64)
    requires
        ix.valid(),
    ensures
        strictly_increasing(ix.folders_in(parent)),
        forall|key: u64| #[trigger]
            ix.folders_in(parent).contains(key) <==> ix.is_folder_in(key, parent),
{
    let n = ix.order.len() as int;
    folder_keys_are_folders(ix, parent, n);
    in_order_keeps_the_numbers(ix.folder_keys(parent, n));
    assert forall|key: u64| #[trigger]
        ix.folders_in(parent).contains(key) <==> ix.is_folder_in(key, parent) by {
        if ix.is_folder_in(key, parent) {
            assert(ix.order.contains(key));
        }
    }
}

/// The first key of the volume's root folder.
pub fn find_root(index: &Index) -> (r: Option<u64>)
    requires
        index.valid(),
    ensures
        r == index@.root_from(0),
        r matches Some(key) ==> index@.records.contains_key(key) && slot(key) == ROOT_SLOT,
{
    let mut i: usize = 0;
    while i < index.len()
        invariant
            index.valid(),
            i <= index@.order.len(),
            index@.root_from(i as int) == index@.root_from(0),
        decreases index@.order.len() - i,
    {
        let key: u64 = index.key_at(i);
        if key & ID_MASK == ROOT_SLOT && index.record_at(i).base_seen {
            return Some(key);
        }
        i += 1;
    }
    None
}

/// All folders as pairs of the folder that holds them and their key, in order.
fn folder_pairs(index: &Index) -> (r: Vec<(u64, u64)>)
    requires
        index.valid(),
    ensures
        pairs_sorted(r@),
        r@.no_duplicates(),
        forall|p: (u64, u64)| #[trigger] r@.contains(p) <==> index@.is_folder_in(p.1, p.0),
{
    let ghost ix = index@;
    let mut pairs: Vec<(u64, u64)> = Vec::new();
    let mut i: usize = 0;
    proof {
        index_is_valid(index);
    }
    while i < index.len()
        invariant
            index.valid(),
            ix == index@,
            ix.valid(),
            i <= ix.order.len(),
            pairs@.no_duplicates(),
            forall|k: int| 0 <= k < pairs@.len() ==> ix.is_folder_in((#[trigger] pairs@[k]).1, pairs@[k].0),
            forall|k: int|
                0 <= k < pairs@.len() ==> exists|j: int| 0 <= j < i && ix.order[j] == (#[trigger] pairs@[k]).1,
            forall|j: int|
                0 <= j < i && ix.is_folder(#[trigger] ix.order[j]) ==> pairs@.contains(
                    (ix.records[ix.order[j]].links[0].parent, ix.order[j]),
                ),
        decreases ix.order.len() - i,
    {
        let key: u64 = index.key_at(i);
        let rec = index.record_at(i);
        if rec.base_seen && rec.directory && key & ID_MASK >= FIRST_USER_SLOT && !rec.reparse
            && rec.links.len() > 0 {
            let ghost before = pairs@;
            let pair: (u64, u64) = (rec.links[0].parent, key);
            assert(rec@.links[0] == rec.links@[0]@);
            assert(ix.is_folder_in(pair.1, pair.0));
            pairs.push(pair);
            assert(pairs@[before.len() as int] == pair);
            assert forall|j: int| 0 <= j < i + 1 && ix.is_folder(
                #[trigger] ix.order[j],
            ) implies pairs@.contains((ix.records[ix.order[j]].links[0].parent, ix.order[j])) by {
                if j < i {
                    let p = (ix.records[ix.order[j]].links[0].parent, ix.order[j]);
                    let k = choose|k: int| 0 <= k < before.len() && before[k] == p;
                    assert(pairs@[k] == p);
                }
            }
            assert(ix.order[i as int] == key);
        }
        i += 1;
    }
    let r = sort_pairs(&pairs);
    proof {
        r@.to_multiset_ensures();
        pairs@.to_multiset_ensures();
        pairs@.lemma_multiset_has_no_duplicates();
        r@.lemma_multiset_has_no_duplicates_conv();
        assert forall|p: (u64, u64)| #[trigger] r@.contains(p) <==> ix.is_folder_in(p.1, p.0) by {
            assert(r@.contains(p) <==> r@.to_multiset().count(p) > 0);
            assert(pairs@.contains(p) <==> pairs@.to_multiset().count(p) > 0);
            if ix.is_folder_in(p.1, p.0) {
                assert(ix.order.contains(p.1));
                let j = choose|j: int| 0 <= j < ix.order.len() && ix.order[j] == p.1;
                assert(ix.is_folder(ix.order[j]));
            }
            if pairs@.contains(p) {
                let k = choose|k: int| 0 <= k < pairs@.len() && pairs@[k] == p;
                assert(ix.is_folder_in(pairs@[k].1, pairs@[k].0));
            }
        }
    }
    r
}

/// The first position whose pair does not stand before `parent`.
fn first_of(pairs: &Vec<(u64, u64)>, parent: u64) -> (r: usize)
    requires
        pairs_sorted(pairs@),
    ensures
        r <= pairs@.len(),
        forall|k: int| 0 <= k < r ==> (#[trigger] pairs@[k]).0 < parent,
        forall|k: int| r <= k < pairs@.len() ==> (#[trigger] pairs@[k]).0 >= parent,
{
    let mut low: usize = 0;
    let mut high: usize = pairs.len();
    while low < high
        invariant
            low <= high <= pairs@.len(),
            pairs_sorted(pairs@),
            forall|k: int| 0 <= k < low ==> (#[trigger] pairs@[k]).0 < parent,
            forall|k: int| high <= k < pairs@.len() ==> (#[trigger] pairs@[k]).0 >= parent,
        decreases high - low,
    {
        let middle: usize = low + (high - low) / 2;
        assert(forall|k: int| 0 <= k < middle ==> pair_le(#[trigger] pairs@[k], pairs@[middle as int]));
        assert(forall|k: int|
            middle <= k < pairs@.len() ==> pair_le(pairs@[middle as int], #[trigger] pairs@[k]));
        if pairs[middle].0 < parent {
            low = middle + 1;
        } else {
            high = middle;
        }
    }
    low
}

/// The folders in `parent`, by increasing key.
fn folders_of(index: &Index, pairs: &Vec<(u64, u64)>, parent: u64) -> (r: Vec<u64>)
    requires
        index.valid(),
        pairs_sorted(pairs@),
        pairs@.no_duplicates(),
        forall|p: (u64, u64)| #[trigger] pairs@.contains(p) <==> index@.is_folder_in(p.1, p.0),
    ensures
        r@ == index@.folders_in(parent),
{
    let start: usize = first_of(pairs, parent);
    let mut r: Vec<u64> = Vec::new();
    let mut i: usize = start;
    while i < pairs.len() && pairs[i].0 == parent
        invariant
            start <= i <= pairs@.len(),
            r@.len() == i - start,
            forall|k: int| start <= k < i ==> (#[trigger] pairs@[k]).0 == parent,
            forall|k: int| 0 <= k < r@.len() ==> #[trigger] r@[k] == pairs@[start + k].1,
        decreases pairs@.len() - i,
    {
        r.push(pairs[i].1);
        i += 1;
    }
    proof {
        index_is_valid(index);
        folders_in_are_the_folders(index@, parent);
        assert forall|a: int, b: int| 0 <= a < b < r@.len() implies #[trigger] r@[a] < #[trigger] r@[b] by {
            assert(pair_le(pairs@[start + a], pairs@[start + b]));
            assert(pairs@[start + a] != pairs@[start + b]);
        }
        assert forall|key: u64| r@.contains(key) <==> index@.folders_in(parent).contains(key) by {
            if r@.contains(key) {
                let k = choose|k: int| 0 <= k < r@.len() && r@[k] == key;
                assert(pairs@.contains(pairs@[start + k]));
            }
            if index@.is_folder_in(key, parent) {
                assert(pairs@.contains((parent, key)));
                let k = choose|k: int| 0 <= k < pairs@.len() && pairs@[k] == (parent, key);
                if i < pairs@.len() {
                    if k >= i {
                        assert(pair_le(pairs@[i as int], pairs@[k]));
                    }
                }
                assert(start <= k < i);
                assert(r@[k - start] == key);
            }
        }
        increasing_lists_are_unique(r@, index@.folders_in(parent));
    }
    r
}

/// The folders of a map before any file is counted, and the place of each key.
pub struct Layout {
    pub nodes: Vec<Node>,
    pub mapping: HashMap<u64, usize>,
}

/// The tree of folders that places describe, where those before `known` show their record.
spec fn folders_so_far(ix: IndexView, places: Seq<Place>, known: int, i: int) -> NodeView {
    if i < known {
        ix.folder_node(places, i)
    } else {
        NodeView {
            children: positions_below(places, i, places.len() as int),
            ..NodeView::fresh(places[i].path, places[i].parent)
        }
    }
}

/// What one more place changes: its folder joins the list, and its parent gets a child.
proof fn one_more_place(ix: IndexView, places: Seq<Place>, place: Place, known: int, i: int)
    requires
        0 <= i < places.len(),
    ensures
        folders_so_far(ix, places.push(place), known, i) == (NodeView {
            children: if place.parent == Some(i as usize) {
                folders_so_far(ix, places, known, i).children.push(places.len() as usize)
            } else {
                folders_so_far(ix, places, known, i).children
            },
            ..folders_so_far(ix, places, known, i)
        }),
{
    positions_below_of_more(places, place, i, places.len() as int);
}

proof fn new_place_has_no_children(places: Seq<Place>, i: int, n: int)
    requires
        0 <= n <= places.len() <= usize::MAX,
        0 <= i <= usize::MAX,
        forall|j: int| 0 <= j < n ==> (#[trigger] places[j]).parent != Some(i as usize),
    ensures
        positions_below(places, i, n) == Seq::<usize>::empty(),
    decreases n,
{
    if n > 0 {
        new_place_has_no_children(places, i, n - 1);
        assert(places[n - 1].parent != Some(i as usize));
    }
}

/// A folder that is placed for the first time has a key that has no place yet.
proof fn key_is_new(ix: IndexView, places: Seq<Place>, row: Seq<u64>, base: int, at: int, c: int)
    requires
        places_follow(ix, places, at + 1),
        keys_distinct(places),
        0 <= at < base <= places.len(),
        places[at].key is Some,
        places.len() == base + c,
        0 <= c < row.len(),
        strictly_increasing(row),
        forall|k: int| 0 <= k < row.len() ==> ix.is_folder_in(#[trigger] row[k], places[at].key->0),
        forall|j: int| 0 < j < base ==> ((#[trigger] places[j]).parent->0 as int) < at,
        forall|j: int| base <= j < places.len() ==> (#[trigger] places[j]).key == Some(row[j - base]),
    ensures
        !has_place(places, row[c]),
{
    assert forall|j: int| 0 <= j < places.len() implies (#[trigger] places[j]).key != Some(row[c]) by {
        assert(ix.is_folder_in(row[c], places[at].key->0));
        if j >= base {
            assert(row[j - base] < row[c]);
        } else if j > 0 {
            let p = places[j].parent->0 as int;
            assert(places[p].key == Some(ix.records[places[j].key->0].links[0].parent));
            assert(p < at && places[p].key != places[at].key);
        }
    }
}

/// Places every folder of the volume, breadth first.
pub fn lay_out(index: &Index, root: &FolderPath) -> (r: Layout)
    requires
        index.valid(),
    ensures
        ({
            let ix = index@;
            let places = ix.places(root@);
            &&& r.nodes@.len() == places.len()
            &&& forall|i: int|
                0 <= i < places.len() ==> (#[trigger] r.nodes@[i])@ == ix.folder_node(places, i)
            &&& maps_places(r.mapping@, places)
            &&& places_follow(ix, places, places.len() as int)
        }),
{
    broadcast use vstd::std_specs::hash::group_hash_axioms;

    let ghost ix = index@;
    let mut nodes: Vec<Node> = Vec::new();
    let mut mapping: HashMap<u64, usize> = HashMap::new();
    nodes.push(Node::new(root.clone(), None));
    let root_key = find_root(index);
    let ghost mut places = seq![ix.root_place(root@)];
    proof {
        index_is_valid(index);
        new_place_has_no_children(places, 0, 1);
    }
    let first: u64 = match root_key {
        None => {
            assert(ix.placed(places, 0) == places);
            return Layout { nodes, mapping };
        },
        Some(key) => key,
    };
    mapping.insert(first, 0);
    let mut keys: Vec<u64> = Vec::new();
    keys.push(first);
    let pairs = folder_pairs(index);
    let mut at: usize = 0;
    while at < nodes.len()
        invariant
            index.valid(),
            ix == index@,
            ix.valid(),
            pairs_sorted(pairs@),
            pairs@.no_duplicates(),
            forall|p: (u64, u64)| #[trigger] pairs@.contains(p) <==> ix.is_folder_in(p.1, p.0),
            at <= nodes@.len(),
            nodes@.len() == places.len(),
            keys@.len() == places.len(),
            forall|i: int| 0 <= i < places.len() ==> (#[trigger] places[i]).key == Some(keys@[i]),
            forall|i: int|
                0 <= i < places.len() ==> (#[trigger] nodes@[i])@ == folders_so_far(
                    ix,
                    places,
                    at as int,
                    i,
                ),
            maps_places(mapping@, places),
            places_follow(ix, places, at as int),
            keys_distinct(places),
            ix.placed(places, at as int) == ix.places(root@),
        decreases ix.order.len() - at,
    {
        let key: u64 = keys[at];
        proof {
            assert forall|i: int| 0 <= i < places.len() implies (#[trigger] places[i]).key is Some
                && ix.records.contains_key(places[i].key->0) by {
                if i > 0 {
                    assert(ix.is_folder(places[i].key->0));
                }
            }
            distinct_keys_are_few(ix, places);
            assert(places[at as int].key == Some(key));
        }
        if let Some(rec) = index.find(key) {
            let incomplete: bool = index.is_incomplete(rec);
            nodes[at].show_record(rec, incomplete);
        }
        let row = folders_of(index, &pairs, key);
        let ghost base = places;
        proof {
            folders_in_are_the_folders(ix, key);
            assert(base + ix.below(base[at as int], at as int, row@).take(0) =~= base);
            assert forall|k: int| 0 <= k < row@.len() implies ix.is_folder_in(#[trigger] row@[k], key) by {
                assert(row@.contains(row@[k]));
            }
        }
        let mut c: usize = 0;
        while c < row.len()
            invariant
                index.valid(),
                ix == index@,
                c <= row@.len(),
                at < base.len(),
                base[at as int].key == Some(key),
                row@ == ix.folders_in(key),
                strictly_increasing(row@),
                forall|k: int| 0 <= k < row@.len() ==> ix.is_folder_in(#[trigger] row@[k], key),
                places == base + ix.below(base[at as int], at as int, row@).take(c as int),
                places.len() == base.len() + c,
                nodes@.len() == places.len(),
                keys@.len() == places.len(),
                forall|i: int|
                    0 <= i < places.len() ==> (#[trigger] places[i]).key == Some(keys@[i]),
                forall|i: int|
                    0 <= i < places.len() ==> (#[trigger] nodes@[i])@ == folders_so_far(
                        ix,
                        places,
                        at + 1,
                        i,
                    ),
                maps_places(mapping@, places),
                places_follow(ix, places, at + 1),
                forall|j: int| 0 < j < base.len() ==> ((#[trigger] base[j]).parent->0 as int) < at,
                keys_distinct(places),
            decreases row@.len() - c,
        {
            let child: u64 = row[c];
            let id: usize = nodes.len();
            assert(ix.is_folder_in(row@[c as int], key));
            proof {
                assert forall|j: int| 0 < j < base.len() implies ((
                #[trigger] places[j]).parent->0 as int) < at by {
                    assert(places[j] == base[j]);
                }
                assert forall|j: int| base.len() <= j < places.len() implies (
                #[trigger] places[j]).key == Some(row@[j - base.len()]) by {}
                assert(places[at as int] == base[at as int]);
                key_is_new(ix, places, row@, base.len() as int, at as int, c as int);
            }
            if let Some(rec) = index.find(child) {
                assert(rec@.links[0] == rec.links@[0]@);
                let path = nodes[at].path.join(&rec.links[0].name);
                let ghost place = Place { key: Some(child), parent: Some(at), path: path@ };
                let ghost before = places;
                let ghost old_nodes = nodes@;
                proof {
                    let row_places = ix.below(base[at as int], at as int, row@);
                    assert(nodes@[at as int]@.path == base[at as int].path);
                    assert(row_places[c as int] == place);
                    places = places.push(place);
                    assert(places =~= base + row_places.take(c + 1));
                }
                nodes.push(Node::new(path, Some(at)));
                nodes[at].children.push(id);
                keys.push(child);
                mapping.insert(child, id);
                assert(nodes.len() == places.len());
                proof {
                    assert forall|i: int| 0 <= i < places.len() implies (#[trigger] nodes@[i])@
                        == folders_so_far(ix, places, at + 1, i) by {
                        if i < before.len() {
                            one_more_place(ix, before, place, at + 1, i);
                            assert(old_nodes[i]@ == folders_so_far(ix, before, at + 1, i));
                            if i == at {
                                assert(nodes@[i]@ =~= folders_so_far(ix, places, at + 1, i));
                            }
                        } else {
                            assert forall|j: int| 0 <= j < i + 1 implies (
                            #[trigger] places[j]).parent != Some(i as usize) by {
                                if j > 0 && j < before.len() {
                                    assert(places[j] == before[j]);
                                }
                            }
                            new_place_has_no_children(places, i, i + 1);
                        }
                    }
                    assert forall|j: int| 0 < j < places.len() implies {
                        &&& (#[trigger] places[j]).key is Some
                        &&& ix.is_folder(places[j].key->0)
                        &&& places[j].parent is Some
                        &&& (places[j].parent->0 as int) < j
                        &&& (places[j].parent->0 as int) < at + 1
                        &&& places[places[j].parent->0 as int].key == Some(
                            ix.records[places[j].key->0].links[0].parent,
                        )
                        &&& places[j].path.is_inside(places[places[j].parent->0 as int].path)
                    } by {
                        if j < before.len() {
                            assert(places[j] == before[j]);
                            let p = before[j].parent->0 as int;
                            assert(places[p] == before[p]);
                        } else {
                            assert(places[at as int] == base[at as int]);
                            joined_paths_are_inside(base[at as int].path, rec@.links[0].name);
                        }
                    }
                    assert forall|i: int, j: int| 0 <= i < j < places.len() implies (
                    #[trigger] places[i]).key != (#[trigger] places[j]).key by {
                        assert(places[i] == before[i]);
                        if j < before.len() {
                            assert(places[j] == before[j]);
                        } else {
                            assert(!has_place(before, child));
                        }
                    }
                    assert forall|i: int| 0 <= i < places.len() implies ((
                    #[trigger] places[i]).key matches Some(k) ==> mapping@.contains_key(k)
                        && mapping@[k] == i) by {
                        if i < before.len() {
                            assert(places[i] == before[i]);
                            assert(before[i].key != Some(child));
                        }
                    }
                }
            } else {
                assert(false);
            }
            c += 1;
        }
        proof {
            let row_places = ix.below(base[at as int], at as int, row@);
            assert(row_places.take(row@.len() as int) =~= row_places);
        }
        at += 1;
    }
    Layout { nodes, mapping }
}

impl Node {
    /// Takes over what the folder's own record says.
    fn show_record(&mut self, rec: &Record, incomplete: bool)
        ensures
            final(self)@ == (NodeView {
                modified: rec@.modified,
                missing_modified: rec@.modified is None,
                incomplete,
                ..old(self)@
            }),
    {
        self.modified = rec.modified;
        self.missing_modified = rec.modified.is_none();
        self.incomplete = incomplete;
    }
}

} // verus!
