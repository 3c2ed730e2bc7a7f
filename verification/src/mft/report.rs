//! The map of a volume, counted from its records.
use std::collections::{HashMap, HashSet};
use vstd::prelude::*;
use crate::mft::index::{index_is_valid, slot, Index, IndexView, ID_MASK};
use crate::mft::layout::{find_root, positions_are_children, has_place, lay_out, mapping_finds_the_place, maps_places, place_of, Place, FIRST_USER_SLOT, ROOT_SLOT};
use crate::mft::record::{LinkView, Record, RecordView};
use crate::path::{FolderPath, PathView};
use crate::scan::{texts_of, Progress, ProgressView, Report};
use crate::text::{decimal, digits, join3};
use crate::time::Duration;
use crate::tree::{added_up, adding_up_gives_sizes, aggregate, children_of, latest, nested, shaped, sizes_add_up, totals_do_not_move_folders, saturated, totals_in_any_order, tree_of, Node, NodeView, Totals};
use crate::whole::{all_starting, root_shows_everything};

verus! {

/// One name of one record.
pub struct Entry {
    pub key: u64,
    pub link: LinkView,
}

/// How many keys of `order` have not been seen.
pub open spec fn unseen(order: Seq<u64>, seen: Set<u64>) -> nat
    decreases order.len(),
{
    if order.len() == 0 {
        0
    } else {
        unseen(order.drop_last(), seen) + if seen.contains(order.last()) {
            0nat
        } else {
            1nat
        }
    }
}

/// Seeing one more key leaves fewer unseen.
pub proof fn unseen_shrinks(order: Seq<u64>, seen: Set<u64>, key: u64)
    ensures
        unseen(order, seen.insert(key)) <= unseen(order, seen),
        order.contains(key) && !seen.contains(key) ==> unseen(order, seen.insert(key)) < unseen(
            order,
            seen,
        ),
    decreases order.len(),
{
    if order.len() > 0 {
        unseen_shrinks(order.drop_last(), seen, key);
        if order.contains(key) && order.last() != key {
            let i = choose|i: int| 0 <= i < order.len() && order[i] == key;
            assert(order.drop_last()[i] == key);
        }
    }
}

impl IndexView {
    /// Whether the way up from `ancestor`, after the folders in `seen`, ends
    /// nowhere: at a record that never came, at one without a name, or in a circle.
    pub open spec fn is_lost(self, places: Seq<Place>, seen: Set<u64>, ancestor: u64) -> bool
        decreases unseen(self.order, seen),
    {
        let rec = self.records[ancestor];
        if (slot(ancestor) < FIRST_USER_SLOT && slot(ancestor) != ROOT_SLOT) || has_place(
            places,
            ancestor,
        ) {
            false
        } else if !self.order.contains(ancestor) {
            true
        } else if rec.reparse {
            false
        } else if seen.contains(ancestor) || rec.links.len() == 0 {
            true
        } else {
            proof {
                unseen_shrinks(self.order, seen, ancestor);
            }
            self.is_lost(places, seen.insert(ancestor), rec.links[0].parent)
        }
    }

    /// Whether a record cannot be shown, and that was not to be expected.
    pub open spec fn is_stray(self, places: Seq<Place>, key: u64) -> bool {
        let rec = self.records[key];
        slot(key) >= FIRST_USER_SLOT && !has_place(places, key) && (!rec.base_seen || rec.links.len()
            == 0 || (rec.directory && self.is_lost(places, Set::empty(), key)))
    }

    /// How many of the first `n` records are stray.
    pub open spec fn strays(self, places: Seq<Place>, n: int) -> nat
        decreases n,
    {
        if n <= 0 {
            0
        } else {
            self.strays(places, n - 1) + if self.is_stray(places, self.order[n - 1]) {
                1nat
            } else {
                0nat
            }
        }
    }

    /// Whether the names of a record count.
    pub open spec fn counts(self, key: u64) -> bool {
        self.records[key].base_seen && slot(key) >= FIRST_USER_SLOT
    }

    /// The first `n` names of the record under `key`.
    pub open spec fn names_of(self, key: u64, n: int) -> Seq<Entry> {
        Seq::new(n as nat, |j: int| Entry { key, link: self.records[key].links[j] })
    }

    /// All names of the first `n` records that count.
    pub open spec fn entries(self, n: int) -> Seq<Entry>
        decreases n,
    {
        if n <= 0 {
            seq![]
        } else if self.counts(self.order[n - 1]) {
            self.entries(n - 1) + self.names_of(
                self.order[n - 1],
                self.records[self.order[n - 1]].links.len() as int,
            )
        } else {
            self.entries(n - 1)
        }
    }

    /// What one name of a file adds to the folder that holds it.
    pub open spec fn file_totals(self, rec: RecordView) -> Totals {
        Totals {
            bytes: match rec.bytes {
                Some(n) => n,
                None => 0,
            },
            files: 1,
            modified: rec.modified,
            accessed: rec.accessed,
            missing_modified: rec.modified is None,
            missing_accessed: rec.accessed is None,
            incomplete: self.lacks_parts(rec) || rec.bytes is None,
        }
    }

    /// Whether a name is one of a file that is counted.
    pub open spec fn is_counted(self, places: Seq<Place>, entry: Entry) -> bool {
        has_place(places, entry.link.parent) && !self.records[entry.key].reparse
            && !self.records[entry.key].directory
    }

    /// Whether a name is one of a link that the map shows but does not follow.
    pub open spec fn is_skipped(self, places: Seq<Place>, entry: Entry) -> bool {
        has_place(places, entry.link.parent) && self.records[entry.key].reparse
    }

    /// Whether a name stands in a folder that never came.
    pub open spec fn is_orphan(self, places: Seq<Place>, entry: Entry) -> bool {
        !has_place(places, entry.link.parent) && !self.records.contains_key(entry.link.parent)
    }

    /// What one name adds to the folder at place `p`.
    pub open spec fn entry_totals(self, places: Seq<Place>, entry: Entry, p: int) -> Totals {
        if place_of(places, entry.link.parent) != Some(p) {
            Totals::nothing()
        } else if self.is_skipped(places, entry) {
            Totals { incomplete: true, ..Totals::nothing() }
        } else if self.is_counted(places, entry) {
            self.file_totals(self.records[entry.key])
        } else {
            Totals::nothing()
        }
    }

    /// What names add to the folder at place `p`.
    pub open spec fn direct_totals(self, places: Seq<Place>, entries: Seq<Entry>, p: int) -> Totals
        decreases entries.len(),
    {
        if entries.len() == 0 {
            Totals::nothing()
        } else {
            self.direct_totals(places, entries.drop_last(), p).plus(
                self.entry_totals(places, entries.last(), p),
            )
        }
    }

    /// The size and number of all counted files.
    pub open spec fn counted(self, places: Seq<Place>, entries: Seq<Entry>) -> Totals
        decreases entries.len(),
    {
        if entries.len() == 0 {
            Totals::nothing()
        } else {
            let rest = self.counted(places, entries.drop_last());
            if self.is_counted(places, entries.last()) {
                rest.plus(self.file_totals(self.records[entries.last().key]))
            } else {
                rest
            }
        }
    }

    /// How many names are those of skipped links.
    pub open spec fn skipped(self, places: Seq<Place>, entries: Seq<Entry>) -> nat
        decreases entries.len(),
    {
        if entries.len() == 0 {
            0
        } else {
            self.skipped(places, entries.drop_last()) + if self.is_skipped(places, entries.last()) {
                1nat
            } else {
                0nat
            }
        }
    }

    /// How many names stand in folders that never came.
    pub open spec fn orphans(self, places: Seq<Place>, entries: Seq<Entry>) -> nat
        decreases entries.len(),
    {
        if entries.len() == 0 {
            0
        } else {
            self.orphans(places, entries.drop_last()) + if self.is_orphan(places, entries.last()) {
                1nat
            } else {
                0nat
            }
        }
    }

    /// How many of the first `n` records lack a part.
    pub open spec fn unverified(self, n: int) -> nat
        decreases n,
    {
        if n <= 0 {
            0
        } else {
            let rec = self.records[self.order[n - 1]];
            self.unverified(n - 1) + if rec.base_seen && self.lacks_parts(rec) {
                1nat
            } else {
                0nat
            }
        }
    }

    /// How many records and names could not be brought into the map; a volume
    /// without a root folder counts as one more.
    pub open spec fn errors(self, places: Seq<Place>) -> nat {
        let n = self.order.len() as int;
        self.strays(places, n) + self.orphans(places, self.entries(n)) + if self.root_from(
            0,
        ) is None {
            1nat
        } else {
            0nat
        }
    }

    /// The folder at place `i` with its direct files, before subfolders are added.
    pub open spec fn counted_node(self, places: Seq<Place>, i: int) -> NodeView {
        let n = self.order.len() as int;
        node_with_files(
            self.folder_node(places, i),
            self.direct_totals(places, self.entries(n), i),
            i == 0 && self.errors(places) > 0,
        )
    }

    /// The map before subfolders are added.
    pub open spec fn counted_nodes(self, root: PathView) -> Seq<NodeView> {
        let places = self.places(root);
        Seq::new(places.len(), |i: int| self.counted_node(places, i))
    }

    /// The progress that goes with the map.
    pub open spec fn final_progress(self, root: PathView, p: ProgressView) -> ProgressView {
        let places = self.places(root);
        let entries = self.entries(self.order.len() as int);
        ProgressView {
            bytes: self.counted(places, entries).bytes,
            files: self.counted(places, entries).files,
            skipped: saturated(self.skipped(places, entries) as int),
            errors: saturated(self.errors(places) as int),
            folders: places.len() as usize,
            ..p
        }
    }

    /// What is to be said about the map.
    pub open spec fn issues(self, root: PathView) -> Seq<Seq<char>> {
        let errors = saturated(self.errors(self.places(root)) as int);
        let unverified = saturated(self.unverified(self.order.len() as int) as int);
        (if errors > 0 {
            seq![
                "MFT: 부모 참조를 확인하지 못한 항목 "@ + digits(errors as int)
                    + "개 (스캔 중 변경 또는 아직 읽지 않은 레코드)"@,
            ]
        } else {
            seq![]
        }) + (if unverified > 0 {
            seq![
                "MFT: 확장 속성 목록을 완전히 검증하지 못한 레코드 "@ + digits(unverified as int)
                    + "개. 해당 폴더는 부분 집계입니다."@,
            ]
        } else {
            seq![]
        })
    }
}

/// A folder with the files directly inside it.
pub open spec fn node_with_files(node: NodeView, files: Totals, marked: bool) -> NodeView {
    NodeView {
        own_bytes: saturated(node.own_bytes + files.bytes),
        files: saturated(node.files + files.files),
        modified: crate::time::later(node.modified, files.modified),
        accessed: crate::time::later(node.accessed, files.accessed),
        missing_modified: node.missing_modified || files.missing_modified,
        missing_accessed: node.missing_accessed || files.missing_accessed,
        incomplete: node.incomplete || files.incomplete || marked,
        ..node
    }
}

proof fn files_come_one_by_one(node: NodeView, a: Totals, b: Totals, marked: bool)
    ensures
        node_with_files(node_with_files(node, a, marked), b, false) == node_with_files(
            node,
            a.plus(b),
            marked,
        ),
        node_with_files(node, a, marked) == node_with_files(node, a.plus(Totals::nothing()), marked),
{
    totals_in_any_order(a, Totals::nothing(), Totals::nothing());
    crate::time::later_is_associative_and_commutative(node.modified, a.modified, b.modified);
    crate::time::later_is_associative_and_commutative(node.accessed, a.accessed, b.accessed);
}

impl Node {
    /// Adds a file that lies directly in the folder.
    pub fn add_file(&mut self, file: &Totals)
        ensures
            final(self)@ == node_with_files(old(self)@, *file, false),
    {
        self.own_bytes = self.own_bytes.saturating_add(file.bytes);
        self.files = self.files.saturating_add(file.files);
        self.modified = latest(self.modified, file.modified);
        self.accessed = latest(self.accessed, file.accessed);
        self.missing_modified = self.missing_modified || file.missing_modified;
        self.missing_accessed = self.missing_accessed || file.missing_accessed;
        self.incomplete = self.incomplete || file.incomplete;
    }
}

/// Whether the way up from `key` ends nowhere.
fn is_lost(index: &Index, mapping: &HashMap<u64, usize>, key: u64, places: Ghost<Seq<Place>>) -> (r:
    bool)
    requires
        index.valid(),
        maps_places(mapping@, places@),
    ensures
        r == index@.is_lost(places@, Set::empty(), key),
{
    broadcast use vstd::std_specs::hash::group_hash_axioms;

    let ghost ix = index@;
    let mut seen: HashSet<u64> = HashSet::new();
    let mut ancestor: u64 = key;
    proof {
        index_is_valid(index);
    }
    loop
        invariant
            index.valid(),
            ix == index@,
            ix.valid(),
            maps_places(mapping@, places@),
            ix.is_lost(places@, Set::empty(), key) == ix.is_lost(places@, seen@, ancestor),
        decreases unseen(ix.order, seen@),
    {
        proof {
            mapping_finds_the_place(mapping@, places@, ancestor);
            unseen_shrinks(ix.order, seen@, ancestor);
        }
        let number: u64 = ancestor & ID_MASK;
        if (number < FIRST_USER_SLOT && number != ROOT_SLOT) || mapping.contains_key(&ancestor) {
            return false;
        }
        match index.find(ancestor) {
            None => {
                assert(!ix.order.contains(ancestor));
                return true;
            },
            Some(rec) => {
                assert(ix.order.contains(ancestor));
                if rec.reparse {
                    return false;
                }
                if seen.contains(&ancestor) || rec.links.len() == 0 {
                    return true;
                }
                seen.insert(ancestor);
                assert(rec@.links[0] == rec.links@[0]@);
                ancestor = rec.links[0].parent;
            },
        }
    }
}

/// How many records are stray.
fn count_strays(index: &Index, mapping: &HashMap<u64, usize>, places: Ghost<Seq<Place>>) -> (r: u64)
    requires
        index.valid(),
        maps_places(mapping@, places@),
    ensures
        r == saturated(index@.strays(places@, index@.order.len() as int) as int),
{
    broadcast use vstd::std_specs::hash::group_hash_axioms;

    let ghost ix = index@;
    let mut errors: u64 = 0;
    let mut i: usize = 0;
    while i < index.len()
        invariant
            index.valid(),
            ix == index@,
            maps_places(mapping@, places@),
            i <= ix.order.len(),
            errors == saturated(ix.strays(places@, i as int) as int),
        decreases ix.order.len() - i,
    {
        let key: u64 = index.key_at(i);
        let rec = index.record_at(i);
        proof {
            mapping_finds_the_place(mapping@, places@, key);
        }
        if key & ID_MASK >= FIRST_USER_SLOT && !mapping.contains_key(&key) {
            if !rec.base_seen || rec.links.len() == 0 {
                errors = errors.saturating_add(1);
            } else if rec.directory && is_lost(index, mapping, key, places) {
                errors = errors.saturating_add(1);
            }
        }
        i += 1;
    }
    errors
}

/// How many records lack a part.
fn count_unverified(index: &Index) -> (r: u64)
    requires
        index.valid(),
    ensures
        r == saturated(index@.unverified(index@.order.len() as int) as int),
{
    let mut unverified: u64 = 0;
    let mut i: usize = 0;
    while i < index.len()
        invariant
            index.valid(),
            i <= index@.order.len(),
            unverified == saturated(index@.unverified(i as int) as int),
        decreases index@.order.len() - i,
    {
        let rec = index.record_at(i);
        if rec.base_seen && index.is_incomplete(rec) {
            unverified = unverified.saturating_add(1);
        }
        i += 1;
    }
    unverified
}

/// What the names of a volume add up to.
#[derive(Clone, Copy)]
struct Tally {
    counted: Totals,
    skipped: u64,
    orphans: u64,
}

/// Whether `tally` and `nodes` stand for the names in `entries`.
spec fn tallied(
    ix: IndexView,
    places: Seq<Place>,
    start: Seq<NodeView>,
    nodes: Seq<NodeView>,
    tally: Tally,
    entries: Seq<Entry>,
) -> bool {
    &&& nodes.len() == start.len()
    &&& forall|p: int|
        0 <= p < nodes.len() ==> #[trigger] nodes[p] == node_with_files(
            start[p],
            ix.direct_totals(places, entries, p),
            false,
        )
    &&& tally.counted == ix.counted(places, entries)
    &&& tally.skipped == saturated(ix.skipped(places, entries) as int)
    &&& tally.orphans == saturated(ix.orphans(places, entries) as int)
}

/// Counts one name.
fn count_name(
    index: &Index,
    nodes: &mut Vec<Node>,
    mapping: &HashMap<u64, usize>,
    tally: Tally,
    rec: &Record,
    parent: u64,
    places: Ghost<Seq<Place>>,
    start: Ghost<Seq<NodeView>>,
    done: Ghost<Seq<Entry>>,
    entry: Ghost<Entry>,
) -> (r: Tally)
    requires
        index.valid(),
        maps_places(mapping@, places@),
        places@.len() == start@.len(),
        entry@.link.parent == parent,
        rec@ == index@.records[entry@.key],
        tallied(index@, places@, start@, tree_of(old(nodes)@), tally, done@),
    ensures
        tallied(index@, places@, start@, tree_of(final(nodes)@), r, done@.push(entry@)),
{
    broadcast use vstd::std_specs::hash::group_hash_axioms;

    let ghost ix = index@;
    let ghost before = tree_of(nodes@);
    let mut tally: Tally = tally;
    proof {
        mapping_finds_the_place(mapping@, places@, parent);
        assert(done@.push(entry@).drop_last() =~= done@);
    }
    match mapping.get(&parent) {
        None => {
            if index.find(parent).is_none() {
                tally.orphans = tally.orphans.saturating_add(1);
            }
        },
        Some(at) => {
            let at: usize = *at;
            if rec.reparse {
                tally.skipped = tally.skipped.saturating_add(1);
                nodes[at].add_file(
                    &Totals {
                        bytes: 0,
                        files: 0,
                        modified: None,
                        accessed: None,
                        missing_modified: false,
                        missing_accessed: false,
                        incomplete: true,
                    },
                );
            } else if !rec.directory {
                let file = Totals {
                    bytes: match rec.bytes {
                        Some(n) => n,
                        None => 0,
                    },
                    files: 1,
                    modified: rec.modified,
                    accessed: rec.accessed,
                    missing_modified: rec.modified.is_none(),
                    missing_accessed: rec.accessed.is_none(),
                    incomplete: index.is_incomplete(rec) || rec.bytes.is_none(),
                };
                nodes[at].add_file(&file);
                let known = tally.counted;
                tally.counted = Totals {
                    bytes: known.bytes.saturating_add(file.bytes),
                    files: known.files.saturating_add(file.files),
                    modified: latest(known.modified, file.modified),
                    accessed: latest(known.accessed, file.accessed),
                    missing_modified: known.missing_modified || file.missing_modified,
                    missing_accessed: known.missing_accessed || file.missing_accessed,
                    incomplete: known.incomplete || file.incomplete,
                };
            }
        },
    }
    proof {
        let more = done@.push(entry@);
        let now = tree_of(nodes@);
        assert forall|p: int| 0 <= p < now.len() implies #[trigger] now[p] == node_with_files(
            start@[p],
            ix.direct_totals(places@, more, p),
            false,
        ) by {
            let one = ix.entry_totals(places@, entry@, p);
            assert(before[p] == node_with_files(
                start@[p],
                ix.direct_totals(places@, done@, p),
                false,
            ));
            files_come_one_by_one(start@[p], ix.direct_totals(places@, done@, p), one, false);
            assert(now[p] == nodes@[p]@);
        }
    }
    tally
}

/// Counts every name of every record that counts.
fn count_names(
    index: &Index,
    nodes: &mut Vec<Node>,
    mapping: &HashMap<u64, usize>,
    places: Ghost<Seq<Place>>,
) -> (r: Tally)
    requires
        index.valid(),
        maps_places(mapping@, places@),
        places@.len() == old(nodes)@.len(),
    ensures
        tallied(
            index@,
            places@,
            tree_of(old(nodes)@),
            tree_of(final(nodes)@),
            r,
            index@.entries(index@.order.len() as int),
        ),
{
    let ghost ix = index@;
    let ghost start = tree_of(nodes@);
    let mut tally = Tally {
        counted: Totals {
            bytes: 0,
            files: 0,
            modified: None,
            accessed: None,
            missing_modified: false,
            missing_accessed: false,
            incomplete: false,
        },
        skipped: 0,
        orphans: 0,
    };
    let mut i: usize = 0;
    proof {
        assert forall|p: int| 0 <= p < start.len() implies start[p] == node_with_files(
            #[trigger] start[p],
            Totals::nothing(),
            false,
        ) by {
            crate::time::later_is_associative_and_commutative(start[p].modified, None, None);
            crate::time::later_is_associative_and_commutative(start[p].accessed, None, None);
        }
    }
    while i < index.len()
        invariant
            index.valid(),
            ix == index@,
            maps_places(mapping@, places@),
            places@.len() == start.len(),
            i <= ix.order.len(),
            tallied(ix, places@, start, tree_of(nodes@), tally, ix.entries(i as int)),
        decreases ix.order.len() - i,
    {
        let key: u64 = index.key_at(i);
        let rec = index.record_at(i);
        if rec.base_seen && key & ID_MASK >= FIRST_USER_SLOT {
            let ghost earlier = ix.entries(i as int);
            let mut j: usize = 0;
            assert(earlier + ix.names_of(key, 0) =~= earlier);
            while j < rec.links.len()
                invariant
                    index.valid(),
                    ix == index@,
                    maps_places(mapping@, places@),
                    places@.len() == start.len(),
                    rec@ == ix.records[key],
                    j <= rec.links@.len(),
                    tallied(
                        ix,
                        places@,
                        start,
                        tree_of(nodes@),
                        tally,
                        earlier + ix.names_of(key, j as int),
                    ),
                decreases rec.links@.len() - j,
            {
                let ghost done = earlier + ix.names_of(key, j as int);
                let ghost entry = Entry { key, link: rec@.links[j as int] };
                assert(rec@.links[j as int] == rec.links@[j as int]@);
                let parent: u64 = rec.links[j].parent;
                tally = count_name(
                    index,
                    nodes,
                    mapping,
                    tally,
                    rec,
                    parent,
                    places,
                    Ghost(start),
                    Ghost(done),
                    Ghost(entry),
                );
                j += 1;
                assert(done.push(entry) =~= earlier + ix.names_of(key, j as int));
            }
        }
        i += 1;
    }
    tally
}

/// What names add to the first `n` places together.
spec fn over_places(ix: IndexView, places: Seq<Place>, entries: Seq<Entry>, n: int) -> Totals
    decreases n,
{
    if n <= 0 {
        Totals::nothing()
    } else {
        over_places(ix, places, entries, n - 1).plus(ix.direct_totals(places, entries, n - 1))
    }
}

/// What one name adds to the first `n` places together.
spec fn one_over_places(ix: IndexView, places: Seq<Place>, entry: Entry, n: int) -> Totals
    decreases n,
{
    if n <= 0 {
        Totals::nothing()
    } else {
        one_over_places(ix, places, entry, n - 1).plus(ix.entry_totals(places, entry, n - 1))
    }
}

proof fn over_places_grows(
    ix: IndexView,
    places: Seq<Place>,
    entries: Seq<Entry>,
    entry: Entry,
    n: int,
)
    ensures
        over_places(ix, places, entries.push(entry), n) == over_places(
            ix,
            places,
            entries,
            n,
        ).plus(one_over_places(ix, places, entry, n)),
    decreases n,
{
    if n <= 0 {
        totals_in_any_order(Totals::nothing(), Totals::nothing(), Totals::nothing());
    } else {
        over_places_grows(ix, places, entries, entry, n - 1);
        assert(entries.push(entry).drop_last() =~= entries);
        let a = over_places(ix, places, entries, n - 1);
        let b = one_over_places(ix, places, entry, n - 1);
        let c = ix.direct_totals(places, entries, n - 1);
        let d = ix.entry_totals(places, entry, n - 1);
        // (a + b) + (c + d) == (a + c) + (b + d)
        totals_in_any_order(a.plus(b), c, d);
        totals_in_any_order(a, b, c);
        totals_in_any_order(a.plus(c), b, d);
    }
}

proof fn one_name_counts_once(ix: IndexView, places: Seq<Place>, entry: Entry, n: int)
    requires
        0 <= n <= places.len(),
    ensures
        ({
            let here = place_of(places, entry.link.parent) matches Some(p) && p < n;
            let all = one_over_places(ix, places, entry, n);
            if here && ix.is_counted(places, entry) {
                all.bytes == ix.file_totals(ix.records[entry.key]).bytes && all.files == 1
            } else {
                all.bytes == 0 && all.files == 0
            }
        }),
    decreases n,
{
    if has_place(places, entry.link.parent) {
        let p = choose|i: int|
            0 <= i < places.len() && (#[trigger] places[i]).key == Some(entry.link.parent);
        assert(place_of(places, entry.link.parent) == Some(p));
    }
    if n > 0 {
        one_name_counts_once(ix, places, entry, n - 1);
    }
}

proof fn places_share_what_is_counted(ix: IndexView, places: Seq<Place>, entries: Seq<Entry>)
    ensures
        over_places(ix, places, entries, places.len() as int).bytes == ix.counted(
            places,
            entries,
        ).bytes,
        over_places(ix, places, entries, places.len() as int).files == ix.counted(
            places,
            entries,
        ).files,
    decreases entries.len(),
{
    let n = places.len() as int;
    if entries.len() == 0 {
        nothing_over_places(ix, places, entries, n);
    } else {
        let rest = entries.drop_last();
        let entry = entries.last();
        places_share_what_is_counted(ix, places, rest);
        assert(rest.push(entry) =~= entries);
        over_places_grows(ix, places, rest, entry, n);
        one_name_counts_once(ix, places, entry, n);
        if has_place(places, entry.link.parent) {
            let p = choose|i: int|
                0 <= i < places.len() && (#[trigger] places[i]).key == Some(entry.link.parent);
            assert(place_of(places, entry.link.parent) == Some(p));
        }
    }
}

proof fn nothing_over_places(ix: IndexView, places: Seq<Place>, entries: Seq<Entry>, n: int)
    requires
        entries.len() == 0,
    ensures
        over_places(ix, places, entries, n) == Totals::nothing(),
    decreases n,
{
    if n > 0 {
        nothing_over_places(ix, places, entries, n - 1);
        totals_in_any_order(Totals::nothing(), Totals::nothing(), Totals::nothing());
    }
}

/// Folders start with what their names add.
proof fn folders_share_what_is_counted(
    ix: IndexView,
    root: PathView,
    partial: bool,
    n: int,
)
    requires
        0 <= n <= ix.places(root).len(),
    ensures
        ({
            let entries = ix.entries(ix.order.len() as int);
            let all = over_places(ix, ix.places(root), entries, n);
            let start = all_starting(ix.counted_nodes(root), partial, n);
            start.bytes == all.bytes && start.files == all.files
        }),
    decreases n,
{
    if n > 0 {
        folders_share_what_is_counted(ix, root, partial, n - 1);
        assert(ix.counted_nodes(root)[n - 1] == ix.counted_node(ix.places(root), n - 1));
    }
}

/// The root stays in the first place.
proof fn first_place_is_the_root(ix: IndexView, places: Seq<Place>, next: int)
    requires
        places.len() > 0,
    ensures
        ix.placed(places, next).len() > 0,
        ix.placed(places, next)[0] == places[0],
    decreases ix.order.len() - next,
{
    if next < places.len() && next < ix.order.len() {
        if let Some(key) = places[next].key {
            let more = places + ix.below(places[next], next, ix.folders_in(key));
            first_place_is_the_root(ix, more, next + 1);
            assert(more[0] == places[0]);
        }
    }
}

impl Index {
    /// The map of the volume below `root`, as far as its records are known.
    pub fn report(
        &self,
        root: &FolderPath,
        p: Progress,
        scanning: bool,
        cancelled: bool,
        elapsed: Duration,
    ) -> (r: Report)
        requires
            self.valid(),
        ensures
            added_up(self@.counted_nodes(root@), r@.nodes, scanning || cancelled),
            shaped(r@.nodes),
            nested(r@.nodes),
            sizes_add_up(r@.nodes),
            r@.nodes[0].path == root@,
            r@.progress.bytes == r@.nodes[0].bytes,
            r@.progress.files == r@.nodes[0].files,
            r@.progress == self@.final_progress(root@, p@),
            r@.issues == self@.issues(root@),
            r.scanning == scanning,
            r.cancelled == cancelled,
            r.elapsed == elapsed,
    {
        let ghost ix = self@;
        let ghost places = ix.places(root@);
        let mut p = p;
        let layout = lay_out(self, root);
        let mut nodes = layout.nodes;
        let mapping = layout.mapping;
        let ghost start = tree_of(nodes@);
        let strays: u64 = count_strays(self, &mapping, Ghost(places));
        let tally = count_names(self, &mut nodes, &mapping, Ghost(places));
        let ghost with_files = tree_of(nodes@);
        let mut errors: u64 = strays.saturating_add(tally.orphans);
        if find_root(self).is_none() {
            errors = errors.saturating_add(1);
        }
        if errors > 0 {
            nodes[0].incomplete = true;
        }
        p.bytes = tally.counted.bytes;
        p.files = tally.counted.files;
        p.skipped = tally.skipped;
        p.errors = errors;
        p.folders = nodes.len();
        let mut issues: Vec<String> = Vec::new();
        if errors > 0 {
            issues.push(
                join3(
                    "MFT: 부모 참조를 확인하지 못한 항목 ",
                    decimal(errors).as_str(),
                    "개 (스캔 중 변경 또는 아직 읽지 않은 레코드)",
                ),
            );
        }
        let unverified: u64 = count_unverified(self);
        if unverified > 0 {
            issues.push(
                join3(
                    "MFT: 확장 속성 목록을 완전히 검증하지 못한 레코드 ",
                    decimal(unverified).as_str(),
                    "개. 해당 폴더는 부분 집계입니다.",
                ),
            );
        }
        proof {
            let counted = ix.counted_nodes(root@);
            assert(tree_of(nodes@) =~= counted) by {
                assert forall|i: int| 0 <= i < counted.len() implies #[trigger] tree_of(nodes@)[i]
                    == counted[i] by {
                    assert(start[i] == ix.folder_node(places, i));
                    assert(with_files[i] == node_with_files(
                        start[i],
                        ix.direct_totals(places, ix.entries(ix.order.len() as int), i),
                        false,
                    ));
                    assert(counted[i] == ix.counted_node(places, i));
                    assert(errors > 0 <==> ix.errors(places) > 0);
                    if i == 0 && errors > 0 {
                        assert(nodes@[0]@ =~= NodeView { incomplete: true, ..with_files[0] });
                    } else {
                        assert(nodes@[i]@ == with_files[i]);
                    }
                }
            }
            assert forall|i: int| 0 <= i < counted.len() implies ((
            #[trigger] counted[i]).parent matches Some(q) ==> q < i) by {
                assert(counted[i].parent == places[i].parent);
            }
            assert(texts_of(issues@) =~= ix.issues(root@));
        }
        aggregate(&mut nodes, scanning || cancelled);
        let r = Report { nodes, progress: p, issues, cancelled, scanning, elapsed };
        proof {
            let counted = ix.counted_nodes(root@);
            assert(r.nodes.len() == counted.len());
            assert forall|i: int| 0 <= i < counted.len() implies (
            #[trigger] counted[i]).children == children_of(counted, i, counted.len() as int) by {
                positions_are_children(places, counted, i, counted.len() as int);
            }
            assert forall|i: int| 0 < i < counted.len() && (
            #[trigger] counted[i]).parent is Some implies counted[i].path.is_inside(
                counted[counted[i].parent->0 as int].path,
            ) by {
                assert(places[i].path.is_inside(places[places[i].parent->0 as int].path));
            }
            assert forall|i: int| 0 < i < counted.len() implies (
            #[trigger] counted[i]).parent is Some && (counted[i].parent->0 as int) < i by {
                assert(counted[i].parent == places[i].parent);
            }
            assert forall|i: int| 0 <= i < counted.len() implies (#[trigger] r@.nodes[i]).parent
                == counted[i].parent && r@.nodes[i].children == counted[i].children
                && r@.nodes[i].path == counted[i].path by {}
            totals_do_not_move_folders(counted, r@.nodes);
            adding_up_gives_sizes(counted, r@.nodes, scanning || cancelled);
            first_place_is_the_root(ix, seq![ix.root_place(root@)], 0);
            root_shows_everything(counted, r@.nodes, scanning || cancelled);
            folders_share_what_is_counted(ix, root@, scanning || cancelled, places.len() as int);
            places_share_what_is_counted(ix, places, ix.entries(ix.order.len() as int));
        }
        r
    }
}

} // verus!
