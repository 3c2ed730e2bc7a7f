//! The records of a whole volume, and the map they add up to.
use std::collections::HashMap;
use vstd::prelude::*;
use crate::mft::record::{add_link, link_views, with_link, LinkView, Record, RecordView};
use crate::time::later;
use crate::tree::latest;

verus! {

/// Selects the record number of a reference; the bits above count how often the slot was reused.
pub const ID_MASK: u64 = 0xFFFF_FFFF_FFFF;

/// The number of the record that a reference means.
pub open spec fn slot(reference: u64) -> u64 {
    reference & ID_MASK
}

/// Records by the reference of their base, and which base each extension
/// record belongs to.
pub struct Index {
    keys: Vec<u64>,
    records: Vec<Record>,
    positions: HashMap<u64, usize>,
    extensions: HashMap<u64, u64>,
}

/// What an `Index` holds. `order` lists the keys of `records` as they first came.
#[verifier::ext_equal]
pub struct IndexView {
    pub order: Seq<u64>,
    pub records: Map<u64, RecordView>,
    pub extensions: Map<u64, u64>,
}

/// `links` followed by those of `more` that are new.
pub open spec fn with_links(links: Seq<LinkView>, more: Seq<LinkView>) -> Seq<LinkView>
    decreases more.len(),
{
    if more.len() == 0 {
        links
    } else {
        with_link(with_links(links, more.drop_last()), more.last())
    }
}

impl RecordView {
    /// The key under which a record is kept: its base, or itself where it is one.
    pub open spec fn key(self) -> u64 {
        if self.base == 0 {
            self.reference
        } else {
            self.base
        }
    }

    /// Whether two parts of one record disagree on its length.
    pub open spec fn conflicts_with(self, part: RecordView) -> bool {
        self.bytes is Some && part.bytes is Some && self.bytes != part.bytes
    }

    /// The record with one more part of it.
    pub open spec fn merged(self, part: RecordView) -> RecordView {
        RecordView {
            reference: if part.base_seen {
                part.reference
            } else {
                self.reference
            },
            base: if part.base_seen {
                0
            } else {
                self.base
            },
            base_seen: self.base_seen || part.base_seen,
            directory: if part.base_seen {
                part.directory
            } else {
                self.directory
            },
            reparse: self.reparse || part.reparse,
            links: with_links(self.links, part.links),
            bytes: if self.bytes is Some {
                self.bytes
            } else {
                part.bytes
            },
            modified: later(self.modified, part.modified),
            accessed: later(self.accessed, part.accessed),
            expected: self.expected + part.expected,
            incomplete: self.incomplete || part.incomplete,
        }
    }
}

impl IndexView {
    /// Every key stands in `order`, once, and has a record.
    pub open spec fn valid(self) -> bool {
        &&& self.order.no_duplicates()
        &&& forall|key: u64| #[trigger] self.order.contains(key) <==> self.records.contains_key(key)
    }

    /// The index after `rec` arrived. A part that conflicts leaves the records as they are.
    pub open spec fn inserted(self, rec: RecordView) -> IndexView {
        let key = rec.key();
        let extensions = if rec.base == 0 {
            self.extensions
        } else {
            self.extensions.insert(rec.reference, rec.base)
        };
        if !self.records.contains_key(key) {
            IndexView {
                order: self.order.push(key),
                records: self.records.insert(key, rec),
                extensions,
            }
        } else if self.records[key].conflicts_with(rec) {
            IndexView { extensions, ..self }
        } else {
            IndexView {
                order: self.order,
                records: self.records.insert(key, self.records[key].merged(rec)),
                extensions,
            }
        }
    }

    /// Whether a part of the record was announced and has not come, or was unreadable.
    pub open spec fn lacks_parts(self, rec: RecordView) -> bool {
        rec.incomplete || exists|i: int| 0 <= i < rec.expected.len() && self.part_missing(rec, i)
    }

    /// Whether the `i`th announced part of the record has not come.
    pub open spec fn part_missing(self, rec: RecordView, i: int) -> bool {
        let part = rec.expected[i];
        part != rec.reference && !(self.extensions.contains_key(part) && self.extensions[part]
            == rec.reference)
    }
}

impl Index {
    pub closed spec fn valid(&self) -> bool {
        &&& self.keys@.len() == self.records@.len()
        &&& self.keys@.no_duplicates()
        &&& forall|i: int|
            0 <= i < self.keys@.len() ==> self.positions@.contains_key(#[trigger] self.keys@[i])
                && self.positions@[self.keys@[i]] == i
        &&& forall|key: u64| #[trigger]
            self.positions@.contains_key(key) ==> self.positions@[key] < self.keys@.len()
                && self.keys@[self.positions@[key] as int] == key
    }
}

impl View for Index {
    type V = IndexView;

    closed spec fn view(&self) -> IndexView {
        IndexView {
            order: self.keys@,
            records: Map::new(
                |key: u64| self.positions@.contains_key(key),
                |key: u64| self.records@[self.positions@[key] as int]@,
            ),
            extensions: self.extensions@,
        }
    }
}

/// A valid index has a valid view.
pub proof fn index_is_valid(index: &Index)
    requires
        index.valid(),
    ensures
        index@.valid(),
{
    assert forall|key: u64| #[trigger] index@.order.contains(key)
        <==> index@.records.contains_key(key) by {
        if index@.order.contains(key) {
            let i = choose|i: int| 0 <= i < index@.order.len() && index@.order[i] == key;
            assert(index.keys@[i] == key);
        }
        if index.positions@.contains_key(key) {
            assert(index@.order[index.positions@[key] as int] == key);
        }
    }
}

impl Default for Index {
    fn default() -> (r: Index)
        ensures
            r.valid(),
            r@ == (IndexView { order: seq![], records: Map::empty(), extensions: Map::empty() }),
    {
        broadcast use vstd::std_specs::hash::group_hash_axioms;

        let r = Index {
            keys: Vec::new(),
            records: Vec::new(),
            positions: HashMap::new(),
            extensions: HashMap::new(),
        };
        assert(r@ =~= (IndexView {
            order: seq![],
            records: Map::empty(),
            extensions: Map::empty(),
        }));
        r
    }
}

impl Record {
    /// Takes in one more part of the record.
    fn merge(&mut self, mut part: Record)
        ensures
            final(self)@ == old(self)@.merged(part@),
    {
        let ghost this = self@;
        let ghost other = part@;
        if self.bytes.is_none() {
            self.bytes = part.bytes;
        }
        self.modified = latest(self.modified, part.modified);
        self.accessed = latest(self.accessed, part.accessed);
        self.reparse = self.reparse || part.reparse;
        self.incomplete = self.incomplete || part.incomplete;
        self.expected.append(&mut part.expected);
        let mut i: usize = 0;
        assert(other.links.take(0) =~= seq![]);
        while i < part.links.len()
            invariant
                i <= part.links@.len(),
                other.links == link_views(part.links@),
                link_views(self.links@) == with_links(this.links, other.links.take(i as int)),
                self.bytes == (if this.bytes is Some {
                    this.bytes
                } else {
                    other.bytes
                }),
                self.modified == later(this.modified, other.modified),
                self.accessed == later(this.accessed, other.accessed),
                self.reparse == (this.reparse || other.reparse),
                self.incomplete == (this.incomplete || other.incomplete),
                self.expected@ == this.expected + other.expected,
                self.reference == this.reference,
                self.base == this.base,
                self.base_seen == this.base_seen,
                self.directory == this.directory,
                part.reference == other.reference,
                part.base_seen == other.base_seen,
                part.directory == other.directory,
            decreases part.links@.len() - i,
        {
            let link = part.links[i].clone();
            add_link(&mut self.links, link);
            i += 1;
            assert(other.links.take(i as int).drop_last() =~= other.links.take(i - 1));
        }
        assert(other.links.take(i as int) =~= other.links);
        if part.base_seen {
            self.reference = part.reference;
            self.base = 0;
            self.base_seen = true;
            self.directory = part.directory;
        }
    }
}

impl Index {
    /// Takes a record in. Parts of one record are put together, in whatever
    /// order they come; parts that disagree on the length are refused.
    pub fn insert(&mut self, rec: Record) -> (r: Result<(), String>)
        requires
            old(self).valid(),
        ensures
            final(self).valid(),
            final(self)@ == old(self)@.inserted(rec@),
            match r {
                Ok(_) => !(old(self)@.records.contains_key(rec@.key())
                    && old(self)@.records[rec@.key()].conflicts_with(rec@)),
                Err(e) => old(self)@.records.contains_key(rec@.key())
                    && old(self)@.records[rec@.key()].conflicts_with(rec@) && e@
                    == "Conflicting DATA lengths (MFT changed during scan)"@,
            },
    {
        broadcast use vstd::std_specs::hash::group_hash_axioms;

        let ghost before = *self;
        let key: u64 = if rec.base == 0 {
            rec.reference
        } else {
            self.extensions.insert(rec.reference, rec.base);
            rec.base
        };
        match self.positions.get(&key) {
            None => {
                let i: usize = self.keys.len();
                self.positions.insert(key, i);
                self.keys.push(key);
                self.records.push(rec);
                assert(self@ =~= before@.inserted(rec@));
                Ok(())
            },
            Some(at) => {
                let at: usize = *at;
                let known: Option<u64> = self.records[at].bytes;
                if let (Some(a), Some(b)) = (known, rec.bytes) {
                    if a != b {
                        assert(self@ =~= before@.inserted(rec@));
                        return Err(
                            "Conflicting DATA lengths (MFT changed during scan)".to_string(),
                        );
                    }
                }
                self.records[at].merge(rec);
                assert(self@ =~= before@.inserted(rec@));
                Ok(())
            },
        }
    }

    /// How many records there are.
    pub fn len(&self) -> (r: usize)
        requires
            self.valid(),
        ensures
            r == self@.order.len(),
    {
        self.keys.len()
    }

    /// The key that came as the `i`th, counted from 0.
    pub fn key_at(&self, i: usize) -> (r: u64)
        requires
            self.valid(),
            i < self@.order.len(),
        ensures
            r == self@.order[i as int],
    {
        self.keys[i]
    }

    /// The record that came as the `i`th, counted from 0.
    pub fn record_at(&self, i: usize) -> (r: &Record)
        requires
            self.valid(),
            i < self@.order.len(),
        ensures
            self@.records.contains_key(self@.order[i as int]),
            r@ == self@.records[self@.order[i as int]],
    {
        assert(self.positions@.contains_key(self.keys@[i as int]));
        &self.records[i]
    }

    /// The record under a key.
    pub fn find(&self, key: u64) -> (r: Option<&Record>)
        requires
            self.valid(),
        ensures
            match r {
                Some(rec) => self@.records.contains_key(key) && rec@ == self@.records[key],
                None => !self@.records.contains_key(key),
            },
    {
        broadcast use vstd::std_specs::hash::group_hash_axioms;

        match self.positions.get(&key) {
            Some(at) => Some(&self.records[*at]),
            None => None,
        }
    }

    /// Whether a part of the record was announced and has not come, or was unreadable.
    pub fn is_incomplete(&self, rec: &Record) -> (r: bool)
        ensures
            r == self@.lacks_parts(rec@),
    {
        broadcast use vstd::std_specs::hash::group_hash_axioms;

        if rec.incomplete {
            return true;
        }
        let mut i: usize = 0;
        while i < rec.expected.len()
            invariant
                i <= rec.expected@.len(),
                forall|j: int| 0 <= j < i ==> !#[trigger] self@.part_missing(rec@, j),
            decreases rec.expected@.len() - i,
        {
            let part: u64 = rec.expected[i];
            if part != rec.reference {
                let belongs: bool = match self.extensions.get(&part) {
                    Some(base) => *base == rec.reference,
                    None => false,
                };
                if !belongs {
                    assert(self@.part_missing(rec@, i as int));
                    return true;
                }
            }
            i += 1;
        }
        false
    }
}

} // verus!
