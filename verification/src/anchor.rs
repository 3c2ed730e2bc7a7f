//! Reading a path as it is written.
use vstd::prelude::*;
use crate::path::{copy_units, FolderPath, PathView, DOT, SLASH};

verus! {

/// What a system says of the start of a written path: the root that it stands
/// for, of the same length, and how the names behind it are told apart. In a
/// verbatim path only the separator itself separates, and a name may be a single
/// dot.
#[derive(Debug)]
pub struct Anchor {
    pub root: Vec<u16>,
    pub rooted: bool,
    pub absolute: bool,
    pub separator: u16,
    pub verbatim: bool,
}

/// What an `Anchor` holds.
#[verifier::ext_equal]
pub struct AnchorView {
    pub root: Seq<u16>,
    pub rooted: bool,
    pub absolute: bool,
    pub separator: u16,
    pub verbatim: bool,
}

impl View for Anchor {
    type V = AnchorView;

    open spec fn view(&self) -> AnchorView {
        AnchorView {
            root: self.root@,
            rooted: self.rooted,
            absolute: self.absolute,
            separator: self.separator,
            verbatim: self.verbatim,
        }
    }
}

impl AnchorView {
    /// Whether a unit stands between two names.
    pub open spec fn separates(self, unit: u16) -> bool {
        unit == self.separator || (unit == SLASH && !self.verbatim)
    }

    /// Names with one more, unless it is empty or a dot that says nothing: a dot
    /// counts in a verbatim path, and at the very start of one without a root.
    pub open spec fn with_name(self, names: Seq<Seq<u16>>, name: Seq<u16>, first: bool) -> Seq<
        Seq<u16>,
    > {
        if name.len() == 0 || (name == seq![DOT] && !(self.verbatim || (first && !self.rooted))) {
            names
        } else {
            names.push(name)
        }
    }

    /// The names that end in some units, and the start of the next one.
    pub open spec fn told_apart(self, units: Seq<u16>) -> (Seq<Seq<u16>>, Seq<u16>)
        decreases units.len(),
    {
        if units.len() == 0 {
            (seq![], seq![])
        } else {
            let rest = units.drop_last();
            let (names, name) = self.told_apart(rest);
            if self.separates(units.last()) {
                (self.with_name(names, name, name.len() == rest.len()), seq![])
            } else {
                (names, name.push(units.last()))
            }
        }
    }

    /// The names in some units.
    pub open spec fn names(self, units: Seq<u16>) -> Seq<Seq<u16>> {
        let (names, name) = self.told_apart(units);
        self.with_name(names, name, name.len() == units.len())
    }

    /// The path that is written with these units.
    pub open spec fn path(self, units: Seq<u16>) -> PathView {
        PathView {
            written: units,
            root: self.root,
            separator: self.separator,
            absolute: self.absolute,
            names: if self.root.len() <= units.len() {
                self.names(units.skip(self.root.len() as int))
            } else {
                seq![]
            },
        }
    }

    /// Whether a path is read as it is where it is written.
    pub open spec fn reads(self, path: PathView) -> bool {
        self.path(path.written) == path
    }

    /// Whether units can be the name of a folder.
    pub open spec fn is_name(self, name: Seq<u16>) -> bool {
        &&& name.len() > 0
        &&& name == seq![DOT] ==> self.verbatim
        &&& forall|i: int|
            0 <= i < name.len() ==> #[trigger] name[i] != self.separator && name[i] != SLASH
    }

    /// Whether names can be joined to a path: its root is written out, and in a
    /// verbatim path no slash stands at the end.
    pub open spec fn can_join(self, path: PathView) -> bool {
        &&& path.root.len() <= path.written.len() || (path.root.len() == path.written.len() + 1
            && path.needs_separator())
        &&& self.verbatim && path.written.len() > 0 ==> self.separates(path.written.last())
            == path.separates(path.written.last())
    }
}

/// Units without a separator go on with the name that they start.
pub proof fn a_name_stays_whole(anchor: AnchorView, before: Seq<u16>, name: Seq<u16>)
    requires
        forall|i: int| 0 <= i < name.len() ==> !anchor.separates(#[trigger] name[i]),
        anchor.told_apart(before).1.len() == 0,
    ensures
        anchor.told_apart(before + name) == (anchor.told_apart(before).0, name),
    decreases name.len(),
{
    let all = before + name;
    if name.len() == 0 {
        assert(all =~= before);
        assert(anchor.told_apart(before).1 =~= name);
    } else {
        let rest = name.drop_last();
        assert forall|i: int| 0 <= i < rest.len() implies !anchor.separates(#[trigger] rest[i]) by {
            assert(rest[i] == name[i]);
        }
        a_name_stays_whole(anchor, before, rest);
        assert(all.drop_last() =~= before + rest);
        assert(all.last() == name[name.len() - 1]);
        assert(rest.push(name.last()) =~= name);
    }
}

/// What is joined to a path that is read as it is, is read as it is as well.
pub proof fn joined_paths_are_read(anchor: AnchorView, path: PathView, name: Seq<u16>)
    requires
        anchor.reads(path),
        anchor.is_name(name),
        anchor.can_join(path),
    ensures
        anchor.reads(path.join(name)),
        anchor.can_join(path.join(name)),
{
    let n = path.root.len() as int;
    let joined = path.join(name);
    let sep = path.separator;
    if path.written.len() < n {
        assert(joined.written.skip(n) =~= seq![] + name);
        a_name_stays_whole(anchor, seq![], name);
        assert(joined.names =~= seq![name]);
    } else {
        let behind = path.written.skip(n);
        if path.needs_separator() {
            let before = behind.push(sep);
            assert(joined.written.skip(n) =~= before + name);
            assert(before.drop_last() =~= behind);
            assert(anchor.told_apart(before) == (path.names, Seq::<u16>::empty()));
            a_name_stays_whole(anchor, before, name);
        } else {
            assert(joined.written.skip(n) =~= behind + name);
            if behind.len() > 0 {
                assert(behind.last() == path.written.last());
            }
            assert(anchor.told_apart(behind).1.len() == 0);
            assert(anchor.told_apart(behind).0 == path.names);
            a_name_stays_whole(anchor, behind, name);
        }
    }
    assert(joined.written.last() == name[name.len() - 1]);
    assert(anchor.path(joined.written).names =~= joined.names);
}

impl Anchor {
    fn add_name(&self, names: &mut Vec<Vec<u16>>, name: Vec<u16>, first: bool)
        ensures
            names_of(final(names)@) == self@.with_name(names_of(old(names)@), name@, first),
    {
        let ghost before = names_of(names@);
        let dot: bool = name.len() == 1 && name[0] == DOT;
        assert(dot == (name@ == seq![DOT])) by {
            if dot {
                assert(name@ =~= seq![DOT]);
            }
        }
        if name.len() > 0 && (!dot || self.verbatim || (first && !self.rooted)) {
            let ghost added = name@;
            names.push(name);
            assert(names_of(names@) =~= before.push(added));
        }
    }

    /// The path that is written with these units.
    pub fn read(&self, units: &Vec<u16>) -> (r: FolderPath)
        ensures
            r@ == self@.path(units@),
    {
        let mut names: Vec<Vec<u16>> = Vec::new();
        if self.root.len() <= units.len() {
            let ghost behind = units@.skip(self.root@.len() as int);
            let mut name: Vec<u16> = Vec::new();
            let mut i: usize = self.root.len();
            assert(behind.take(0) =~= seq![]);
            assert(names_of(names@) =~= seq![]);
            while i < units.len()
                invariant
                    self.root@.len() <= i <= units@.len(),
                    behind == units@.skip(self.root@.len() as int),
                    self@.told_apart(behind.take(i - self.root@.len())) == (names_of(names@), name@),
                decreases units@.len() - i,
            {
                let unit: u16 = units[i];
                proof {
                    let more = behind.take(i + 1 - self.root@.len());
                    assert(more.drop_last() =~= behind.take(i - self.root@.len()));
                    assert(more.last() == unit);
                }
                if unit == self.separator || (unit == SLASH && !self.verbatim) {
                    let first: bool = name.len() == i - self.root.len();
                    self.add_name(&mut names, name, first);
                    name = Vec::new();
                    assert(name@ =~= seq![]);
                } else {
                    name.push(unit);
                }
                i += 1;
            }
            assert(behind.take(i - self.root@.len()) =~= behind);
            let first: bool = name.len() == units.len() - self.root.len();
            self.add_name(&mut names, name, first);
        } else {
            assert(names_of(names@) =~= seq![]);
        }
        let r = FolderPath {
            written: copy_units(units),
            root: copy_units(&self.root),
            separator: self.separator,
            absolute: self.absolute,
            names,
        };
        assert(r@.names =~= names_of(names@));
        r
    }
}

/// What a list of names holds.
pub open spec fn names_of(names: Seq<Vec<u16>>) -> Seq<Seq<u16>> {
    Seq::new(names.len(), |i: int| names[i]@)
}

} // verus!
