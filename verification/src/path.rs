//! Folder paths as a root and a list of names.
use vstd::prelude::*;
use crate::raw::{bytes_of_units, lossy, lossy_text, raw_bytes};
use crate::text::{decode_utf16, utf16_text};

verus! {

/// A folder path. `written` is its text. What it means are `root`, which stands
/// before the first name (`C:\\`, `/`, nothing for a relative path), and the
/// `names` below it; `separator` is put between two names. Two paths are the same
/// where they mean the same, however they are written. All text is held as UTF-16
/// code units, so that no name is lost.
#[derive(Debug)]
pub struct FolderPath {
    pub written: Vec<u16>,
    pub root: Vec<u16>,
    pub separator: u16,
    pub absolute: bool,
    pub names: Vec<Vec<u16>>,
}

/// What a `FolderPath` holds.
#[verifier::ext_equal]
pub struct PathView {
    pub written: Seq<u16>,
    pub root: Seq<u16>,
    pub separator: u16,
    pub absolute: bool,
    pub names: Seq<Seq<u16>>,
}

impl View for FolderPath {
    type V = PathView;

    open spec fn view(&self) -> PathView {
        PathView {
            written: self.written@,
            root: self.root@,
            separator: self.separator,
            absolute: self.absolute,
            names: Seq::new(self.names@.len(), |i: int| self.names@[i]@),
        }
    }
}

impl PathView {
    /// Whether both paths mean the same.
    pub open spec fn same(self, other: PathView) -> bool {
        &&& self.root == other.root
        &&& self.separator == other.separator
        &&& self.absolute == other.absolute
        &&& self.names == other.names
    }

    /// Whether a unit separates names where a path is written.
    pub open spec fn separates(self, unit: u16) -> bool {
        unit == self.separator || unit == SLASH
    }

    /// Whether a name is written behind a separator: not where one stands there
    /// already, nor directly behind a drive without a root folder, nor in an
    /// empty path.
    pub open spec fn needs_separator(self) -> bool {
        self.written.len() > 0 && self.written.len() != self.root.len() && !self.separates(
            self.written.last(),
        )
    }

    /// The path of `name` inside this folder.
    pub open spec fn join(self, name: Seq<u16>) -> PathView {
        PathView {
            written: if self.needs_separator() {
                self.written.push(self.separator) + name
            } else {
                self.written + name
            },
            names: self.names.push(name),
            ..self
        }
    }

    /// The path without its last name.
    pub open spec fn up(self) -> PathView {
        PathView { names: self.names.drop_last(), ..self }
    }

    /// Whether this folder lies directly inside `folder`.
    pub open spec fn is_inside(self, folder: PathView) -> bool {
        self.names.len() > 0 && self.up().same(folder)
    }

    /// The empty relative path.
    pub open spec fn empty() -> PathView {
        PathView {
            written: seq![],
            root: seq![],
            separator: SLASH,
            absolute: false,
            names: seq![],
        }
    }

    /// Units of the path as text. Where paths are bytes, names stand apart by
    /// slashes, and what is no UTF-8 is told from the bytes.
    pub open spec fn shown(self, units: Seq<u16>) -> Seq<char> {
        if self.separator == SLASH {
            lossy(raw_bytes(units))
        } else {
            decode_utf16(units)
        }
    }

    /// The path as text.
    pub open spec fn text(self) -> Seq<char> {
        self.shown(self.written)
    }

    /// The name that stands for the folder: its last one, or the whole path
    /// where that names no entry of a folder.
    pub open spec fn name_units(self) -> Seq<u16> {
        if self.has_name() {
            self.names.last()
        } else {
            self.written
        }
    }

    /// Whether the last name of a path names an entry of the folder above it.
    pub open spec fn has_name(self) -> bool {
        self.names.len() > 0 && self.names.last() != seq![DOT] && self.names.last() != seq![DOT, DOT]
    }

    /// The name that stands for the folder, as text.
    pub open spec fn name(self) -> Seq<char> {
        self.shown(self.name_units())
    }
}

/// A slash.
pub const SLASH: u16 = 47;

/// A full stop.
pub const DOT: u16 = 46;

/// A joined path lies inside the folder that was joined to.
pub proof fn joined_paths_are_inside(path: PathView, name: Seq<u16>)
    ensures
        path.join(name).is_inside(path),
{
    assert(path.names.push(name).drop_last() =~= path.names);
}

/// Whether two code unit sequences are equal.
pub fn same_units(a: &Vec<u16>, b: &Vec<u16>) -> (r: bool)
    ensures
        r == (a@ == b@),
{
    if a.len() != b.len() {
        return false;
    }
    let mut i: usize = 0;
    while i < a.len()
        invariant
            i <= a@.len(),
            a@.len() == b@.len(),
            forall|j: int| 0 <= j < i ==> a@[j] == b@[j],
        decreases a@.len() - i,
    {
        if a[i] != b[i] {
            return false;
        }
        i += 1;
    }
    assert(a@ =~= b@);
    true
}

/// A copy of a code unit sequence.
pub fn copy_units(a: &Vec<u16>) -> (r: Vec<u16>)
    ensures
        r@ == a@,
{
    let mut r: Vec<u16> = Vec::new();
    let mut i: usize = 0;
    while i < a.len()
        invariant
            i <= a@.len(),
            r@ == a@.take(i as int),
        decreases a@.len() - i,
    {
        r.push(a[i]);
        i += 1;
        assert(r@ =~= a@.take(i as int));
    }
    assert(r@ =~= a@);
    r
}

impl Clone for FolderPath {
    fn clone(&self) -> (r: FolderPath)
        ensures
            r@ == self@,
    {
        let mut names: Vec<Vec<u16>> = Vec::new();
        let mut i: usize = 0;
        while i < self.names.len()
            invariant
                i <= self.names@.len(),
                names@.len() == i,
                forall|j: int| 0 <= j < i ==> (#[trigger] names@[j])@ == self.names@[j]@,
            decreases self.names@.len() - i,
        {
            names.push(copy_units(&self.names[i]));
            i += 1;
        }
        let r = FolderPath {
            written: copy_units(&self.written),
            root: copy_units(&self.root),
            separator: self.separator,
            absolute: self.absolute,
            names,
        };
        assert(r@ =~= self@);
        r
    }
}

impl PartialEq for FolderPath {
    fn eq(&self, other: &FolderPath) -> (r: bool) {
        self.same(other)
    }
}

impl Eq for FolderPath {

}

impl vstd::std_specs::cmp::PartialEqSpecImpl for FolderPath {
    open spec fn obeys_eq_spec() -> bool {
        true
    }

    open spec fn eq_spec(&self, other: &FolderPath) -> bool {
        self@.same(other@)
    }
}

impl FolderPath {
    /// The empty relative path.
    pub fn empty() -> (r: FolderPath)
        ensures
            r@ == PathView::empty(),
    {
        let r = FolderPath {
            written: Vec::new(),
            root: Vec::new(),
            separator: SLASH,
            absolute: false,
            names: Vec::new(),
        };
        assert(r@ =~= PathView::empty());
        r
    }

    /// Units of the path as text.
    fn shown(&self, units: &Vec<u16>) -> (r: String)
        ensures
            r@ == self@.shown(units@),
    {
        if self.separator == SLASH {
            lossy_text(&bytes_of_units(units))
        } else {
            utf16_text(units)
        }
    }

    /// The path as text.
    pub fn text(&self) -> (r: String)
        ensures
            r@ == self@.text(),
    {
        self.shown(&self.written)
    }

    /// The name that stands for the folder, as text.
    pub fn name(&self) -> (r: String)
        ensures
            r@ == self@.name(),
    {
        self.shown(&self.name_units())
    }

    /// The name that stands for the folder, as units.
    pub fn name_units(&self) -> (r: Vec<u16>)
        ensures
            r@ == self@.name_units(),
    {
        if self.has_name() {
            let last = &self.names[self.names.len() - 1];
            assert(self@.names.last() == last@);
            copy_units(last)
        } else {
            copy_units(&self.written)
        }
    }

    /// Whether the last name of the path names an entry of the folder above it.
    pub fn has_name(&self) -> (r: bool)
        ensures
            r == self@.has_name(),
    {
        let n: usize = self.names.len();
        if n == 0 {
            return false;
        }
        let last = &self.names[n - 1];
        assert(self@.names.last() == last@);
        let dots: bool = (last.len() == 1 && last[0] == DOT) || (last.len() == 2 && last[0] == DOT
            && last[1] == DOT);
        assert(dots ==> last@ =~= seq![DOT] || last@ =~= seq![DOT, DOT]);
        assert(last@ == seq![DOT] ==> last@[0] == DOT && last@.len() == 1);
        assert(last@ == seq![DOT, DOT] ==> last@[0] == DOT && last@[1] == DOT && last@.len() == 2);
        !dots
    }

    /// Whether both paths mean the same.
    pub fn same(&self, other: &FolderPath) -> (r: bool)
        ensures
            r == self@.same(other@),
    {
        if self.absolute != other.absolute || self.separator != other.separator || !same_units(&self.root, &other.root)
            || self.names.len() != other.names.len() {
            assert(self@.names.len() == self.names@.len() && other@.names.len()
                == other.names@.len());
            return false;
        }
        let mut i: usize = 0;
        while i < self.names.len()
            invariant
                i <= self.names@.len(),
                self.names@.len() == other.names@.len(),
                self.absolute == other.absolute,
                self.separator == other.separator,
                self.root@ == other.root@,
                forall|j: int| 0 <= j < i ==> self@.names[j] == other@.names[j],
            decreases self.names@.len() - i,
        {
            if !same_units(&self.names[i], &other.names[i]) {
                assert(self@.names[i as int] != other@.names[i as int]);
                return false;
            }
            i += 1;
        }
        assert(self@.names =~= other@.names);
        true
    }

    /// The path of `name` inside this folder.
    pub fn join(&self, name: &Vec<u16>) -> (r: FolderPath)
        ensures
            r@ == self@.join(name@),
    {
        let mut r = self.clone();
        let n: usize = self.written.len();
        if n > 0 && n != self.root.len() && self.written[n - 1] != self.separator && self.written[n
            - 1] != SLASH {
            r.written.push(self.separator);
        }
        let ghost started = r.written@;
        let mut i: usize = 0;
        assert(name@.take(0) =~= seq![]);
        assert(started + name@.take(0) =~= started);
        while i < name.len()
            invariant
                i <= name@.len(),
                r.written@ == started + name@.take(i as int),
                r@ == (PathView { written: r.written@, ..self@ }),
            decreases name@.len() - i,
        {
            let ghost before = r@;
            r.written.push(name[i]);
            i += 1;
            assert(r.written@ =~= started + name@.take(i as int));
            assert(r@ =~= PathView { written: r.written@, ..before });
        }
        assert(name@.take(i as int) =~= name@);
        r.names.push(copy_units(name));
        assert(r@.names =~= self@.names.push(name@));
        r
    }

    /// Whether this folder lies directly inside `folder`.
    pub fn is_directly_inside(&self, folder: &FolderPath) -> (r: bool)
        ensures
            r == self@.is_inside(folder@),
    {
        if self.names.len() == 0 || self.names.len() - 1 != folder.names.len()
            || self.absolute != folder.absolute || self.separator != folder.separator || !same_units(&self.root, &folder.root) {
            assert(self@.names.len() == self.names@.len() && folder@.names.len()
                == folder.names@.len());
            return false;
        }
        let mut i: usize = 0;
        while i < folder.names.len()
            invariant
                i <= folder.names@.len(),
                self.names@.len() == folder.names@.len() + 1,
                self.absolute == folder.absolute,
                self.separator == folder.separator,
                self.root@ == folder.root@,
                forall|j: int| 0 <= j < i ==> self@.names[j] == folder@.names[j],
            decreases folder.names@.len() - i,
        {
            if !same_units(&self.names[i], &folder.names[i]) {
                assert(self@.names.drop_last()[i as int] != folder@.names[i as int]);
                return false;
            }
            i += 1;
        }
        assert(self@.names.drop_last() =~= folder@.names);
        true
    }
}

} // verus!
