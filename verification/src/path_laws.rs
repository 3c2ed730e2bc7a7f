//! How paths are written and read.
use vstd::prelude::*;
use crate::anchor::{a_name_stays_whole, AnchorView};
use crate::path::PathView;

verus! {

/// A name is written behind the path of its folder, with a separator between them
/// unless one stands there already, the path is empty, or it is a bare drive. The path
/// has one name more and lies in the same root.
pub proof fn names_are_written_behind_their_folder(path: PathView, name: Seq<u16>)
    ensures
        ({
            let inside = path.join(name);
            let bare = path.written.len() == 0 || path.written.len() == path.root.len()
                || path.written.last() == path.separator || path.written.last() == 0x2f;
            &&& bare ==> inside.written == path.written + name
            &&& !bare ==> inside.written == path.written + seq![path.separator] + name
            &&& inside.names == path.names + seq![name]
            &&& inside.root == path.root
            &&& inside.separator == path.separator
            &&& inside.absolute == path.absolute
        }),
{
    assert(path.names.push(name) =~= path.names + seq![name]);
    assert(path.written.push(path.separator) =~= path.written + seq![path.separator]);
}

/// Two paths mean the same exactly where root, separator and all names are the same,
/// however they are written; a folder lies in another where its path without the last
/// name means that one.
pub proof fn paths_mean_their_names(a: PathView, b: PathView)
    ensures
        a.same(b) <==> a.root == b.root && a.separator == b.separator && a.absolute == b.absolute
            && a.names.len() == b.names.len() && forall|i: int|
            0 <= i < a.names.len() ==> #[trigger] a.names[i] == b.names[i],
        a.is_inside(b) <==> a.root == b.root && a.separator == b.separator && a.absolute
            == b.absolute && a.names.len() == b.names.len() + 1 && forall|i: int|
            0 <= i < b.names.len() ==> #[trigger] b.names[i] == a.names[i],
{
    if a.names.len() == b.names.len() && forall|i: int|
        0 <= i < a.names.len() ==> #[trigger] a.names[i] == b.names[i] {
        assert(a.names =~= b.names);
    }
    if a.names.len() == b.names.len() + 1 && forall|i: int|
        0 <= i < b.names.len() ==> #[trigger] b.names[i] == a.names[i] {
        assert(a.names.drop_last() =~= b.names);
    }
    if a.is_inside(b) {
        assert forall|i: int| 0 <= i < b.names.len() implies #[trigger] b.names[i] == a.names[i] by {
            assert(a.names.drop_last()[i] == a.names[i]);
        }
    }
}

/// A folder is called by its last name, and by its whole path where that is no name:
/// where there is none, or it is one dot or two.
pub proof fn folders_are_called_by_their_name(path: PathView)
    ensures
        path.has_name() <==> path.names.len() > 0 && path.names.last() != seq![0x2eu16]
            && path.names.last() != seq![0x2eu16, 0x2eu16],
        path.has_name() ==> path.name() == path.shown(path.names.last()),
        !path.has_name() ==> path.name() == path.text(),
{
}

/// Whether a unit stands between two names: the separator, and a slash where the path
/// is not taken word for word.
pub open spec fn is_between(anchor: AnchorView, unit: u16) -> bool {
    unit == anchor.separator || (unit == 0x2f && !anchor.verbatim)
}

/// Whether a part of a path counts as a name: it is not empty, and a dot counts only
/// where the path is taken word for word, or as the first part of one without a root.
pub open spec fn counts(anchor: AnchorView, part: Seq<u16>, first: bool) -> bool {
    part.len() > 0 && (part != seq![0x2eu16] || anchor.verbatim || (first && !anchor.rooted))
}

proof fn nothing_is_left_behind_a_separator(anchor: AnchorView, units: Seq<u16>, unit: u16)
    requires
        is_between(anchor, unit),
    ensures
        anchor.told_apart(units.push(unit)) == (anchor.names(units), Seq::<u16>::empty()),
{
    assert(units.push(unit).drop_last() =~= units);
}

/// A path is read part by part. One without separators is one part; a separator at the
/// end adds nothing; and a part behind a separator is one more name, where it counts.
pub proof fn paths_are_read_part_by_part(
    anchor: AnchorView,
    before: Seq<u16>,
    unit: u16,
    part: Seq<u16>,
)
    requires
        is_between(anchor, unit),
        forall|i: int| 0 <= i < part.len() ==> !is_between(anchor, #[trigger] part[i]),
    ensures
        anchor.names(part) == (if counts(anchor, part, true) {
            seq![part]
        } else {
            seq![]
        }),
        anchor.names(before.push(unit)) == anchor.names(before),
        anchor.names(before.push(unit) + part) == (if counts(anchor, part, false) {
            anchor.names(before).push(part)
        } else {
            anchor.names(before)
        }),
{
    let none = Seq::<u16>::empty();
    assert forall|i: int| 0 <= i < part.len() implies !anchor.separates(#[trigger] part[i]) by {
        assert(!is_between(anchor, part[i]));
    }
    assert(anchor.told_apart(none) == (Seq::<Seq<u16>>::empty(), none));
    a_name_stays_whole(anchor, none, part);
    assert(none + part =~= part);
    nothing_is_left_behind_a_separator(anchor, before, unit);
    let start = before.push(unit);
    a_name_stays_whole(anchor, start, part);
    assert((start + part).len() > part.len());
    assert(Seq::<Seq<u16>>::empty().push(part) =~= seq![part]);
}

/// A path that is written with some units has these units, the root and the separator
/// of its anchor, and the names behind the root.
pub proof fn paths_have_the_names_behind_their_root(anchor: AnchorView, root: Seq<u16>, rest: Seq<u16>)
    requires
        root.len() == anchor.root.len(),
    ensures
        ({
            let path = anchor.path(root + rest);
            &&& path.written == root + rest
            &&& path.root == anchor.root
            &&& path.separator == anchor.separator
            &&& path.absolute == anchor.absolute
            &&& path.names == anchor.names(rest)
        }),
{
    assert((root + rest).skip(anchor.root.len() as int) =~= rest);
}

} // verus!
