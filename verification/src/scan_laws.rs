//! What a scan knows of each folder, from the entries that were listed there.
use vstd::prelude::*;
use crate::below::{folders_show_everything_below, is_below, not_before, shows_sum};
use crate::path::PathView;
use crate::scan::{FoundView, ScannerView};
use crate::time::Timestamp;
use crate::tree::{added_up, shaped, NodeView};
use crate::walk::{is_walk, walked, Step};

verus! {

/// Whether a scan can take some steps, and takes in a folder's own metadata
/// right after it opened the folder.
pub open spec fn is_scan(start: PathView, steps: Seq<Step>) -> bool
    decreases steps.len(),
{
    steps.len() > 0 ==> {
        let rest = steps.drop_last();
        &&& is_scan(start, rest)
        &&& walked(start, rest).allows(steps.last())
        &&& steps.last() is Describe ==> rest.len() > 0 && rest.last() is Open && walked(
            start,
            rest.drop_last(),
        ).next < walked(start, rest.drop_last()).nodes.len()
    }
}

/// Whether a step that is `p` was taken while folder `i` was listed.
pub open spec fn met(start: PathView, steps: Seq<Step>, i: int, p: spec_fn(Step) -> bool) -> bool
    decreases steps.len(),
{
    steps.len() > 0 && (met(start, steps.drop_last(), i, p) || (walked(
        start,
        steps.drop_last(),
    ).next - 1 == i && p(steps.last())))
}

/// A file, or the folder's own metadata, with this date of the last change.
pub open spec fn changed(date: Option<Timestamp>) -> spec_fn(Step) -> bool {
    |step: Step|
        match step {
            Step::Describe(link, modified) => !link && modified == date,
            Step::Entry(FoundView::File(bytes, modified, accessed)) => modified == date,
            _ => false,
        }
}

/// A file with this date of the last access.
pub open spec fn accessed_at(date: Option<Timestamp>) -> spec_fn(Step) -> bool {
    |step: Step|
        match step {
            Step::Entry(FoundView::File(bytes, modified, accessed)) => accessed == date,
            _ => false,
        }
}

/// Something that could not be read.
pub open spec fn unread() -> spec_fn(Step) -> bool {
    |step: Step|
        match step {
            Step::Entry(FoundView::Unreadable(error)) => true,
            Step::Entry(FoundView::NoMetadata(name, error)) => true,
            _ => false,
        }
}

/// A link.
pub open spec fn link() -> spec_fn(Step) -> bool {
    |step: Step|
        match step {
            Step::Describe(link, modified) => link,
            Step::Entry(FoundView::Link) => true,
            _ => false,
        }
}

/// A file.
pub open spec fn file() -> spec_fn(Step) -> bool {
    |step: Step| step is Entry && step->Entry_0 is File
}

/// The size of a file; nothing for other steps.
pub open spec fn size_of(step: Step) -> int {
    match step {
        Step::Entry(FoundView::File(bytes, modified, accessed)) => bytes as int,
        _ => 0,
    }
}

/// The bytes of the files that were listed in folder `i`.
pub open spec fn bytes_met(start: PathView, steps: Seq<Step>, i: int) -> int
    decreases steps.len(),
{
    if steps.len() == 0 {
        0
    } else {
        bytes_met(start, steps.drop_last(), i) + if walked(start, steps.drop_last()).next - 1 == i {
            size_of(steps.last())
        } else {
            0
        }
    }
}

/// How many files were listed in folder `i`.
pub open spec fn files_met(start: PathView, steps: Seq<Step>, i: int) -> int
    decreases steps.len(),
{
    if steps.len() == 0 {
        0
    } else {
        files_met(start, steps.drop_last(), i) + if walked(start, steps.drop_last()).next - 1 == i
            && file()(steps.last()) {
            1int
        } else {
            0
        }
    }
}

/// How many of some steps are `p`.
pub open spec fn how_often(steps: Seq<Step>, p: spec_fn(Step) -> bool) -> int
    decreases steps.len(),
{
    if steps.len() == 0 {
        0
    } else {
        how_often(steps.drop_last(), p) + if p(steps.last()) {
            1int
        } else {
            0
        }
    }
}

/// The bytes of all files that were listed.
pub open spec fn all_bytes(steps: Seq<Step>) -> int
    decreases steps.len(),
{
    if steps.len() == 0 {
        0
    } else {
        all_bytes(steps.drop_last()) + size_of(steps.last())
    }
}

/// The folders that were found: in which folder, and under which name.
pub open spec fn found(start: PathView, steps: Seq<Step>) -> Seq<(int, Seq<u16>)>
    decreases steps.len(),
{
    if steps.len() == 0 {
        seq![]
    } else {
        match steps.last() {
            Step::Entry(FoundView::Folder(name)) => found(start, steps.drop_last()).push(
                (walked(start, steps.drop_last()).next - 1, name),
            ),
            _ => found(start, steps.drop_last()),
        }
    }
}

/// What could not be read, in the words in which it is told: the folder, then the
/// entry where it has a name, then the error.
pub open spec fn problems(start: PathView, steps: Seq<Step>) -> Seq<Seq<char>>
    decreases steps.len(),
{
    if steps.len() == 0 {
        seq![]
    } else {
        let rest = steps.drop_last();
        let scan = walked(start, rest);
        let here = scan.nodes[scan.next - 1].path;
        match steps.last() {
            Step::Entry(FoundView::Unreadable(error)) => problems(start, rest).push(
                here.text() + ": "@ + error,
            ),
            Step::Entry(FoundView::NoMetadata(name, error)) => problems(start, rest).push(
                here.text() + ": "@ + (here.join(name).text() + ": "@ + error),
            ),
            _ => problems(start, rest),
        }
    }
}

/// Whether the listing of folder `i` was ended after something in it could not be read.
pub open spec fn closed_with_problems(start: PathView, steps: Seq<Step>, i: int) -> bool
    decreases steps.len(),
{
    steps.len() > 0 && (closed_with_problems(start, steps.drop_last(), i) || (steps.last() is Close
        && walked(start, steps.drop_last()).next - 1 == i && met(
        start,
        steps.drop_last(),
        i,
        unread(),
    )))
}

/// Whether a folder holds what was met in it.
pub open spec fn holds_what_was_met(
    node: NodeView,
    start: PathView,
    steps: Seq<Step>,
    i: int,
) -> bool {
    &&& node.bytes == 0
    &&& shows_sum(node.own_bytes, bytes_met(start, steps, i))
    &&& shows_sum(node.files, files_met(start, steps, i))
    &&& forall|date: Timestamp| #[trigger]
        met(start, steps, i, changed(Some(date))) ==> not_before(node.modified, Some(date))
    &&& node.modified is Some ==> met(start, steps, i, changed(node.modified))
    &&& node.missing_modified <==> met(start, steps, i, changed(None))
    &&& forall|date: Timestamp| #[trigger]
        met(start, steps, i, accessed_at(Some(date))) ==> not_before(node.accessed, Some(date))
    &&& node.accessed is Some ==> met(start, steps, i, accessed_at(node.accessed))
    &&& node.missing_accessed <==> met(start, steps, i, accessed_at(None))
    &&& node.incomplete <==> met(start, steps, i, unread()) || met(start, steps, i, link())
}

proof fn scans_are_walks(start: PathView, steps: Seq<Step>)
    requires
        is_scan(start, steps),
    ensures
        is_walk(start, steps),
        0 <= walked(start, steps).next <= walked(start, steps).nodes.len(),
        walked(start, steps).nodes.len() > 0,
    decreases steps.len(),
{
    if steps.len() > 0 {
        scans_are_walks(start, steps.drop_last());
    }
}

/// Nothing was met in a folder that was not opened yet.
proof fn nothing_met_yet(start: PathView, steps: Seq<Step>, i: int, p: spec_fn(Step) -> bool)
    requires
        is_scan(start, steps),
        i >= walked(start, steps).next,
    ensures
        !met(start, steps, i, p),
        bytes_met(start, steps, i) == 0,
        files_met(start, steps, i) == 0,
    decreases steps.len(),
{
    if steps.len() > 0 {
        scans_are_walks(start, steps.drop_last());
        nothing_met_yet(start, steps.drop_last(), i, p);
    }
}

proof fn met_counts(start: PathView, steps: Seq<Step>, i: int)
    ensures
        bytes_met(start, steps, i) >= 0,
        files_met(start, steps, i) >= 0,
    decreases steps.len(),
{
    if steps.len() > 0 {
        met_counts(start, steps.drop_last(), i);
    }
}

proof fn an_open_folder_is_fresh(start: PathView, steps: Seq<Step>, p: spec_fn(Step) -> bool)
    requires
        is_scan(start, steps),
        steps.len() > 0,
        steps.last() is Open,
        walked(start, steps.drop_last()).next < walked(start, steps.drop_last()).nodes.len(),
    ensures
        !met(start, steps, walked(start, steps).next - 1, p),
{
    let rest = steps.drop_last();
    nothing_met_yet(start, rest, walked(start, rest).next, p);
}

proof fn other_folders_meet_nothing(start: PathView, steps: Seq<Step>, i: int)
    requires
        steps.len() > 0,
        walked(start, steps.drop_last()).next - 1 != i,
    ensures
        forall|p: spec_fn(Step) -> bool| #[trigger]
            met(start, steps, i, p) == met(start, steps.drop_last(), i, p),
        bytes_met(start, steps, i) == bytes_met(start, steps.drop_last(), i),
        files_met(start, steps, i) == files_met(start, steps.drop_last(), i),
{
}

/// Each folder of a scan holds what was met in it, whatever the order: the size
/// and number of its files, the latest date of a change among its files and its
/// own metadata, the latest access, and marks for what is missing or unread.
pub proof fn folders_hold_what_was_met(start: PathView, steps: Seq<Step>, i: int)
    requires
        is_scan(start, steps),
        0 <= i < walked(start, steps).nodes.len(),
    ensures
        holds_what_was_met(walked(start, steps).nodes[i], start, steps, i),
    decreases steps.len(),
{
    let scan = walked(start, steps);
    scans_are_walks(start, steps);
    if steps.len() > 0 {
        let rest = steps.drop_last();
        let before = walked(start, rest);
        let step = steps.last();
        scans_are_walks(start, rest);
        met_counts(start, rest, i);
        if i >= before.nodes.len() {
            other_folders_meet_nothing(start, steps, i);
            nothing_met_yet(start, rest, i, unread());
            nothing_met_yet(start, rest, i, link());
            nothing_met_yet(start, rest, i, changed(None));
            nothing_met_yet(start, rest, i, accessed_at(None));
            assert forall|date: Timestamp| !(#[trigger] met(start, steps, i, changed(Some(date)))) by {
                nothing_met_yet(start, rest, i, changed(Some(date)));
            }
            assert forall|date: Timestamp|
                !(#[trigger] met(start, steps, i, accessed_at(Some(date)))) by {
                nothing_met_yet(start, rest, i, accessed_at(Some(date)));
            }
        } else {
            folders_hold_what_was_met(start, rest, i);
            let old = before.nodes[i];
            let node = scan.nodes[i];
            if before.next - 1 != i {
                other_folders_meet_nothing(start, steps, i);
                assert(node == (NodeView { children: node.children, ..old }));
            } else {
                if step is Describe {
                    an_open_folder_is_fresh(start, rest, changed(None));
                    an_open_folder_is_fresh(start, rest, changed(old.modified));
                    assert(old.modified is None && !old.missing_modified);
                    assert forall|date: Timestamp|
                        !(#[trigger] met(start, rest, i, changed(Some(date)))) by {
                        an_open_folder_is_fresh(start, rest, changed(Some(date)));
                    }
                }
                a_step_is_taken_in(start, steps, i);
            }
        }
    } else {
        assert(scan.nodes[0] == NodeView::fresh(start, None));
    }
}

proof fn a_step_is_taken_in(start: PathView, steps: Seq<Step>, i: int)
    requires
        is_scan(start, steps),
        steps.len() > 0,
        ({
            let rest = steps.drop_last();
            let before = walked(start, rest);
            &&& before.next - 1 == i
            &&& 0 <= i < before.nodes.len()
            &&& holds_what_was_met(before.nodes[i], start, rest, i)
            &&& steps.last() is Describe ==> before.nodes[i].modified is None
                && !before.nodes[i].missing_modified
            &&& bytes_met(start, rest, i) >= 0
            &&& files_met(start, rest, i) >= 0
        }),
    ensures
        holds_what_was_met(walked(start, steps).nodes[i], start, steps, i),
{
    let rest = steps.drop_last();
    let before = walked(start, rest);
    let step = steps.last();
    let old = before.nodes[i];
    let node = walked(start, steps).nodes[i];
    assert forall|date: Timestamp| #[trigger]
        met(start, steps, i, changed(Some(date))) implies not_before(node.modified, Some(date)) by {
        if met(start, rest, i, changed(Some(date))) {
            assert(not_before(old.modified, Some(date)));
        } else {
            assert(changed(Some(date))(step));
        }
    }
    assert forall|date: Timestamp| #[trigger]
        met(start, steps, i, accessed_at(Some(date))) implies not_before(node.accessed, Some(date)) by {
        if met(start, rest, i, accessed_at(Some(date))) {
            assert(not_before(old.accessed, Some(date)));
        } else {
            assert(accessed_at(Some(date))(step));
        }
    }
    if node.modified is Some {
        if node.modified == old.modified {
            assert(met(start, rest, i, changed(node.modified)));
        } else {
            assert(changed(node.modified)(step));
        }
    }
    if node.accessed is Some {
        if node.accessed == old.accessed {
            assert(met(start, rest, i, accessed_at(node.accessed)));
        } else {
            assert(accessed_at(node.accessed)(step));
        }
    }
    assert(met(start, steps, i, changed(None)) == (met(start, rest, i, changed(None)) || changed(
        None,
    )(step)));
    assert(met(start, steps, i, accessed_at(None)) == (met(start, rest, i, accessed_at(None))
        || accessed_at(None)(step)));
    assert(met(start, steps, i, unread()) == (met(start, rest, i, unread()) || unread()(step)));
    assert(met(start, steps, i, link()) == (met(start, rest, i, link()) || link()(step)));
}

/// The folders of a scan are the one that it started from and those that were
/// found, in this order, each inside the folder where it was found and under the
/// name that it had there.
pub proof fn folders_are_those_that_were_found(start: PathView, steps: Seq<Step>)
    requires
        is_scan(start, steps),
        walked(start, steps).nodes.len() <= usize::MAX,
    ensures
        ({
            let nodes = walked(start, steps).nodes;
            let list = found(start, steps);
            &&& nodes.len() == list.len() + 1
            &&& nodes[0].path == start
            &&& nodes[0].parent is None
            &&& forall|k: int|
                0 <= k < list.len() ==> {
                    let (folder, name) = #[trigger] list[k];
                    let node = nodes[k + 1];
                    &&& 0 <= folder <= k
                    &&& node.parent == Some(folder as usize)
                    &&& node.path.names == nodes[folder].path.names.push(name)
                    &&& node.path.root == nodes[folder].path.root
                    &&& node.path.absolute == nodes[folder].path.absolute
                    &&& node.path.separator == nodes[folder].path.separator
                }
        }),
    decreases steps.len(),
{
    scans_are_walks(start, steps);
    if steps.len() > 0 {
        let rest = steps.drop_last();
        let before = walked(start, rest);
        scans_are_walks(start, rest);
        assert(before.nodes.len() <= walked(start, steps).nodes.len());
        folders_are_those_that_were_found(start, rest);
        let nodes = walked(start, steps).nodes;
        let list = found(start, steps);
        let old = found(start, rest);
        assert forall|k: int| 0 <= k < list.len() implies {
            let (folder, name) = #[trigger] list[k];
            let node = nodes[k + 1];
            &&& 0 <= folder <= k
            &&& node.parent == Some(folder as usize)
            &&& node.path.names == nodes[folder].path.names.push(name)
            &&& node.path.root == nodes[folder].path.root
            &&& node.path.absolute == nodes[folder].path.absolute
            &&& node.path.separator == nodes[folder].path.separator
        } by {
            if k < old.len() {
                assert(list[k] == old[k]);
                let folder = old[k].0;
                assert(nodes[k + 1].path == before.nodes[k + 1].path);
                assert(nodes[k + 1].parent == before.nodes[k + 1].parent);
                assert(nodes[folder].path == before.nodes[folder].path);
            }
        }
    }
}

/// Whether the progress of a scan counts its steps.
pub open spec fn counts_the_steps(scan: ScannerView, steps: Seq<Step>) -> bool {
    &&& shows_sum(scan.progress.files, how_often(steps, file()))
    &&& shows_sum(scan.progress.bytes, all_bytes(steps))
    &&& shows_sum(scan.progress.errors, how_often(steps, unread()))
    &&& shows_sum(scan.progress.skipped, how_often(steps, link()))
    &&& scan.progress.folders == scan.next
    &&& scan.next > 0 ==> scan.progress.current == scan.nodes[scan.next - 1].path
}

proof fn counts_are_not_negative(steps: Seq<Step>, p: spec_fn(Step) -> bool)
    ensures
        how_often(steps, p) >= 0,
        all_bytes(steps) >= 0,
    decreases steps.len(),
{
    if steps.len() > 0 {
        counts_are_not_negative(steps.drop_last(), p);
    }
}

/// The progress of a scan counts the files, their bytes, what could not be read
/// and the links that were met, and the folders that were opened. The first
/// hundred problems are told one by one, each with the folder in which it was
/// met. The folders that are to fall back on an earlier map are those that were
/// closed after something in them could not be read.
pub proof fn scans_count_what_they_meet(start: PathView, steps: Seq<Step>)
    requires
        is_scan(start, steps),
        walked(start, steps).nodes.len() <= usize::MAX,
    ensures
        ({
            let scan = walked(start, steps);
            let told = problems(start, steps);
            &&& counts_the_steps(scan, steps)
            &&& told.len() == how_often(steps, unread())
            &&& scan.issues == told.take(
                if told.len() < 100 {
                    told.len() as int
                } else {
                    100
                },
            )
            &&& scan.erred <==> met(start, steps, scan.next - 1, unread())
            &&& forall|i: usize| #[trigger]
                scan.failed.contains(i) <==> closed_with_problems(start, steps, i as int)
        }),
    decreases steps.len(),
{
    let scan = walked(start, steps);
    let told = problems(start, steps);
    scans_are_walks(start, steps);
    if steps.len() > 0 {
        let rest = steps.drop_last();
        let before = walked(start, rest);
        let step = steps.last();
        scans_are_walks(start, rest);
        assert(before.nodes.len() <= scan.nodes.len());
        scans_count_what_they_meet(start, rest);
        counts_are_not_negative(rest, file());
        counts_are_not_negative(rest, unread());
        counts_are_not_negative(rest, link());
        let before_told = problems(start, rest);
        let n = before_told.len() as int;
        assert(scan.issues == told.take(
            if told.len() < 100 {
                told.len() as int
            } else {
                100
            },
        )) by {
            if unread()(step) {
                if n < 100 {
                    assert(before_told.take(n) =~= before_told);
                    assert(told.take(n + 1) =~= told);
                } else {
                    assert(told.take(100) =~= before_told.take(100));
                }
            }
        }
        if step is Open && before.next < before.nodes.len() {
            nothing_met_yet(start, rest, before.next, unread());
        }
        assert forall|i: usize| #[trigger]
            scan.failed.contains(i) <==> closed_with_problems(start, steps, i as int) by {
            assert(before.failed.contains(i) <==> closed_with_problems(start, rest, i as int));
            if step is Close && before.erred {
                let at = (before.next - 1) as usize;
                assert(scan.failed == before.failed.push(at));
                assert(scan.failed[before.failed.len() as int] == at);
                if before.failed.contains(i) {
                    let k = choose|k: int| 0 <= k < before.failed.len() && before.failed[k] == i;
                    assert(scan.failed[k] == i);
                }
                if scan.failed.contains(i) && i != at {
                    let k = choose|k: int| 0 <= k < scan.failed.len() && scan.failed[k] == i;
                    assert(before.failed[k] == i);
                }
            } else {
                assert(scan.failed == before.failed);
            }
        }
    } else {
        assert(told.take(0) =~= seq![]);
        assert(!met(start, steps, scan.next - 1, unread()));
        assert forall|i: usize| !(#[trigger] scan.failed.contains(i)) by {}
    }
}

/// In the map of a scan, a folder shows the latest change and access of all that
/// was met at and below it, and no other date; its age is unknown exactly where a
/// date is missing there, and it is marked exactly where something there was not
/// read or is a link, or the scan was stopped.
pub proof fn maps_show_the_latest_of_what_was_met(
    start: PathView,
    steps: Seq<Step>,
    tree: Seq<NodeView>,
    partial: bool,
    i: int,
)
    requires
        is_scan(start, steps),
        shaped(walked(start, steps).nodes),
        added_up(walked(start, steps).nodes, tree, partial),
        0 <= i < tree.len(),
    ensures
        ({
            let raw = walked(start, steps).nodes;
            &&& forall|j: int, date: Timestamp|
                #![trigger is_below(raw, j, i), met(start, steps, j, changed(Some(date)))]
                0 <= j < raw.len() && is_below(raw, j, i) && met(
                    start,
                    steps,
                    j,
                    changed(Some(date)),
                ) ==> not_before(tree[i].modified, Some(date))
            &&& tree[i].modified is Some ==> exists|j: int|
                0 <= j < raw.len() && #[trigger] is_below(raw, j, i) && met(
                    start,
                    steps,
                    j,
                    changed(tree[i].modified),
                )
            &&& forall|j: int, date: Timestamp|
                #![trigger is_below(raw, j, i), met(start, steps, j, accessed_at(Some(date)))]
                0 <= j < raw.len() && is_below(raw, j, i) && met(
                    start,
                    steps,
                    j,
                    accessed_at(Some(date)),
                ) ==> not_before(tree[i].accessed, Some(date))
            &&& tree[i].accessed is Some ==> exists|j: int|
                0 <= j < raw.len() && #[trigger] is_below(raw, j, i) && met(
                    start,
                    steps,
                    j,
                    accessed_at(tree[i].accessed),
                )
            &&& tree[i].missing_modified <==> exists|j: int|
                0 <= j < raw.len() && #[trigger] is_below(raw, j, i) && met(
                    start,
                    steps,
                    j,
                    changed(None),
                )
            &&& tree[i].missing_accessed <==> exists|j: int|
                0 <= j < raw.len() && #[trigger] is_below(raw, j, i) && met(
                    start,
                    steps,
                    j,
                    accessed_at(None),
                )
            &&& tree[i].incomplete <==> partial || exists|j: int|
                0 <= j < raw.len() && #[trigger] is_below(raw, j, i) && (met(
                    start,
                    steps,
                    j,
                    unread(),
                ) || met(start, steps, j, link()))
        }),
{
    let raw = walked(start, steps).nodes;
    assert forall|j: int| 0 <= j < raw.len() implies holds_what_was_met(
        #[trigger] raw[j],
        start,
        steps,
        j,
    ) by {
        folders_hold_what_was_met(start, steps, j);
    }
    assert forall|j: int| 0 <= j < raw.len() implies (#[trigger] raw[j]).bytes == 0 by {
        assert(holds_what_was_met(raw[j], start, steps, j));
    }
    folders_show_everything_below(raw, tree, partial, i);
    assert forall|j: int, date: Timestamp|
        #![trigger is_below(raw, j, i), met(start, steps, j, changed(Some(date)))]
        0 <= j < raw.len() && is_below(raw, j, i) && met(
            start,
            steps,
            j,
            changed(Some(date)),
        ) implies not_before(tree[i].modified, Some(date)) by {
        assert(holds_what_was_met(raw[j], start, steps, j));
        assert(not_before(raw[j].modified, Some(date)));
        assert(not_before(tree[i].modified, raw[j].modified));
    }
    assert forall|j: int, date: Timestamp|
        #![trigger is_below(raw, j, i), met(start, steps, j, accessed_at(Some(date)))]
        0 <= j < raw.len() && is_below(raw, j, i) && met(
            start,
            steps,
            j,
            accessed_at(Some(date)),
        ) implies not_before(tree[i].accessed, Some(date)) by {
        assert(holds_what_was_met(raw[j], start, steps, j));
        assert(not_before(raw[j].accessed, Some(date)));
        assert(not_before(tree[i].accessed, raw[j].accessed));
    }
}


/// A finished scan tells what it counted on its way; where folders of an earlier map
/// came back, it tells the totals and the folders of the map instead.
pub proof fn finished_scans_tell_their_counts(s: ScannerView, tree: Seq<NodeView>, refreshed: bool)
    requires
        tree.len() <= usize::MAX,
    ensures
        !refreshed ==> s.final_progress(tree, refreshed) == s.progress,
        refreshed ==> ({
            let p = s.final_progress(tree, refreshed);
            &&& p.bytes == tree[0].bytes
            &&& p.files == tree[0].files
            &&& p.folders == tree.len()
            &&& p.errors == s.progress.errors
            &&& p.skipped == s.progress.skipped
            &&& p.current == s.progress.current
            &&& p.engine == s.progress.engine
            &&& p.note == s.progress.note
            &&& p.records == s.progress.records
            &&& p.total_records == s.progress.total_records
        }),
{
}

} // verus!
