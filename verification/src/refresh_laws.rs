//! What a refresh asks of the disk from its start to its end.
use vstd::prelude::*;
use crate::below::{is_below, not_before, shows_sum};
use crate::merge::{can_merge, is_merge};
use crate::merge_laws::{covers_the_way_up, merged_sizes_add_up};
use crate::scan::FoundView;
use crate::kept_laws::{direct_files_are_what_subfolders_leave, is_direct_count};
use crate::path::PathView;
use crate::subtree::{all_errors, all_issues, direct_start, known_direct, with_direct_entry, Answer, Phase, Refresh};
use crate::time::Timestamp;
use crate::tree::{shaped, sizes_add_up, NodeView};

verus! {

/// A refresh of a folder at its start.
pub open spec fn begun(target: usize) -> Refresh {
    Refresh { target, cursor: target, removed: None, phase: Phase::Locating }
}

/// A refresh of a folder after answers of the disk, each with a mark whether
/// stopping was asked for by then.
pub open spec fn answered(
    tree: Seq<NodeView>,
    target: usize,
    answers: Seq<(Answer, bool)>,
) -> Result<Refresh, Seq<char>>
    decreases answers.len(),
{
    if answers.len() == 0 {
        Ok(begun(target))
    } else {
        match answered(tree, target, answers.drop_last()) {
            Err(e) => Err(e),
            Ok(state) => state.after(tree, answers.last().0, answers.last().1),
        }
    }
}

/// The folders that were asked for and are missing.
pub open spec fn missed(tree: Seq<NodeView>, target: usize, answers: Seq<(Answer, bool)>) -> Seq<usize>
    decreases answers.len(),
{
    if answers.len() == 0 {
        seq![]
    } else {
        let before = missed(tree, target, answers.drop_last());
        match (answered(tree, target, answers.drop_last()), answers.last().0) {
            (Ok(state), Answer::Missing(e)) if state.phase is Locating => before.push(state.cursor),
            _ => before,
        }
    }
}

/// The folders that were confirmed to be plain folders.
pub open spec fn confirmed(
    tree: Seq<NodeView>,
    target: usize,
    answers: Seq<(Answer, bool)>,
) -> Seq<usize>
    decreases answers.len(),
{
    if answers.len() == 0 {
        seq![]
    } else {
        let before = confirmed(tree, target, answers.drop_last());
        match (answered(tree, target, answers.drop_last()), answers.last().0) {
            (Ok(state), Answer::Folder) if state.phase is Confirming => before.push(
                state.phase->Confirming_0,
            ),
            _ => before,
        }
    }
}

/// The folders of which the direct files were read.
pub open spec fn read(tree: Seq<NodeView>, target: usize, answers: Seq<(Answer, bool)>) -> Seq<usize>
    decreases answers.len(),
{
    if answers.len() == 0 {
        seq![]
    } else {
        let before = read(tree, target, answers.drop_last());
        match (answered(tree, target, answers.drop_last()), answers.last().0) {
            (Ok(state), Answer::Read) if state.phase is Reading => before.push(
                state.phase->Reading_0,
            ),
            _ => before,
        }
    }
}

/// How often the folder was scanned to its end.
pub open spec fn scans(tree: Seq<NodeView>, target: usize, answers: Seq<(Answer, bool)>) -> int
    decreases answers.len(),
{
    if answers.len() == 0 {
        0
    } else {
        scans(tree, target, answers.drop_last()) + match (
            answered(tree, target, answers.drop_last()),
            answers.last().0,
        ) {
            (Ok(state), Answer::Scanned) if state.phase is Scanning => 1int,
            _ => 0,
        }
    }
}

/// How often the folder above a missing one was listed to its end.
pub open spec fn listings(tree: Seq<NodeView>, target: usize, answers: Seq<(Answer, bool)>) -> int
    decreases answers.len(),
{
    if answers.len() == 0 {
        0
    } else {
        listings(tree, target, answers.drop_last()) + match (
            answered(tree, target, answers.drop_last()),
            answers.last().0,
        ) {
            (Ok(state), Answer::End) if state.phase is Listing => 1int,
            _ => 0,
        }
    }
}

/// Whether folders lead upwards: each is followed by the folder that holds it.
pub open spec fn leads_up(tree: Seq<NodeView>, ids: Seq<usize>) -> bool {
    forall|k: int|
        0 <= k < ids.len() - 1 ==> tree[#[trigger] ids[k] as int].parent == Some(ids[k + 1])
}

/// Whether folders are those from `first` up to the root, without a gap.
pub open spec fn is_way_up(tree: Seq<NodeView>, first: usize, ids: Seq<usize>) -> bool {
    &&& ids.len() > 0
    &&& ids[0] == first
    &&& leads_up(tree, ids)
    &&& tree[ids.last() as int].parent is None
}

/// What holds at every point of a refresh.
spec fn keeps(
    tree: Seq<NodeView>,
    target: usize,
    state: Refresh,
    gone: Seq<usize>,
    sure: Seq<usize>,
    done: Seq<usize>,
    scanned: int,
    listed: int,
) -> bool {
    &&& state.valid(tree)
    &&& state.target == target
    &&& if gone.len() == 0 {
        state.removed is None && state.cursor == target
    } else {
        gone[0] == target && leads_up(tree, gone) && state.removed == Some(gone.last())
            && tree[gone.last() as int].parent == Some(state.cursor)
    }
    &&& match state.phase {
        Phase::Locating => sure.len() == 0,
        Phase::Confirming(id) => leads_up(tree, sure.push(id)) && sure.push(id)[0] == state.cursor,
        _ => is_way_up(tree, state.cursor, sure),
    }
    &&& match state.phase {
        Phase::Reading(id) => leads_up(tree, done.push(id))
            && tree[state.effective() as int].parent == Some(done.push(id)[0]),
        Phase::Merging => done.len() > 0 && tree[state.effective() as int].parent == Some(done[0])
            && is_way_up(tree, done[0], done),
        _ => done.len() == 0,
    }
    &&& if state.phase is Reading || state.phase is Merging || state.phase is Replaced {
        if state.removed is Some {
            scanned == 0 && listed == 1
        } else {
            scanned == 1 && listed == 0
        }
    } else {
        scanned == 0 && listed == 0
    }
}

proof fn a_longer_way(tree: Seq<NodeView>, ids: Seq<usize>, id: usize, above: usize)
    requires
        leads_up(tree, ids.push(id)),
        tree[id as int].parent == Some(above),
    ensures
        leads_up(tree, ids.push(id).push(above)),
        ids.push(id).push(above)[0] == ids.push(id)[0],
{
    let longer = ids.push(id).push(above);
    assert forall|k: int| 0 <= k < longer.len() - 1 implies tree[#[trigger] longer[k] as int].parent
        == Some(longer[k + 1]) by {
        if k < ids.len() {
            assert(ids.push(id)[k] == longer[k]);
            assert(ids.push(id)[k + 1] == longer[k + 1]);
        }
    }
}

#[verifier::spinoff_prover]
#[verifier::rlimit(40)]
proof fn one_answer_keeps(
    tree: Seq<NodeView>,
    target: usize,
    state: Refresh,
    gone: Seq<usize>,
    sure: Seq<usize>,
    done: Seq<usize>,
    scanned: int,
    listed: int,
    answer: Answer,
    cancelled: bool,
)
    requires
        keeps(tree, target, state, gone, sure, done, scanned, listed),
        state.after(tree, answer, cancelled) is Ok,
        tree.len() <= usize::MAX,
    ensures
        keeps(
            tree,
            target,
            state.after(tree, answer, cancelled)->Ok_0,
            if answer is Missing && state.phase is Locating {
                gone.push(state.cursor)
            } else {
                gone
            },
            if answer is Folder && state.phase is Confirming {
                sure.push(state.phase->Confirming_0)
            } else {
                sure
            },
            if answer is Read && state.phase is Reading {
                done.push(state.phase->Reading_0)
            } else {
                done
            },
            scanned + if answer is Scanned && state.phase is Scanning {
                1int
            } else {
                0
            },
            listed + if answer is End && state.phase is Listing {
                1int
            } else {
                0
            },
        ),
{
    assert(forall|i: int|
        0 <= i < tree.len() && (#[trigger] tree[i]).parent is Some ==> i > 0 && tree[i].parent->0
            < i);
    match (state.phase, answer) {
        (Phase::Locating, Answer::Folder) => {
            assert(sure.push(state.cursor)[0] == state.cursor);
        },
        (Phase::Locating, Answer::Missing(e)) => {
            if gone.len() > 0 {
                a_longer_way(tree, gone.drop_last(), gone.last(), state.cursor);
                assert(gone.drop_last().push(gone.last()) =~= gone);
            }
        },
        (Phase::Confirming(id), Answer::Folder) => {
            if let Some(p) = tree[id as int].parent {
                a_longer_way(tree, sure, id, p);
            }
        },
        (Phase::Scanning, Answer::Scanned) => {
            if let Some(p) = tree[target as int].parent {
                assert(done.push(p)[0] == p);
            }
        },
        (Phase::Listing, Answer::End) => {
            let p = tree[state.removed->0 as int].parent->0;
            assert(done.push(p)[0] == p);
        },
        (Phase::Reading(id), Answer::Read) => {
            if let Some(p) = tree[id as int].parent {
                a_longer_way(tree, done, id, p);
            }
        },
        _ => {},
    }
}

proof fn refreshes_keep(tree: Seq<NodeView>, target: usize, answers: Seq<(Answer, bool)>)
    requires
        shaped(tree),
        target < tree.len() <= usize::MAX,
        answered(tree, target, answers) is Ok,
    ensures
        keeps(
            tree,
            target,
            answered(tree, target, answers)->Ok_0,
            missed(tree, target, answers),
            confirmed(tree, target, answers),
            read(tree, target, answers),
            scans(tree, target, answers),
            listings(tree, target, answers),
        ),
    decreases answers.len(),
{
    if answers.len() > 0 {
        let rest = answers.drop_last();
        refreshes_keep(tree, target, rest);
        one_answer_keeps(
            tree,
            target,
            answered(tree, target, rest)->Ok_0,
            missed(tree, target, rest),
            confirmed(tree, target, rest),
            read(tree, target, rest),
            scans(tree, target, rest),
            listings(tree, target, rest),
            answers.last().0,
            answers.last().1,
        );
    }
}

proof fn the_way_up_is_all_that_is_above(tree: Seq<NodeView>, x: usize, ids: Seq<usize>, i: usize)
    requires
        shaped(tree),
        x < tree.len(),
        tree[x as int].parent is Some,
        is_way_up(tree, tree[x as int].parent->0, ids),
    ensures
        ids.contains(i) <==> i != x && is_below(tree, x as int, i as int),
    decreases x,
{
    let p = tree[x as int].parent->0;
    assert(p < x);
    assert(is_below(tree, p as int, p as int));
    assert(is_below(tree, x as int, i as int) <==> x == i || is_below(tree, p as int, i as int));
    if ids.len() == 1 {
        assert(ids[0] == p);
        assert(ids.contains(i) <==> i == p);
        assert(is_below(tree, p as int, i as int) <==> i == p);
    } else {
        let rest = ids.drop_first();
        assert(tree[ids[0] as int].parent == Some(ids[1]));
        assert forall|k: int| 0 <= k < rest.len() - 1 implies tree[#[trigger] rest[k] as int].parent
            == Some(rest[k + 1]) by {
            assert(rest[k] == ids[k + 1]);
        }
        assert(is_way_up(tree, ids[1], rest));
        the_way_up_is_all_that_is_above(tree, p, rest, i);
        assert(ids.contains(i) <==> i == p || rest.contains(i)) by {
            if ids.contains(i) {
                let k = choose|k: int| 0 <= k < ids.len() && ids[k] == i;
                if k > 0 {
                    assert(rest[k - 1] == i);
                }
            }
            if rest.contains(i) {
                let k = choose|k: int| 0 <= k < rest.len() && rest[k] == i;
                assert(ids[k + 1] == i);
            }
        }
    }
    above_comes_before(tree, p as int, x as int);
}

proof fn above_comes_before(tree: Seq<NodeView>, j: int, i: int)
    requires
        shaped(tree),
        0 <= j < tree.len(),
        j < i,
    ensures
        !is_below(tree, j, i),
    decreases j,
{
    if tree[j].parent is Some && tree[j].parent->0 < j {
        above_comes_before(tree, tree[j].parent->0 as int, i);
    }
}

/// A refresh that comes to its end has read the direct files of every folder that
/// holds the replaced one, directly or further up, and of no other: one after the
/// other, from the nearest to the root. So what was read covers the way up.
pub proof fn refreshes_read_every_folder_above(
    tree: Seq<NodeView>,
    target: usize,
    answers: Seq<(Answer, bool)>,
    direct: Map<usize, NodeView>,
)
    requires
        shaped(tree),
        target < tree.len() <= usize::MAX,
        answered(tree, target, answers) is Ok,
        answered(tree, target, answers)->Ok_0.phase is Merging,
        forall|i: usize| #[trigger]
            direct.contains_key(i) <==> read(tree, target, answers).contains(i),
    ensures
        ({
            let at = answered(tree, target, answers)->Ok_0.effective();
            let ids = read(tree, target, answers);
            &&& tree[at as int].parent is Some
            &&& is_way_up(tree, tree[at as int].parent->0, ids)
            &&& forall|i: usize| #[trigger]
                ids.contains(i) <==> i != at && is_below(tree, at as int, i as int)
            &&& covers_the_way_up(tree, at as int, direct)
        }),
{
    refreshes_keep(tree, target, answers);
    let at = answered(tree, target, answers)->Ok_0.effective();
    let ids = read(tree, target, answers);
    assert forall|i: usize| #[trigger] ids.contains(i) <==> i != at && is_below(
        tree,
        at as int,
        i as int,
    ) by {
        the_way_up_is_all_that_is_above(tree, at, ids, i);
    }
    assert(ids.contains(ids[0]));
    assert forall|i: usize|
        #![trigger direct.contains_key(i)]
        direct.contains_key(i) && i < tree.len() implies (tree[i as int].parent matches Some(p)
        ==> direct.contains_key(p)) by {
        if tree[i as int].parent is Some {
            let k = choose|k: int| 0 <= k < ids.len() && ids[k] == i;
            assert(k < ids.len() - 1);
            assert(tree[ids[k] as int].parent == Some(ids[k + 1]));
            assert(ids.contains(ids[k + 1]));
        }
    }
}

/// The map that such a refresh leads to adds up: every folder shows the size of
/// its direct files and its subfolders.
pub proof fn refreshed_maps_add_up(
    tree: Seq<NodeView>,
    target: usize,
    answers: Seq<(Answer, bool)>,
    replacement: Option<Seq<NodeView>>,
    direct: Map<usize, NodeView>,
    merged: Seq<NodeView>,
)
    requires
        shaped(tree),
        sizes_add_up(tree),
        target < tree.len() <= usize::MAX,
        answered(tree, target, answers) is Ok,
        answered(tree, target, answers)->Ok_0.phase is Merging,
        forall|i: usize| #[trigger]
            direct.contains_key(i) <==> read(tree, target, answers).contains(i),
        replacement matches Some(r) ==> sizes_add_up(r),
        can_merge(
            tree,
            answered(tree, target, answers)->Ok_0.effective() as int,
            replacement,
        ),
        is_merge(
            tree,
            answered(tree, target, answers)->Ok_0.effective() as int,
            replacement,
            direct,
            merged,
        ),
        shaped(merged),
    ensures
        sizes_add_up(merged),
{
    refreshes_read_every_folder_above(tree, target, answers, direct);
    let at = answered(tree, target, answers)->Ok_0.effective();
    merged_sizes_add_up(tree, at as int, replacement, direct, merged);
}

/// Where a refresh comes as far as listing, scanning, reading or merging, the
/// folder it found and all folders above it were confirmed one after the other. A
/// folder is taken for gone only where it and every folder from the one that was
/// asked for up to it were missing, and the folder above it was listed to its end;
/// otherwise the folder that was asked for was scanned, once, before anything was
/// read.
pub proof fn refreshes_confirm_what_they_change(
    tree: Seq<NodeView>,
    target: usize,
    answers: Seq<(Answer, bool)>,
)
    requires
        shaped(tree),
        target < tree.len() <= usize::MAX,
        answered(tree, target, answers) is Ok,
    ensures
        ({
            let state = answered(tree, target, answers)->Ok_0;
            let gone = missed(tree, target, answers);
            &&& state.target == target
            &&& gone.len() == 0 ==> state.removed is None && state.cursor == target
            &&& gone.len() > 0 ==> gone[0] == target && leads_up(tree, gone) && state.removed
                == Some(gone.last()) && tree[gone.last() as int].parent == Some(state.cursor)
            &&& state.phase !is Locating && state.phase !is Confirming ==> is_way_up(
                tree,
                state.cursor,
                confirmed(tree, target, answers),
            )
            &&& state.phase is Reading || state.phase is Merging || state.phase is Replaced ==> if gone.len()
                > 0 {
                listings(tree, target, answers) == 1 && scans(tree, target, answers) == 0
            } else {
                listings(tree, target, answers) == 0 && scans(tree, target, answers) == 1
            }
            &&& state.phase is Replaced ==> target == 0 && read(tree, target, answers).len() == 0
        }),
{
    refreshes_keep(tree, target, answers);
}

/// A refresh gives up exactly where it was stopped while it read, listed or had
/// scanned; where a path is no plain folder, cannot be looked at, or is missing
/// when it was to be confirmed or is the root; where the missing folder has no
/// name; and where its name is listed, or its folder cannot be listed.
pub proof fn refreshes_give_up_where_something_is_unclear(
    tree: Seq<NodeView>,
    state: Refresh,
    answer: Answer,
    cancelled: bool,
)
    requires
        state.valid(tree),
    ensures
        state.after(tree, answer, cancelled) is Err <==> match state.phase {
            Phase::Locating => answer is NotFolder || answer is Failed || (answer is Missing
                && state.cursor == 0),
            Phase::Confirming(id) => answer is NotFolder || answer is Failed || answer is Missing
                || (answer is Folder && id == 0 && state.removed is Some
                && !tree[state.removed->0 as int].path.has_name()),
            Phase::Listing => answer is Unreadable || (answer is Entry && (cancelled
                || answer->Entry_0@ == tree[state.removed->0 as int].path.names.last())),
            Phase::Scanning => answer is Scanned && cancelled,
            Phase::Reading(id) => answer is Read && cancelled,
            Phase::Merging => false,
            Phase::Replaced => false,
        },
{
    assert(forall|i: int|
        0 <= i < tree.len() && (#[trigger] tree[i]).parent is Some ==> i > 0 && tree[i].parent->0
            < i);
    assert(tree[0].parent is None);
    assert(forall|i: int| 0 < i < tree.len() ==> (#[trigger] tree[i]).parent is Some);
}

/// A folder whose direct files are read, after entries.
pub open spec fn direct_after(node: NodeView, entries: Seq<FoundView>) -> Result<NodeView, Seq<char>>
    decreases entries.len(),
{
    if entries.len() == 0 {
        Ok(node)
    } else {
        match direct_after(node, entries.drop_last()) {
            Err(e) => Err(e),
            Ok(before) => with_direct_entry(before, entries.last(), false),
        }
    }
}

/// The bytes of the files among entries.
pub open spec fn file_bytes(entries: Seq<FoundView>) -> int
    decreases entries.len(),
{
    if entries.len() == 0 {
        0
    } else {
        file_bytes(entries.drop_last()) + match entries.last() {
            FoundView::File(bytes, modified, accessed) => bytes as int,
            _ => 0,
        }
    }
}

/// How many entries are files.
pub open spec fn file_count(entries: Seq<FoundView>) -> int
    decreases entries.len(),
{
    if entries.len() == 0 {
        0
    } else {
        file_count(entries.drop_last()) + if entries.last() is File {
            1int
        } else {
            0
        }
    }
}

/// Direct files that were read count one by one: their bytes and their number add
/// up, the dates are the latest among those of the folder and of its files, a
/// missing date and a link are marked, and subfolders add nothing. What cannot be
/// read ends the reading.
pub proof fn direct_files_are_counted(node: NodeView, entries: Seq<FoundView>)
    requires
        node.own_bytes == 0,
        node.files == 0,
        node.accessed is None,
        !node.missing_accessed,
        !node.incomplete,
    ensures
        direct_after(node, entries) is Ok <==> forall|k: int|
            0 <= k < entries.len() ==> (#[trigger] entries[k]) !is Unreadable && entries[k]
                !is NoMetadata,
        direct_after(node, entries) matches Ok(done) ==> {
            &&& shows_sum(done.own_bytes, file_bytes(entries))
            &&& shows_sum(done.files, file_count(entries))
            &&& not_before(done.modified, node.modified)
            &&& forall|k: int|
                0 <= k < entries.len() && (#[trigger] entries[k]) is File ==> not_before(
                    done.modified,
                    entries[k]->File_1,
                ) && not_before(done.accessed, entries[k]->File_2)
            &&& done.modified is Some ==> done.modified == node.modified || exists|k: int|
                0 <= k < entries.len() && (#[trigger] entries[k]) is File && entries[k]->File_1
                    == done.modified
            &&& done.accessed is Some ==> exists|k: int|
                0 <= k < entries.len() && (#[trigger] entries[k]) is File && entries[k]->File_2
                    == done.accessed
            &&& done.missing_modified <==> node.missing_modified || exists|k: int|
                0 <= k < entries.len() && (#[trigger] entries[k]) is File && entries[k]->File_1 is None
            &&& done.missing_accessed <==> exists|k: int|
                0 <= k < entries.len() && (#[trigger] entries[k]) is File && entries[k]->File_2 is None
            &&& done.incomplete <==> exists|k: int|
                0 <= k < entries.len() && (#[trigger] entries[k]) is Link
            &&& done.path == node.path
            &&& done.parent == node.parent
            &&& done.children == node.children
            &&& done.bytes == node.bytes
        },
    decreases entries.len(),
{
    if entries.len() > 0 {
        let rest = entries.drop_last();
        let last = entries.last();
        direct_files_are_counted(node, rest);
        assert(forall|k: int| 0 <= k < rest.len() ==> #[trigger] rest[k] == entries[k]);
        assert(forall|k: int| 0 <= k < rest.len() ==> rest[k] == #[trigger] entries[k]);
        assert(entries[entries.len() - 1] == last);
        file_sums_are_not_negative(rest);
        if direct_after(node, rest) is Err {
            let k = choose|k: int|
                0 <= k < rest.len() && !((#[trigger] rest[k]) !is Unreadable && rest[k]
                    !is NoMetadata);
            assert(entries[k] == rest[k]);
        } else if direct_after(node, entries) is Ok {
            let before = direct_after(node, rest)->Ok_0;
            let done = direct_after(node, entries)->Ok_0;
            assert(last is File ==> done.modified == last->File_1 || done.modified
                == before.modified);
            assert(last is File ==> done.accessed == last->File_2 || done.accessed
                == before.accessed);
        }
    }
}

proof fn file_sums_are_not_negative(entries: Seq<FoundView>)
    ensures
        file_bytes(entries) >= 0,
        file_count(entries) >= 0,
    decreases entries.len(),
{
    if entries.len() > 0 {
        file_sums_are_not_negative(entries.drop_last());
    }
}


/// Reading direct files starts with nothing but the folder's own date.
pub proof fn reading_starts_with_the_date(path: PathView, modified: Option<Timestamp>)
    ensures
        ({
            let node = direct_start(path, modified);
            &&& node.path == path
            &&& node.own_bytes == 0 && node.bytes == 0 && node.files == 0
            &&& node.modified == modified
            &&& node.missing_modified == (modified is None)
            &&& node.accessed is None && !node.missing_accessed
            &&& !node.incomplete
        }),
{
}

/// Where direct files cannot be read, those that the map knew are taken: their size and
/// the dates stay, their number is what the subfolders leave, and the folder is marked.
pub proof fn known_direct_files_are_taken(tree: Seq<NodeView>, id: int)
    requires
        shaped(tree),
        0 <= id < tree.len(),
    ensures
        ({
            let node = known_direct(tree, id);
            &&& node.own_bytes == tree[id].own_bytes
            &&& is_direct_count(node.files, tree, id)
            &&& node.modified == tree[id].modified
            &&& node.accessed == tree[id].accessed
            &&& node.missing_modified == tree[id].missing_modified
            &&& node.missing_accessed == tree[id].missing_accessed
            &&& node.incomplete
            &&& node.path == tree[id].path
        }),
{
    direct_files_are_what_subfolders_leave(tree, id);
}

/// The problems met on the way up are told behind the others, one hundred in all at
/// most, and each counts as an error.
pub proof fn problems_on_the_way_up_count(
    told: Seq<Seq<char>>,
    problems: Seq<Seq<char>>,
    counted: u64,
)
    ensures
        ({
            let all = all_issues(told, problems);
            &&& all.len() == if told.len() + problems.len() > 100 {
                100
            } else {
                (told.len() + problems.len()) as int
            }
            &&& forall|k: int|
                0 <= k < all.len() ==> #[trigger] all[k] == if k < told.len() {
                    told[k]
                } else {
                    problems[k - told.len()]
                }
        }),
        shows_sum(all_errors(counted as int, problems.len() as int), counted + problems.len()),
{
}

} // verus!
