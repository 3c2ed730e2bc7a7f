//! A scan from its start to its end.
use vstd::prelude::*;
use crate::anchor::{joined_paths_are_read, AnchorView};
use crate::path::PathView;
use crate::scan::{FoundView, ScannerView};
use crate::time::Timestamp;

verus! {

/// One step of a scan: it opens its next folder, takes in that folder's own
/// metadata or one of its entries, or ends its listing.
pub enum Step {
    Open,
    Describe(bool, Option<Timestamp>),
    Entry(FoundView),
    Close,
}

impl ScannerView {
    /// Whether a scan can take a step: before a folder was opened there is nothing to list.
    pub open spec fn allows(self, step: Step) -> bool {
        step is Open || self.next > 0
    }

    /// The scan after a step.
    pub open spec fn after(self, step: Step) -> ScannerView {
        match step {
            Step::Open => if self.next < self.nodes.len() {
                self.opened()
            } else {
                self
            },
            Step::Describe(link, modified) => self.described(link, modified),
            Step::Entry(found) => self.with_entry(found),
            Step::Close => self.closed(),
        }
    }
}

/// A scan of `start` after some steps.
pub open spec fn walked(start: PathView, steps: Seq<Step>) -> ScannerView
    decreases steps.len(),
{
    if steps.len() == 0 {
        ScannerView::starting(start)
    } else {
        walked(start, steps.drop_last()).after(steps.last())
    }
}

/// Whether a scan of `start` can take some steps.
pub open spec fn is_walk(start: PathView, steps: Seq<Step>) -> bool
    decreases steps.len(),
{
    steps.len() > 0 ==> is_walk(start, steps.drop_last()) && walked(
        start,
        steps.drop_last(),
    ).allows(steps.last())
}

/// The folders that a scan opens, one after the other.
pub open spec fn opened(start: PathView, steps: Seq<Step>) -> Seq<int>
    decreases steps.len(),
{
    if steps.len() == 0 {
        seq![]
    } else {
        let before = walked(start, steps.drop_last());
        if steps.last() is Open && before.next < before.nodes.len() {
            opened(start, steps.drop_last()).push(before.next)
        } else {
            opened(start, steps.drop_last())
        }
    }
}

/// Whether folder `i` was found in folder `p`.
pub open spec fn found_in(scan: ScannerView, i: int, p: int) -> bool {
    &&& scan.nodes[i].parent == Some(p as usize)
    &&& exists|name: Seq<u16>| scan.nodes[i].path == #[trigger] scan.nodes[p].path.join(name)
}

/// Whether the folders stand in the order in which they were found.
spec fn in_order(scan: ScannerView) -> bool {
    &&& 0 <= scan.next <= scan.nodes.len()
    &&& 0 < scan.nodes.len() <= usize::MAX
    &&& scan.nodes[0].parent is None
    &&& forall|i: int|
        0 < i < scan.nodes.len() ==> (#[trigger] scan.nodes[i]).parent is Some
            && scan.nodes[i].parent->0 < i && scan.nodes[i].parent->0 < scan.next && found_in(
            scan,
            i,
            scan.nodes[i].parent->0 as int,
        )
    &&& forall|i: int, j: int|
        0 < i <= j < scan.nodes.len() ==> (#[trigger] scan.nodes[i]).parent->0 <= (
        #[trigger] scan.nodes[j]).parent->0
    &&& forall|i: int, j: int|
        0 <= i <= j < scan.nodes.len() ==> (#[trigger] scan.nodes[i]).path.names.len() <= (
        #[trigger] scan.nodes[j]).path.names.len()
}

/// A step leaves the folders that were found in their places.
proof fn steps_keep_folders(before: ScannerView, step: Step)
    requires
        before.allows(step),
        0 <= before.next <= before.nodes.len(),
    ensures
        before.nodes.len() <= before.after(step).nodes.len(),
        forall|i: int|
            0 <= i < before.nodes.len() ==> (#[trigger] before.after(step).nodes[i]).path
                == before.nodes[i].path && before.after(step).nodes[i].parent
                == before.nodes[i].parent,
        before.next <= before.after(step).next <= before.after(step).nodes.len(),
{
}

proof fn steps_keep_the_order(before: ScannerView, step: Step)
    requires
        in_order(before),
        before.allows(step),
        before.after(step).nodes.len() <= usize::MAX,
    ensures
        in_order(before.after(step)),
{
    steps_keep_folders(before, step);
    let after = before.after(step);
    let n = before.nodes.len() as int;
    let p = before.next - 1;
    if after.nodes.len() > n {
        assert(step is Entry);
        let name = step->Entry_0->Folder_0;
        assert(after.nodes.len() == n + 1);
        assert(after.nodes[n].parent == Some(p as usize));
        assert(after.nodes[n].path == after.nodes[p].path.join(name));
        assert(before.nodes[n - 1].path.names.len() <= before.nodes[p].path.names.len() + 1) by {
            if n > 1 {
                let q = before.nodes[n - 1].parent->0 as int;
                assert(found_in(before, n - 1, q));
                assert(before.nodes[q].path.names.len() <= before.nodes[p].path.names.len());
            }
        }
    }
    assert forall|i: int| 0 < i < after.nodes.len() implies (
    #[trigger] after.nodes[i]).parent is Some && after.nodes[i].parent->0 < i
        && after.nodes[i].parent->0 < after.next && found_in(
        after,
        i,
        after.nodes[i].parent->0 as int,
    ) by {
        if i < n {
            let q = before.nodes[i].parent->0 as int;
            assert(found_in(before, i, q));
            let name = choose|name: Seq<u16>|
                before.nodes[i].path == #[trigger] before.nodes[q].path.join(name);
            assert(after.nodes[i].path == after.nodes[q].path.join(name));
        }
    }
    assert forall|i: int, j: int| 0 < i <= j < after.nodes.len() implies (
    #[trigger] after.nodes[i]).parent->0 <= (#[trigger] after.nodes[j]).parent->0 by {
        if j < n {
            assert(before.nodes[i].parent->0 <= before.nodes[j].parent->0);
        } else if i < n {
            assert(before.nodes[i].parent->0 < before.next);
        }
    }
    assert forall|i: int, j: int| 0 <= i <= j < after.nodes.len() implies (
    #[trigger] after.nodes[i]).path.names.len() <= (
    #[trigger] after.nodes[j]).path.names.len() by {
        if j < n {
            assert(before.nodes[i].path.names.len() <= before.nodes[j].path.names.len());
        } else if i < n {
            assert(before.nodes[i].path.names.len() <= before.nodes[n - 1].path.names.len());
        }
    }
}

proof fn walks_keep_the_order(start: PathView, steps: Seq<Step>)
    requires
        is_walk(start, steps),
        walked(start, steps).nodes.len() <= usize::MAX,
    ensures
        in_order(walked(start, steps)),
        walked(start, steps).nodes[0].path == start,
        opened(start, steps) == Seq::new(walked(start, steps).next as nat, |i: int| i),
    decreases steps.len(),
{
    if steps.len() == 0 {
        assert(opened(start, steps) =~= Seq::new(0, |i: int| i));
    } else {
        let rest = steps.drop_last();
        let before = walked(start, rest);
        next_stays_inside(start, rest);
        steps_keep_folders(before, steps.last());
        walks_keep_the_order(start, rest);
        steps_keep_the_order(before, steps.last());
        assert(opened(start, steps) =~= Seq::new(walked(start, steps).next as nat, |i: int| i));
    }
}

proof fn next_stays_inside(start: PathView, steps: Seq<Step>)
    requires
        is_walk(start, steps),
    ensures
        0 <= walked(start, steps).next <= walked(start, steps).nodes.len(),
    decreases steps.len(),
{
    if steps.len() > 0 {
        next_stays_inside(start, steps.drop_last());
        steps_keep_folders(walked(start, steps.drop_last()), steps.last());
    }
}

/// A scan opens the folders that it finds in the order in which it finds them,
/// each once, the top levels before the deeper ones. Every folder but the first
/// was found in one that was opened, under the path that was joined there.
/// Once no folder is left to open, every one was opened.
pub proof fn folders_are_opened_once_and_in_order(start: PathView, steps: Seq<Step>)
    requires
        is_walk(start, steps),
        walked(start, steps).nodes.len() <= usize::MAX,
    ensures
        ({
            let scan = walked(start, steps);
            &&& opened(start, steps) == Seq::new(scan.next as nat, |i: int| i)
            &&& 0 <= scan.next <= scan.nodes.len()
            &&& scan.nodes[0].path == start
            &&& forall|i: int|
                0 < i < scan.nodes.len() ==> ((#[trigger] scan.nodes[i]).parent matches Some(p) && p
                    < i && p < scan.next && found_in(scan, i, p as int))
            &&& forall|i: int, j: int|
                0 <= i <= j < scan.nodes.len() ==> (#[trigger] scan.nodes[i]).path.names.len() <= (
                #[trigger] scan.nodes[j]).path.names.len()
        }),
{
    walks_keep_the_order(start, steps);
}

/// A folder that was opened stays as it was found: later steps neither move it
/// nor change its path, and open it no more.
pub proof fn opened_folders_stay(start: PathView, steps: Seq<Step>, n: int, i: int)
    requires
        is_walk(start, steps),
        0 <= n <= steps.len(),
        0 <= i < walked(start, steps.take(n)).nodes.len(),
    ensures
        i < walked(start, steps).nodes.len(),
        walked(start, steps).nodes[i].path == walked(start, steps.take(n)).nodes[i].path,
        walked(start, steps).nodes[i].parent == walked(start, steps.take(n)).nodes[i].parent,
        walked(start, steps.take(n)).next <= walked(start, steps).next,
    decreases steps.len(),
{
    if n == steps.len() {
        assert(steps.take(n) =~= steps);
    } else {
        let rest = steps.drop_last();
        assert(rest.take(n) =~= steps.take(n));
        opened_folders_stay(start, rest, n, i);
        next_stays_inside(start, rest);
        steps_keep_folders(walked(start, rest), steps.last());
    }
}

/// Whether a scan meets only names of folders.
pub open spec fn meets_names(anchor: AnchorView, steps: Seq<Step>) -> bool {
    forall|k: int|
        0 <= k < steps.len() ==> ((#[trigger] steps[k]) matches Step::Entry(
            FoundView::Folder(name),
        ) ==> anchor.is_name(name))
}

/// Every path of a scan is read as it is written, where the path that it started
/// from is: what a scan saves can be shown again.
pub proof fn scanned_paths_are_read(anchor: AnchorView, start: PathView, steps: Seq<Step>)
    requires
        is_walk(start, steps),
        anchor.reads(start),
        anchor.can_join(start),
        meets_names(anchor, steps),
    ensures
        forall|i: int|
            0 <= i < walked(start, steps).nodes.len() ==> anchor.reads(
                (#[trigger] walked(start, steps).nodes[i]).path,
            ) && anchor.can_join(walked(start, steps).nodes[i].path),
    decreases steps.len(),
{
    if steps.len() > 0 {
        let rest = steps.drop_last();
        let before = walked(start, rest);
        let after = walked(start, steps);
        assert forall|k: int| 0 <= k < rest.len() implies ((#[trigger] rest[k]) matches Step::Entry(
            FoundView::Folder(name),
        ) ==> anchor.is_name(name)) by {
            assert(rest[k] == steps[k]);
        }
        scanned_paths_are_read(anchor, start, rest);
        next_stays_inside(start, rest);
        steps_keep_folders(before, steps.last());
        assert(steps[steps.len() - 1] == steps.last());
        if let Step::Entry(FoundView::Folder(name)) = steps.last() {
            joined_paths_are_read(anchor, before.here().path, name);
        }
        assert forall|i: int| 0 <= i < after.nodes.len() implies anchor.reads(
            (#[trigger] after.nodes[i]).path,
        ) && anchor.can_join(after.nodes[i].path) by {
            if i < before.nodes.len() {
                assert(after.nodes[i].path == before.nodes[i].path);
            }
        }
    }
}

} // verus!
