//! Breadth-first copies of trees: in what order folders come, and below which.
use vstd::prelude::*;

verus! {

/// A copied folder: where it stood, and the position of the copy that it lies
/// below. The folders that the copy starts with lie below none.
#[derive(Clone, Copy, Debug)]
pub struct Placement {
    pub source: usize,
    pub parent: Option<usize>,
}

/// Whether every listed child stands after the folder that lists it.
pub open spec fn ordered(kids: Seq<Seq<usize>>) -> bool {
    forall|x: int, k: int|
        0 <= x < kids.len() && 0 <= k < kids[x].len() ==> x < #[trigger] kids[x][k] < kids.len()
}

/// How many folders hang on the first `n` children of `x`.
pub open spec fn hanging(kids: Seq<Seq<usize>>, x: int, n: int) -> nat
    decreases kids.len() - x, n,
    when ordered(kids) && 0 <= x < kids.len() && n <= kids[x].len()
{
    if n <= 0 {
        0
    } else {
        let c = kids[x][n - 1] as int;
        hanging(kids, x, n - 1) + 1 + hanging(kids, c, kids[c].len() as int)
    }
}

/// How many folders come of one: itself and all below it.
pub open spec fn offspring(kids: Seq<Seq<usize>>, x: int) -> nat {
    1 + hanging(kids, x, kids[x].len() as int)
}

/// How many folders come of those in `list` from `next` on.
pub open spec fn waiting(kids: Seq<Seq<usize>>, list: Seq<Placement>, next: int) -> nat
    decreases list.len() - next,
{
    if next >= list.len() {
        0
    } else {
        offspring(kids, list[next].source as int) + waiting(kids, list, next + 1)
    }
}

/// Children in a row below the copy at `at`.
pub open spec fn row(children: Seq<usize>, at: int) -> Seq<Placement> {
    Seq::new(
        children.len(),
        |k: int| Placement { source: children[k], parent: Some(at as usize) },
    )
}

/// The folders in `list` and all below them, where those before `next` have
/// their children in the list already.
pub open spec fn spread(kids: Seq<Seq<usize>>, list: Seq<Placement>, next: int) -> Seq<Placement>
    decreases waiting(kids, list, next),
    when ordered(kids) && sources_exist(kids, list) && 0 <= next
    via spread_ends
{
    if next >= list.len() {
        list
    } else {
        spread(kids, list + row(kids[list[next].source as int], next), next + 1)
    }
}

/// Whether every placement stands for a folder.
pub open spec fn sources_exist(kids: Seq<Seq<usize>>, list: Seq<Placement>) -> bool {
    forall|k: int| 0 <= k < list.len() ==> (#[trigger] list[k]).source < kids.len()
}

proof fn waiting_of_more(kids: Seq<Seq<usize>>, list: Seq<Placement>, x: int, at: int, n: int, next: int)
    requires
        ordered(kids),
        sources_exist(kids, list),
        0 <= x < kids.len(),
        0 <= n <= kids[x].len(),
        0 <= next <= list.len(),
    ensures
        waiting(kids, list + row(kids[x], at).take(n), next) == waiting(kids, list, next) + hanging(
            kids,
            x,
            n,
        ),
    decreases n, list.len() - next,
{
    let more = list + row(kids[x], at).take(n);
    if n == 0 {
        assert(more =~= list);
    } else {
        waiting_of_one_more(kids, list + row(kids[x], at).take(n - 1), row(kids[x], at)[n - 1], next);
        waiting_of_more(kids, list, x, at, n - 1, next);
        assert(more =~= (list + row(kids[x], at).take(n - 1)).push(row(kids[x], at)[n - 1]));
    }
}

proof fn waiting_of_one_more(kids: Seq<Seq<usize>>, list: Seq<Placement>, p: Placement, next: int)
    requires
        0 <= next <= list.len(),
    ensures
        waiting(kids, list.push(p), next) == waiting(kids, list, next) + offspring(
            kids,
            p.source as int,
        ),
    decreases list.len() - next,
{
    if next < list.len() {
        waiting_of_one_more(kids, list, p, next + 1);
    } else {
        assert(waiting(kids, list.push(p), next + 1) == 0);
    }
}

/// One step leaves fewer folders waiting.
pub proof fn spreading_shrinks(kids: Seq<Seq<usize>>, list: Seq<Placement>, next: int)
    requires
        ordered(kids),
        sources_exist(kids, list),
        0 <= next < list.len(),
    ensures
        waiting(kids, list + row(kids[list[next].source as int], next), next + 1) < waiting(
            kids,
            list,
            next,
        ),
        sources_exist(kids, list + row(kids[list[next].source as int], next)),
{
    let x = list[next].source as int;
    let r = row(kids[x], next);
    assert(r.take(r.len() as int) =~= r);
    waiting_of_more(kids, list, x, next, kids[x].len() as int, next + 1);
    let more = list + r;
    assert forall|k: int| 0 <= k < more.len() implies (#[trigger] more[k]).source < kids.len() by {
        if k >= list.len() {
            assert(kids[x][k - list.len()] < kids.len());
        }
    }
}

#[via_fn]
proof fn spread_ends(kids: Seq<Seq<usize>>, list: Seq<Placement>, next: int) {
    if next < list.len() {
        spreading_shrinks(kids, list, next);
    }
}

/// The sources of the placements, before `n`, that lie below the copy at `at`.
pub open spec fn sources_below(list: Seq<Placement>, at: int, n: int) -> Seq<usize>
    decreases n,
{
    if n <= 0 {
        seq![]
    } else if list[n - 1].parent == Some(at as usize) {
        sources_below(list, at, n - 1).push(list[n - 1].source)
    } else {
        sources_below(list, at, n - 1)
    }
}

/// Whether copies before `next` have all their children below them, later ones
/// none, and every copy lies below an earlier one.
pub open spec fn in_rows(kids: Seq<Seq<usize>>, list: Seq<Placement>, next: int) -> bool {
    &&& forall|k: int|
        0 <= k < list.len() ==> ((#[trigger] list[k]).parent matches Some(p) ==> p < k && p < next)
    &&& forall|k: int|
        0 <= k < next && k < list.len() ==> #[trigger] sources_below(list, k, list.len() as int)
            == kids[list[k].source as int]
}

proof fn sources_below_prefix(a: Seq<Placement>, b: Seq<Placement>, at: int, n: int)
    requires
        0 <= n <= a.len(),
        n <= b.len(),
        forall|k: int| 0 <= k < n ==> a[k] == b[k],
    ensures
        sources_below(a, at, n) == sources_below(b, at, n),
    decreases n,
{
    if n > 0 {
        sources_below_prefix(a, b, at, n - 1);
    }
}

proof fn sources_below_none(list: Seq<Placement>, at: int, n: int)
    requires
        0 <= n <= list.len(),
        forall|k: int| 0 <= k < n ==> (#[trigger] list[k]).parent != Some(at as usize),
    ensures
        sources_below(list, at, n) == Seq::<usize>::empty(),
    decreases n,
{
    if n > 0 {
        sources_below_none(list, at, n - 1);
        assert(list[n - 1].parent != Some(at as usize));
    }
}

proof fn sources_below_row(list: Seq<Placement>, children: Seq<usize>, at: int, k: int, n: int)
    requires
        0 <= n <= children.len(),
        0 <= at <= usize::MAX,
        0 <= k <= usize::MAX,
    ensures
        sources_below(list + row(children, at), k, list.len() + n) == sources_below(
            list,
            k,
            list.len() as int,
        ) + (if k == at {
            children.take(n)
        } else {
            seq![]
        }),
    decreases n,
{
    let more = list + row(children, at);
    if n == 0 {
        sources_below_prefix(more, list, k, list.len() as int);
        assert(children.take(0) =~= seq![]);
        assert(sources_below(list, k, list.len() as int) + Seq::<usize>::empty() =~= sources_below(
            list,
            k,
            list.len() as int,
        ));
    } else {
        sources_below_row(list, children, at, k, n - 1);
        assert(more[list.len() + n - 1] == row(children, at)[n - 1]);
        if k == at {
            assert(children.take(n) =~= children.take(n - 1).push(children[n - 1]));
            assert(sources_below(list, k, list.len() as int) + children.take(n) =~= (sources_below(
                list,
                k,
                list.len() as int,
            ) + children.take(n - 1)).push(children[n - 1]));
        }
    }
}

/// One step keeps the rows.
pub proof fn spreading_keeps_rows(kids: Seq<Seq<usize>>, list: Seq<Placement>, next: int)
    requires
        in_rows(kids, list, next),
        0 <= next < list.len() <= usize::MAX,
    ensures
        in_rows(kids, list + row(kids[list[next].source as int], next), next + 1),
{
    let children = kids[list[next].source as int];
    let more = list + row(children, next);
    assert(children.take(children.len() as int) =~= children);
    assert forall|k: int| 0 <= k < next + 1 && k < more.len() implies #[trigger] sources_below(
        more,
        k,
        more.len() as int,
    ) == kids[more[k].source as int] by {
        sources_below_row(list, children, next, k, children.len() as int);
        if k == next {
            sources_below_none(list, k, list.len() as int);
            assert(Seq::<usize>::empty() + children =~= children);
        } else {
            assert(sources_below(list, k, list.len() as int) == kids[list[k].source as int]);
            assert(kids[list[k].source as int] + Seq::<usize>::empty()
                =~= kids[list[k].source as int]);
        }
    }
    assert forall|k: int| 0 <= k < more.len() implies ((#[trigger] more[k]).parent matches Some(p)
        ==> p < k && p < next + 1) by {
        if k < list.len() {
            assert(more[k] == list[k]);
        }
    }
}

/// What a list of lists holds.
pub open spec fn lists_of(kids: Seq<Vec<usize>>) -> Seq<Seq<usize>> {
    Seq::new(kids.len(), |i: int| kids[i]@)
}

/// The placements that a copy starts with.
pub open spec fn starting(sources: Seq<usize>) -> Seq<Placement> {
    Seq::new(sources.len(), |k: int| Placement { source: sources[k], parent: None })
}

/// The folders in `sources` and all below them, breadth first. Every folder
/// keeps exactly its own children, in their order.
pub fn spread_out(kids: &Vec<Vec<usize>>, sources: &Vec<usize>) -> (r: Vec<Placement>)
    requires
        ordered(lists_of(kids@)),
        forall|k: int| 0 <= k < sources@.len() ==> (#[trigger] sources@[k]) < kids@.len(),
    ensures
        r@ == spread(lists_of(kids@), starting(sources@), 0),
        sources_exist(lists_of(kids@), r@),
        in_rows(lists_of(kids@), r@, r@.len() as int),
        r@.len() >= sources@.len(),
        forall|k: int| 0 <= k < sources@.len() ==> r@[k] == starting(sources@)[k],
        forall|k: int| sources@.len() <= k < r@.len() ==> (#[trigger] r@[k]).parent is Some,
{
    let ghost table = lists_of(kids@);
    let mut r: Vec<Placement> = Vec::new();
    let mut i: usize = 0;
    while i < sources.len()
        invariant
            i <= sources@.len(),
            r@ == starting(sources@).take(i as int),
        decreases sources@.len() - i,
    {
        r.push(Placement { source: sources[i], parent: None });
        i += 1;
        assert(r@ =~= starting(sources@).take(i as int));
    }
    assert(r@ =~= starting(sources@));
    let mut next: usize = 0;
    while next < r.len()
        invariant
            table == lists_of(kids@),
            ordered(table),
            sources_exist(table, r@),
            in_rows(table, r@, next as int),
            next <= r@.len(),
            spread(table, r@, next as int) == spread(table, starting(sources@), 0),
            r@.len() >= sources@.len(),
            forall|k: int| 0 <= k < sources@.len() ==> r@[k] == starting(sources@)[k],
            forall|k: int| sources@.len() <= k < r@.len() ==> (#[trigger] r@[k]).parent is Some,
        decreases waiting(table, r@, next as int),
    {
        let ghost before = r@;
        let source: usize = r[next].source;
        let ghost whole = row(table[source as int], next as int);
        proof {
            assert(r.len() == r@.len());
            spreading_shrinks(table, r@, next as int);
            spreading_keeps_rows(table, r@, next as int);
            assert(before + whole.take(0) =~= before);
        }
        let mut k: usize = 0;
        while k < kids[source].len()
            invariant
                source < kids@.len(),
                table == lists_of(kids@),
                whole == row(table[source as int], next as int),
                k <= kids@[source as int]@.len(),
                r@ == before + whole.take(k as int),
            decreases kids@[source as int]@.len() - k,
        {
            r.push(Placement { source: kids[source][k], parent: Some(next) });
            k += 1;
            assert(r@ =~= before + whole.take(k as int));
        }
        assert(whole.take(k as int) =~= whole);
        next += 1;
    }
    r
}

} // verus!
