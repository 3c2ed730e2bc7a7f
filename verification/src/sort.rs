//! Sorting of number pairs.
use vstd::prelude::*;

verus! {

/// Whether pair `a` may stand before pair `b`: the first numbers decide, then the second.
pub open spec fn pair_le(a: (u64, u64), b: (u64, u64)) -> bool {
    a.0 < b.0 || (a.0 == b.0 && a.1 <= b.1)
}

/// Whether pairs stand in order.
pub open spec fn pairs_sorted(s: Seq<(u64, u64)>) -> bool {
    forall|i: int, j: int| 0 <= i <= j < s.len() ==> pair_le(#[trigger] s[i], #[trigger] s[j])
}

/// Pairs in order.
pub open spec fn sorted_pairs(s: Seq<(u64, u64)>) -> Seq<(u64, u64)> {
    s.sort_by(|a: (u64, u64), b: (u64, u64)| pair_le(a, b))
}

/// Sorting gives the one ordered arrangement of the same pairs.
pub proof fn sorting_is_unique(s: Seq<(u64, u64)>, r: Seq<(u64, u64)>)
    requires
        pairs_sorted(r),
        r.to_multiset() == s.to_multiset(),
    ensures
        r == sorted_pairs(s),
{
    let leq = |a: (u64, u64), b: (u64, u64)| pair_le(a, b);
    assert(vstd::relations::total_ordering(leq));
    s.lemma_sort_by_ensures(leq);
    assert(vstd::relations::sorted_by(r, leq));
    vstd::seq_lib::lemma_sorted_unique(r, s.sort_by(leq), leq);
}

/// The sorted pairs are in order, and are those that were sorted.
pub proof fn sorting_orders_the_pairs(s: Seq<(u64, u64)>)
    ensures
        pairs_sorted(sorted_pairs(s)),
        sorted_pairs(s).to_multiset() == s.to_multiset(),
        sorted_pairs(s).len() == s.len(),
        forall|p: (u64, u64)| #[trigger] sorted_pairs(s).contains(p) <==> s.contains(p),
{
    let leq = |a: (u64, u64), b: (u64, u64)| pair_le(a, b);
    assert(vstd::relations::total_ordering(leq));
    s.lemma_sort_by_ensures(leq);
    let r = sorted_pairs(s);
    assert(vstd::relations::sorted_by(r, leq));
    assert forall|i: int, j: int| 0 <= i <= j < r.len() implies pair_le(
        #[trigger] r[i],
        #[trigger] r[j],
    ) by {
        if i < j {
            assert(leq(r[i], r[j]));
        }
    }
    r.to_multiset_ensures();
    s.to_multiset_ensures();
    assert forall|p: (u64, u64)| #[trigger] r.contains(p) <==> s.contains(p) by {
        assert(r.contains(p) <==> r.to_multiset().count(p) > 0);
        assert(s.contains(p) <==> s.to_multiset().count(p) > 0);
    }
}

/// The pairs of `v`, in order.
pub fn sort_pairs(v: &Vec<(u64, u64)>) -> (r: Vec<(u64, u64)>)
    ensures
        r@ == sorted_pairs(v@),
        pairs_sorted(r@),
        r@.to_multiset() == v@.to_multiset(),
        r@.len() == v@.len(),
{
    let r = sort_range(v, 0, v.len());
    assert(v@.subrange(0, v@.len() as int) =~= v@);
    proof {
        r@.to_multiset_ensures();
        v@.to_multiset_ensures();
        sorting_is_unique(v@, r@);
    }
    r
}

/// The pairs of `v` from `from` to `to`, in order.
fn sort_range(v: &Vec<(u64, u64)>, from: usize, to: usize) -> (r: Vec<(u64, u64)>)
    requires
        from <= to <= v@.len(),
    ensures
        pairs_sorted(r@),
        r@.to_multiset() == v@.subrange(from as int, to as int).to_multiset(),
    decreases to - from,
{
    let mut r: Vec<(u64, u64)> = Vec::new();
    if to - from <= 1 {
        if from < to {
            r.push(v[from]);
        }
        assert(r@ =~= v@.subrange(from as int, to as int));
        return r;
    }
    let middle: usize = from + (to - from) / 2;
    let a = sort_range(v, from, middle);
    let b = sort_range(v, middle, to);
    proof {
        assert(v@.subrange(from as int, to as int) =~= v@.subrange(from as int, middle as int)
            + v@.subrange(middle as int, to as int));
        vstd::seq_lib::lemma_multiset_commutative(
            v@.subrange(from as int, middle as int),
            v@.subrange(middle as int, to as int),
        );
    }
    merge_sorted(&a, &b)
}

/// Two ordered lists, put together in order.
fn merge_sorted(a: &Vec<(u64, u64)>, b: &Vec<(u64, u64)>) -> (r: Vec<(u64, u64)>)
    requires
        pairs_sorted(a@),
        pairs_sorted(b@),
    ensures
        pairs_sorted(r@),
        r@.to_multiset() == a@.to_multiset().add(b@.to_multiset()),
{
    let mut r: Vec<(u64, u64)> = Vec::new();
    let mut i: usize = 0;
    let mut j: usize = 0;
    proof {
        r@.to_multiset_ensures();
        assert(a@.take(0) =~= seq![]);
        assert(b@.take(0) =~= seq![]);
        assert(r@ =~= seq![]);
        assert(r@.to_multiset() =~= a@.take(0).to_multiset().add(b@.take(0).to_multiset()));
    }
    while i < a.len() || j < b.len()
        invariant
            i <= a@.len(),
            j <= b@.len(),
            pairs_sorted(a@),
            pairs_sorted(b@),
            pairs_sorted(r@),
            r@.to_multiset() == a@.take(i as int).to_multiset().add(b@.take(j as int).to_multiset()),
            forall|k: int, l: int| 0 <= k < r@.len() && i <= l < a@.len() ==> pair_le(#[trigger] r@[k], #[trigger] a@[l]),
            forall|k: int, l: int| 0 <= k < r@.len() && j <= l < b@.len() ==> pair_le(#[trigger] r@[k], #[trigger] b@[l]),
        decreases a@.len() - i + b@.len() - j,
    {
        proof {
            r@.to_multiset_ensures();
            a@.take(i as int).to_multiset_ensures();
            b@.take(j as int).to_multiset_ensures();
        }
        let left: bool = if i >= a.len() {
            false
        } else if j >= b.len() {
            true
        } else {
            a[i].0 < b[j].0 || (a[i].0 == b[j].0 && a[i].1 <= b[j].1)
        };
        let ghost before = r@;
        if left {
            r.push(a[i]);
            i += 1;
            proof {
                assert(a@.take(i as int) =~= a@.take(i - 1).push(a@[i - 1]));
                assert(before.to_multiset().insert(a@[i - 1]) =~= a@.take(i as int).to_multiset().add(b@.take(j as int).to_multiset()));
            }
        } else {
            r.push(b[j]);
            j += 1;
            proof {
                assert(b@.take(j as int) =~= b@.take(j - 1).push(b@[j - 1]));
                assert(before.to_multiset().insert(b@[j - 1]) =~= a@.take(i as int).to_multiset().add(b@.take(j as int).to_multiset()));
            }
        }
    }
    assert(a@.take(i as int) =~= a@);
    assert(b@.take(j as int) =~= b@);
    r
}

/// Whether each number is smaller than the next.
pub open spec fn strictly_increasing(s: Seq<u64>) -> bool {
    forall|i: int, j: int| 0 <= i < j < s.len() ==> #[trigger] s[i] < #[trigger] s[j]
}

/// `s` with `x` at its place, once.
pub open spec fn insert_in_order(s: Seq<u64>, x: u64) -> Seq<u64>
    decreases s.len(),
{
    if s.len() == 0 || s.last() < x {
        s.push(x)
    } else if s.last() == x {
        s
    } else {
        insert_in_order(s.drop_last(), x).push(s.last())
    }
}

/// The numbers of `s` in increasing order, each once.
pub open spec fn in_order(s: Seq<u64>) -> Seq<u64>
    decreases s.len(),
{
    if s.len() == 0 {
        seq![]
    } else {
        insert_in_order(in_order(s.drop_last()), s.last())
    }
}

proof fn insert_in_order_facts(s: Seq<u64>, x: u64)
    requires
        strictly_increasing(s),
    ensures
        strictly_increasing(insert_in_order(s, x)),
        forall|y: u64| #[trigger] insert_in_order(s, x).contains(y) <==> s.contains(y) || y == x,
    decreases s.len(),
{
    let r = insert_in_order(s, x);
    if s.len() == 0 || s.last() < x {
        assert(r[r.len() - 1] == x);
        assert forall|y: u64| #[trigger] r.contains(y) <==> s.contains(y) || y == x by {
            if s.contains(y) {
                let i = choose|i: int| 0 <= i < s.len() && s[i] == y;
                assert(r[i] == y);
            }
        }
    } else if s.last() == x {
    } else {
        let head = insert_in_order(s.drop_last(), x);
        insert_in_order_facts(s.drop_last(), x);
        assert forall|y: u64| #[trigger] head.contains(y) implies y < s.last() by {
            if s.drop_last().contains(y) {
                let i = choose|i: int| 0 <= i < s.len() - 1 && s.drop_last()[i] == y;
                assert(s[i] == y && s[s.len() - 1] == s.last());
            }
        }
        assert forall|i: int, j: int| 0 <= i < j < r.len() implies #[trigger] r[i] < #[trigger] r[j] by {
            if j == r.len() - 1 {
                assert(head.contains(head[i]));
            }
        }
        assert forall|y: u64| #[trigger] r.contains(y) <==> s.contains(y) || y == x by {
            if r.contains(y) {
                let i = choose|i: int| 0 <= i < r.len() && r[i] == y;
                if i < head.len() {
                    assert(head.contains(y));
                    if s.drop_last().contains(y) {
                        let k = choose|k: int| 0 <= k < s.len() - 1 && s.drop_last()[k] == y;
                        assert(s[k] == y);
                    }
                } else {
                    assert(s[s.len() - 1] == y);
                }
            }
            if s.contains(y) || y == x {
                if y == s.last() {
                    assert(r[r.len() - 1] == y);
                } else {
                    if s.contains(y) {
                        let k = choose|k: int| 0 <= k < s.len() && s[k] == y;
                        assert(s.drop_last()[k] == y);
                    }
                    assert(head.contains(y));
                    let i = choose|i: int| 0 <= i < head.len() && head[i] == y;
                    assert(r[i] == y);
                }
            }
        }
    }
}

/// Putting numbers in order keeps exactly the numbers, each once.
pub proof fn in_order_keeps_the_numbers(s: Seq<u64>)
    ensures
        strictly_increasing(in_order(s)),
        forall|y: u64| #[trigger] in_order(s).contains(y) <==> s.contains(y),
    decreases s.len(),
{
    if s.len() > 0 {
        in_order_keeps_the_numbers(s.drop_last());
        insert_in_order_facts(in_order(s.drop_last()), s.last());
        assert forall|y: u64| #[trigger] in_order(s).contains(y) <==> s.contains(y) by {
            if s.contains(y) {
                let k = choose|k: int| 0 <= k < s.len() && s[k] == y;
                if k < s.len() - 1 {
                    assert(s.drop_last()[k] == y);
                }
            }
            if s.drop_last().contains(y) {
                let k = choose|k: int| 0 <= k < s.len() - 1 && s.drop_last()[k] == y;
                assert(s[k] == y);
            }
            assert(s[s.len() - 1] == s.last());
        }
    }
}

/// Only one increasing list holds given numbers.
pub proof fn increasing_lists_are_unique(a: Seq<u64>, b: Seq<u64>)
    requires
        strictly_increasing(a),
        strictly_increasing(b),
        forall|y: u64| a.contains(y) <==> b.contains(y),
    ensures
        a == b,
    decreases a.len(),
{
    if a.len() == 0 {
        if b.len() > 0 {
            assert(b.contains(b[0]));
        }
        assert(a =~= b);
    } else {
        assert(a.contains(a.last()));
        let i = choose|i: int| 0 <= i < b.len() && b[i] == a.last();
        assert(b.contains(b.last()));
        let j = choose|j: int| 0 <= j < a.len() && a[j] == b.last();
        assert(a.last() == b.last());
        let (x, y) = (a.drop_last(), b.drop_last());
        assert forall|v: u64| x.contains(v) <==> y.contains(v) by {
            if x.contains(v) {
                let k = choose|k: int| 0 <= k < x.len() && x[k] == v;
                assert(a[k] == v);
                assert(a.contains(v));
                let m = choose|m: int| 0 <= m < b.len() && b[m] == v;
                assert(y[m] == v);
            }
            if y.contains(v) {
                let k = choose|k: int| 0 <= k < y.len() && y[k] == v;
                assert(b[k] == v);
                assert(b.contains(v));
                let m = choose|m: int| 0 <= m < a.len() && a[m] == v;
                assert(x[m] == v);
            }
        }
        increasing_lists_are_unique(x, y);
        assert(a =~= x.push(a.last()));
        assert(b =~= y.push(b.last()));
    }
}

/// The numbers of `v` in increasing order, each once.
pub fn sort_distinct(v: &Vec<u64>) -> (r: Vec<u64>)
    ensures
        r@ == in_order(v@),
{
    let mut pairs: Vec<(u64, u64)> = Vec::new();
    let mut i: usize = 0;
    while i < v.len()
        invariant
            i <= v@.len(),
            pairs@.len() == i,
            forall|k: int| 0 <= k < i ==> #[trigger] pairs@[k] == (v@[k], 0u64),
        decreases v@.len() - i,
    {
        pairs.push((v[i], 0));
        i += 1;
    }
    let sorted = sort_pairs(&pairs);
    let mut r: Vec<u64> = Vec::new();
    let mut i: usize = 0;
    while i < sorted.len()
        invariant
            i <= sorted@.len(),
            pairs_sorted(sorted@),
            strictly_increasing(r@),
            forall|k: int| 0 <= k < i ==> r@.contains((#[trigger] sorted@[k]).0),
            forall|k: int| 0 <= k < r@.len() ==> exists|m: int| 0 <= m < i && (#[trigger] sorted@[m]).0 == #[trigger] r@[k],
            r@.len() == 0 <==> i == 0,
            r@.len() > 0 ==> r@.last() == sorted@[i - 1].0,
        decreases sorted@.len() - i,
    {
        let x: u64 = sorted[i].0;
        let ghost before = r@;
        if r.len() == 0 || r[r.len() - 1] != x {
            assert forall|k: int| 0 <= k < r@.len() implies #[trigger] r@[k] < x by {
                let m = choose|m: int| 0 <= m < i && (#[trigger] sorted@[m]).0 == r@[k];
                assert(pair_le(sorted@[m], sorted@[i as int]));
                if r@[k] == x {
                    assert(pair_le(sorted@[m], sorted@[i - 1]));
                    assert(pair_le(sorted@[i - 1], sorted@[i as int]));
                }
            }
            r.push(x);
            assert(r@[r@.len() - 1] == x);
        } else {
            assert(r@[r@.len() - 1] == x);
        }
        i += 1;
        proof {
            assert forall|k: int| 0 <= k < i implies r@.contains((#[trigger] sorted@[k]).0) by {
                if k < i - 1 {
                    let m = choose|m: int| 0 <= m < before.len() && before[m] == sorted@[k].0;
                    assert(r@[m] == sorted@[k].0);
                }
            }
            assert forall|k: int| 0 <= k < r@.len() implies exists|m: int| 0 <= m < i && (#[trigger] sorted@[m]).0 == #[trigger] r@[k] by {
                if k < before.len() {
                    let m = choose|m: int| 0 <= m < i - 1 && (#[trigger] sorted@[m]).0 == before[k];
                    assert(sorted@[m].0 == r@[k]);
                } else {
                    assert(sorted@[i - 1].0 == r@[k]);
                }
            }
        }
    }
    proof {
        pairs@.to_multiset_ensures();
        sorted@.to_multiset_ensures();
        assert forall|y: u64| r@.contains(y) <==> in_order(v@).contains(y) by {
            in_order_keeps_the_numbers(v@);
            if r@.contains(y) {
                let k = choose|k: int| 0 <= k < r@.len() && r@[k] == y;
                let m = choose|m: int| 0 <= m < sorted@.len() && (#[trigger] sorted@[m]).0 == r@[k];
                assert(sorted@.contains(sorted@[m]));
                assert(pairs@.to_multiset().count(sorted@[m]) > 0);
                assert(pairs@.contains(sorted@[m]));
                let n = choose|n: int| 0 <= n < pairs@.len() && pairs@[n] == sorted@[m];
                assert(v@[n] == y);
            }
            if v@.contains(y) {
                let n = choose|n: int| 0 <= n < v@.len() && v@[n] == y;
                assert(pairs@[n] == (y, 0u64));
                assert(pairs@.contains((y, 0u64)));
                assert(sorted@.to_multiset().count((y, 0u64)) > 0);
                assert(sorted@.contains((y, 0u64)));
                let m = choose|m: int| 0 <= m < sorted@.len() && sorted@[m] == (y, 0u64);
                assert(r@.contains(sorted@[m].0));
            }
        }
        in_order_keeps_the_numbers(v@);
        increasing_lists_are_unique(r@, in_order(v@));
    }
    r
}

} // verus!
