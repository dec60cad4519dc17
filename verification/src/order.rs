//! Stable sorting.

use vstd::prelude::*;
use vstd::relations::*;
use vstd::seq_lib::*;

verus! {

/// A strict order in which different values may share a rank.
pub open spec fn weak_order<A>(ahead: spec_fn(A, A) -> bool) -> bool {
    &&& forall|x: A| !#[trigger] ahead(x, x)
    &&& forall|x: A, y: A, z: A| #[trigger] ahead(x, y) && #[trigger] ahead(y, z) ==> ahead(x, z)
    &&& forall|x: A, y: A, z: A|
        !#[trigger] ahead(x, y) && !#[trigger] ahead(y, z) ==> !ahead(x, z)
}

/// Whether position `i` of `s` is sorted no later than position `j`: its value is ahead, or the two
/// values share a rank and `i` is no later in `s`.
pub open spec fn no_later<A>(s: Seq<A>, ahead: spec_fn(A, A) -> bool, i: int, j: int) -> bool {
    ahead(s[i], s[j]) || (!ahead(s[j], s[i]) && i <= j)
}

/// The numbers from `lo` up to, and without, `hi`.
pub open spec fn range(lo: int, hi: int) -> Seq<int> {
    Seq::new((hi - lo) as nat, |k: int| lo + k)
}

/// The positions of `s` in the order in which a stable sort puts their values.
pub open spec fn sorted_positions<A>(s: Seq<A>, ahead: spec_fn(A, A) -> bool) -> Seq<int> {
    range(0, s.len() as int).sort_by(|i: int, j: int| no_later(s, ahead, i, j))
}

/// `s` sorted by `ahead`; values that share a rank keep their order.
pub open spec fn sorted<A>(s: Seq<A>, ahead: spec_fn(A, A) -> bool) -> Seq<A> {
    sorted_positions(s, ahead).map_values(|i: int| s[i])
}

/// Values that are sorted by rank.
pub trait Ranked: View + Sized {
    /// Whether the value `a` is sorted before the value `b`.
    spec fn ahead(a: Self::V, b: Self::V) -> bool;

    /// The ranks are a weak order.
    proof fn ahead_weak_order()
        ensures
            weak_order(|a: Self::V, b: Self::V| Self::ahead(a, b)),
    ;

    /// Whether `self` is sorted before `other`.
    fn is_ahead(&self, other: &Self) -> (r: bool)
        ensures
            r == Self::ahead(self@, other@),
    ;
}

/// The values in `v`.
pub open spec fn views<T: View>(v: Seq<T>) -> Seq<T::V> {
    v.map_values(|t: T| t@)
}

proof fn lemma_no_later_total<A>(s: Seq<A>, ahead: spec_fn(A, A) -> bool)
    requires
        weak_order(ahead),
    ensures
        total_ordering(|i: int, j: int| no_later(s, ahead, i, j)),
{
    let leq = |i: int, j: int| no_later(s, ahead, i, j);
    assert forall|x: int, y: int| #[trigger] leq(x, y) && #[trigger] leq(y, x) implies x == y by {
        if ahead(s[x], s[y]) && ahead(s[y], s[x]) {
            assert(ahead(s[x], s[x]));
        }
    }
    assert forall|x: int, y: int, z: int| #[trigger] leq(x, y) && #[trigger] leq(y, z) implies leq(
        x,
        z,
    ) by {
        let (a, b, c) = (s[x], s[y], s[z]);
        if ahead(a, b) && ahead(b, c) {
        } else if ahead(a, b) {
            // b and c share a rank or c is behind b
            if !ahead(a, c) {
                assert(!ahead(c, b));
                assert(!ahead(a, b));
            }
        } else if ahead(b, c) {
            if !ahead(a, c) {
                assert(!ahead(b, a));
                assert(!ahead(b, c));
            }
        } else {
            assert(!ahead(c, b) && !ahead(b, a));
            assert(!ahead(c, a));
        }
    }
    assert forall|x: int| #[trigger] leq(x, x) by {}
    assert forall|x: int, y: int| #[trigger] leq(x, y) || #[trigger] leq(y, x) by {}
}

spec fn ints(v: Seq<usize>) -> Seq<int> {
    v.map_values(|i: usize| i as int)
}

/// The positions `lo` up to `hi` of `items`, sorted.
fn sort_positions<T: Ranked>(items: &[T], lo: usize, hi: usize) -> (r: Vec<usize>)
    requires
        lo <= hi <= items@.len(),
    ensures
        ints(r@).to_multiset() == range(lo as int, hi as int).to_multiset(),
        sorted_by(
            ints(r@),
            |i: int, j: int|
                no_later(views(items@), |a: T::V, b: T::V| T::ahead(a, b), i, j),
        ),
        forall|k: int| 0 <= k < r@.len() ==> lo <= #[trigger] r@[k] < hi,
    decreases hi - lo,
{
    if hi - lo <= 1 {
        let mut r: Vec<usize> = Vec::new();
        if lo < hi {
            r.push(lo);
        }
        assert(ints(r@) =~= range(lo as int, hi as int));
        r
    } else {
        let mid: usize = lo + (hi - lo) / 2;
        let left = sort_positions(items, lo, mid);
        let right = sort_positions(items, mid, hi);
        assert(range(lo as int, hi as int) =~= range(lo as int, mid as int) + range(
            mid as int,
            hi as int,
        ));
        proof {
            lemma_multiset_commutative(range(lo as int, mid as int), range(mid as int, hi as int));
        }
        merge(items, &left, &right, mid)
    }
}

/// The positions in `left` and in `right`, all of them sorted.
fn merge<T: Ranked>(items: &[T], left: &Vec<usize>, right: &Vec<usize>, mid: usize) -> (r: Vec<
    usize,
>)
    requires
        mid <= items@.len(),
        forall|k: int| 0 <= k < left@.len() ==> #[trigger] left@[k] < mid,
        forall|k: int| 0 <= k < right@.len() ==> mid <= #[trigger] right@[k] < items@.len(),
        sorted_by(
            ints(left@),
            |i: int, j: int| no_later(views(items@), |a: T::V, b: T::V| T::ahead(a, b), i, j),
        ),
        sorted_by(
            ints(right@),
            |i: int, j: int| no_later(views(items@), |a: T::V, b: T::V| T::ahead(a, b), i, j),
        ),
    ensures
        ints(r@).to_multiset() == ints(left@).to_multiset().add(ints(right@).to_multiset()),
        sorted_by(
            ints(r@),
            |i: int, j: int| no_later(views(items@), |a: T::V, b: T::V| T::ahead(a, b), i, j),
        ),
        forall|k: int|
            0 <= k < r@.len() ==> left@.contains(#[trigger] r@[k]) || right@.contains(r@[k]),
{
    let ghost ahead = |a: T::V, b: T::V| T::ahead(a, b);
    let ghost leq = |i: int, j: int| no_later(views(items@), ahead, i, j);
    proof {
        T::ahead_weak_order();
        lemma_no_later_total(views(items@), ahead);
    }
    let mut r: Vec<usize> = Vec::new();
    let mut i: usize = 0;
    let mut j: usize = 0;
    proof {
        assert(ints(left@.take(0)) =~= Seq::<int>::empty());
        assert(ints(right@.take(0)) =~= Seq::<int>::empty());
        assert(ints(r@) =~= Seq::<int>::empty());
        Seq::<int>::empty().to_multiset_ensures();
        assert(ints(r@).to_multiset() =~= ints(left@.take(0)).to_multiset().add(
            ints(right@.take(0)).to_multiset(),
        ));
    }
    while i < left.len() || j < right.len()
        invariant
            leq == (|i: int, j: int| no_later(views(items@), ahead, i, j)),
            ahead == (|a: T::V, b: T::V| T::ahead(a, b)),
            total_ordering(leq),
            mid <= items@.len(),
            forall|k: int| 0 <= k < left@.len() ==> #[trigger] left@[k] < mid,
            forall|k: int| 0 <= k < right@.len() ==> mid <= #[trigger] right@[k] < items@.len(),
            sorted_by(ints(left@), leq),
            sorted_by(ints(right@), leq),
            i <= left@.len(),
            j <= right@.len(),
            ints(r@).to_multiset() == ints(left@.take(i as int)).to_multiset().add(
                ints(right@.take(j as int)).to_multiset(),
            ),
            sorted_by(ints(r@), leq),
            forall|k: int, m: int|
                0 <= k < r@.len() && i <= m < left@.len() ==> leq(
                    #[trigger] r@[k] as int,
                    #[trigger] left@[m] as int,
                ),
            forall|k: int, m: int|
                0 <= k < r@.len() && j <= m < right@.len() ==> leq(
                    #[trigger] r@[k] as int,
                    #[trigger] right@[m] as int,
                ),
            forall|k: int|
                0 <= k < r@.len() ==> left@.contains(#[trigger] r@[k]) || right@.contains(r@[k]),
        decreases left@.len() - i + right@.len() - j,
    {
        let ghost before = r@;
        let take_right: bool = if i == left.len() {
            true
        } else if j == right.len() {
            false
        } else {
            items[right[j]].is_ahead(&items[left[i]])
        };
        if take_right {
            let p: usize = right[j];
            assert(ints(right@)[j as int] == p);
            assert forall|m: int| i <= m < left@.len() implies leq(
                p as int,
                #[trigger] left@[m] as int,
            ) by {
                assert(leq(p as int, left@[i as int] as int));
                assert(ints(left@)[m] == left@[m]);
                assert(ints(left@)[i as int] == left@[i as int]);
                if i < m {
                    assert(leq(ints(left@)[i as int], ints(left@)[m]));
                }
            }
            assert forall|m: int| j < m < right@.len() implies leq(
                p as int,
                #[trigger] right@[m] as int,
            ) by {
                assert(ints(right@)[m] == right@[m]);
            }
            r.push(p);
            assert(right@.take(j + 1) =~= right@.take(j as int).push(p));
            assert(ints(right@.take(j + 1)) =~= ints(right@.take(j as int)).push(p as int));
            proof {
                ints(right@.take(j as int)).to_multiset_ensures();
            }
            j = j + 1;
        } else {
            let p: usize = left[i];
            assert(ints(left@)[i as int] == p);
            assert forall|m: int| j <= m < right@.len() implies leq(
                p as int,
                #[trigger] right@[m] as int,
            ) by {
                assert(leq(p as int, right@[j as int] as int));
                assert(ints(right@)[m] == right@[m]);
                assert(ints(right@)[j as int] == right@[j as int]);
                if j < m {
                    assert(leq(ints(right@)[j as int], ints(right@)[m]));
                }
            }
            assert forall|m: int| i < m < left@.len() implies leq(
                p as int,
                #[trigger] left@[m] as int,
            ) by {
                assert(ints(left@)[m] == left@[m]);
            }
            r.push(p);
            assert(left@.take(i + 1) =~= left@.take(i as int).push(p));
            assert(ints(left@.take(i + 1)) =~= ints(left@.take(i as int)).push(p as int));
            proof {
                ints(left@.take(i as int)).to_multiset_ensures();
            }
            i = i + 1;
        }
        assert(ints(r@) =~= ints(before).push(r@.last() as int));
        proof {
            ints(before).to_multiset_ensures();
        }
        assert(ints(r@).to_multiset() =~= ints(left@.take(i as int)).to_multiset().add(
            ints(right@.take(j as int)).to_multiset(),
        ));
        assert forall|k: int| 0 <= k < r@.len() implies left@.contains(#[trigger] r@[k])
            || right@.contains(r@[k]) by {
            if k < before.len() {
                assert(r@[k] == before[k]);
            }
        }
        assert forall|k: int, m: int| 0 <= k < m < ints(r@).len() implies #[trigger] leq(
            ints(r@)[k],
            ints(r@)[m],
        ) by {
            assert(ints(r@)[k] == r@[k] && r@[k] == before[k]);
            assert(ints(before)[k] == before[k]);
            if m < before.len() {
                assert(ints(before)[m] == before[m]);
                assert(ints(r@)[m] == before[m]);
            }
        }
    }
    assert(left@.take(i as int) =~= left@);
    assert(right@.take(j as int) =~= right@);
    r
}

/// The positions of `items` in the order in which a stable sort puts them.
pub(crate) fn positions<T: Ranked>(items: &[T]) -> (r: Vec<usize>)
    ensures
        r@.map_values(|i: usize| i as int) == sorted_positions(
            views(items@),
            |a: T::V, b: T::V| T::ahead(a, b),
        ),
{
    let r = sort_positions(items, 0, items.len());
    proof {
        let ahead = |a: T::V, b: T::V| T::ahead(a, b);
        let leq = |i: int, j: int| no_later(views(items@), ahead, i, j);
        let all = range(0, items@.len() as int);
        T::ahead_weak_order();
        lemma_no_later_total(views(items@), ahead);
        all.lemma_sort_by_ensures(leq);
        lemma_sorted_unique(ints(r@), all.sort_by(leq), leq);
    }
    r
}

/// Two arrangements of the same values hold the same values.
pub proof fn lemma_same_values<A>(a: Seq<A>, b: Seq<A>)
    requires
        a.to_multiset() == b.to_multiset(),
    ensures
        a.len() == b.len(),
        forall|x: A| #[trigger] a.contains(x) <==> #[trigger] b.contains(x),
{
    a.to_multiset_ensures();
    b.to_multiset_ensures();
    assert forall|x: A| #[trigger] a.contains(x) <==> #[trigger] b.contains(x) by {
        assert(a.contains(x) <==> a.to_multiset().count(x) > 0);
        assert(b.contains(x) <==> b.to_multiset().count(x) > 0);
    }
}

/// Two arrangements of the same values, each once, are arrangements of each other.
pub proof fn lemma_same_multiset<A>(a: Seq<A>, b: Seq<A>)
    requires
        a.no_duplicates(),
        b.no_duplicates(),
        forall|x: A| #[trigger] a.contains(x) <==> #[trigger] b.contains(x),
    ensures
        a.to_multiset() == b.to_multiset(),
{
    a.lemma_multiset_has_no_duplicates();
    b.lemma_multiset_has_no_duplicates();
    a.to_multiset_ensures();
    b.to_multiset_ensures();
    assert forall|x: A| a.to_multiset().count(x) == b.to_multiset().count(x) by {
        assert(a.contains(x) <==> a.to_multiset().count(x) > 0);
        assert(b.contains(x) <==> b.to_multiset().count(x) > 0);
        assert(a.to_multiset().contains(x) <==> a.to_multiset().count(x) > 0);
        assert(b.to_multiset().contains(x) <==> b.to_multiset().count(x) > 0);
    }
    assert(a.to_multiset() =~= b.to_multiset());
}

proof fn lemma_map_multiset<A, B>(a: Seq<A>, b: Seq<A>, f: spec_fn(A) -> B)
    requires
        a.to_multiset() == b.to_multiset(),
    ensures
        a.map_values(f).to_multiset() == b.map_values(f).to_multiset(),
    decreases a.len(),
{
    broadcast use group_to_multiset_ensures;

    a.to_multiset_ensures();
    b.to_multiset_ensures();
    lemma_same_values(a, b);
    if a.len() == 0 {
        assert(a =~= b);
    } else {
        let x = a.last();
        assert(a.contains(x));
        assert(b.contains(x));
        let k = choose|k: int| 0 <= k < b.len() && b[k] == x;
        let (c, d) = (a.drop_last(), b.remove(k));
        assert(c =~= a.remove(a.len() - 1));
        lemma_map_multiset(c, d, f);
        assert(a.map_values(f) =~= c.map_values(f).push(f(x)));
        assert(b.map_values(f) =~= d.map_values(f).insert(k, f(x)));
        to_multiset_insert(d.map_values(f), k, f(x));
        c.map_values(f).to_multiset_ensures();
    }
}

/// The sorted positions are all the positions, each once, and each is sorted no later than those
/// behind it.
pub proof fn law_sorted_positions<A>(s: Seq<A>, ahead: spec_fn(A, A) -> bool)
    requires
        weak_order(ahead),
    ensures
        sorted_positions(s, ahead).len() == s.len(),
        sorted_positions(s, ahead).to_multiset() == range(0, s.len() as int).to_multiset(),
        sorted_positions(s, ahead).no_duplicates(),
        forall|k: int|
            0 <= k < s.len() ==> 0 <= #[trigger] sorted_positions(s, ahead)[k] < s.len(),
        forall|i: int| 0 <= i < s.len() ==> #[trigger] sorted_positions(s, ahead).contains(i),
        forall|k: int, m: int|
            0 <= k < m < s.len() ==> no_later(
                s,
                ahead,
                #[trigger] sorted_positions(s, ahead)[k],
                #[trigger] sorted_positions(s, ahead)[m],
            ),
{
    let leq = |i: int, j: int| no_later(s, ahead, i, j);
    let all = range(0, s.len() as int);
    let order = sorted_positions(s, ahead);
    lemma_no_later_total(s, ahead);
    all.lemma_sort_by_ensures(leq);
    all.to_multiset_ensures();
    order.to_multiset_ensures();
    lemma_same_values(all, order);
    assert(all.no_duplicates());
    all.lemma_multiset_has_no_duplicates();
    order.lemma_multiset_has_no_duplicates_conv();
    assert forall|k: int| 0 <= k < s.len() implies 0 <= #[trigger] order[k] < s.len() by {
        assert(order.contains(order[k]));
        assert(all.contains(order[k]));
    }
    assert forall|i: int| 0 <= i < s.len() implies #[trigger] order.contains(i) by {
        assert(all[i] == i);
        assert(all.contains(i));
    }
    assert forall|k: int, m: int| 0 <= k < m < s.len() implies no_later(
        s,
        ahead,
        #[trigger] order[k],
        #[trigger] order[m],
    ) by {
        assert(leq(order[k], order[m]));
    }
}

/// Only one arrangement of the positions is sorted.
pub proof fn law_sorted_positions_unique<A>(
    s: Seq<A>,
    ahead: spec_fn(A, A) -> bool,
    order: Seq<int>,
)
    requires
        weak_order(ahead),
        order.to_multiset() == range(0, s.len() as int).to_multiset(),
        forall|k: int, m: int|
            0 <= k < m < order.len() ==> no_later(
                s,
                ahead,
                #[trigger] order[k],
                #[trigger] order[m],
            ),
    ensures
        sorted_positions(s, ahead) == order,
{
    let leq = |i: int, j: int| no_later(s, ahead, i, j);
    let all = range(0, s.len() as int);
    lemma_no_later_total(s, ahead);
    all.lemma_sort_by_ensures(leq);
    assert(sorted_by(order, leq));
    lemma_sorted_unique(order, all.sort_by(leq), leq);
}

/// Sorting neither adds, drops nor changes a value, and no value stands behind one that it is
/// ahead of.
pub proof fn law_sorted<A>(s: Seq<A>, ahead: spec_fn(A, A) -> bool)
    requires
        weak_order(ahead),
    ensures
        sorted(s, ahead).len() == s.len(),
        sorted(s, ahead).to_multiset() == s.to_multiset(),
        forall|k: int, m: int|
            0 <= k < m < s.len() ==> !ahead(
                #[trigger] sorted(s, ahead)[m],
                #[trigger] sorted(s, ahead)[k],
            ),
{
    law_sorted_positions(s, ahead);
    let all = range(0, s.len() as int);
    let f = |i: int| s[i];
    lemma_map_multiset(sorted_positions(s, ahead), all, f);
    assert(all.map_values(f) =~= s);
    assert forall|k: int, m: int| 0 <= k < m < s.len() implies !ahead(
        #[trigger] sorted(s, ahead)[m],
        #[trigger] sorted(s, ahead)[k],
    ) by {
        let (i, j) = (sorted_positions(s, ahead)[k], sorted_positions(s, ahead)[m]);
        assert(no_later(s, ahead, i, j));
        if ahead(s[i], s[j]) && ahead(s[j], s[i]) {
            assert(ahead(s[i], s[i]));
        }
    }
}

/// Two sorted arrangements of the same values are the same, where only equal values share a rank.
pub proof fn law_sorted_arrangement_unique<A>(x: Seq<A>, y: Seq<A>, ahead: spec_fn(A, A) -> bool)
    requires
        x.to_multiset() == y.to_multiset(),
        forall|k: int, m: int| 0 <= k < m < x.len() ==> !ahead(#[trigger] x[m], #[trigger] x[k]),
        forall|k: int, m: int| 0 <= k < m < y.len() ==> !ahead(#[trigger] y[m], #[trigger] y[k]),
        forall|i: int, j: int|
            0 <= i < x.len() && 0 <= j < x.len() && !ahead(#[trigger] x[i], #[trigger] x[j])
                && !ahead(x[j], x[i]) ==> x[i] == x[j],
    ensures
        x == y,
    decreases x.len(),
{
    x.to_multiset_ensures();
    y.to_multiset_ensures();
    lemma_same_values(x, y);
    if x.len() == 0 {
        assert(x =~= y);
    } else {
        assert(x.contains(x[0]) && y.contains(y[0]));
        assert(y.contains(x[0]) && x.contains(y[0]));
        let i = choose|i: int| 0 <= i < x.len() && x[i] == y[0];
        let j = choose|j: int| 0 <= j < y.len() && y[j] == x[0];
        assert(x[0] == y[0]) by {
            if i > 0 && j > 0 {
                assert(!ahead(x[i], x[0]));
                assert(!ahead(y[j], y[0]));
            }
        }
        let (a, b) = (x.remove(0), y.remove(0));
        assert(a.to_multiset() == x.to_multiset().remove(x[0]));
        assert(b.to_multiset() == y.to_multiset().remove(y[0]));
        law_sorted_arrangement_unique(a, b, ahead);
        assert(x =~= seq![x[0]] + a);
        assert(y =~= seq![y[0]] + b);
    }
}

/// Where only equal values share a rank, sorting does not depend on the order that the values
/// come in.
pub proof fn law_sorted_ignores_input_order<A>(
    s: Seq<A>,
    t: Seq<A>,
    ahead: spec_fn(A, A) -> bool,
)
    requires
        weak_order(ahead),
        s.to_multiset() == t.to_multiset(),
        forall|i: int, j: int|
            0 <= i < s.len() && 0 <= j < s.len() && !ahead(#[trigger] s[i], #[trigger] s[j])
                && !ahead(s[j], s[i]) ==> s[i] == s[j],
    ensures
        sorted(s, ahead) == sorted(t, ahead),
{
    law_sorted(s, ahead);
    law_sorted(t, ahead);
    let x = sorted(s, ahead);
    let y = sorted(t, ahead);
    lemma_same_values(s, x);
    assert forall|i: int, j: int|
        0 <= i < x.len() && 0 <= j < x.len() && !ahead(#[trigger] x[i], #[trigger] x[j]) && !ahead(
            x[j],
            x[i],
        ) implies x[i] == x[j] by {
        assert(x.contains(x[i]) && x.contains(x[j]));
        assert(s.contains(x[i]) && s.contains(x[j]));
        let p = choose|p: int| 0 <= p < s.len() && s[p] == x[i];
        let q = choose|q: int| 0 <= q < s.len() && s[q] == x[j];
        assert(s[p] == s[q]);
    }
    law_sorted_arrangement_unique(x, y, ahead);
}

/// The values in a list are those of its items, one for each, in order.
pub proof fn law_views<T: View>(v: Seq<T>, i: int)
    requires
        0 <= i < v.len(),
    ensures
        views(v).len() == v.len(),
        views(v)[i] == v[i]@,
{
}

} // verus!
