//! Stable sorting by a "ranks before" relation.
//!
//! The relation need not be an order. Whatever it is, sorting moves elements
//! and neither loses nor invents one. Where it is a strict weak order, the
//! result is ordered by it, and elements that rank alike stand in it in the
//! order in which they came.

use crate::order::{lt, order_known, precedes};
use vstd::prelude::*;

verus! {

broadcast use vstd::seq_lib::group_to_multiset_ensures;

/// `s` with `x` put in behind the last element that `x` does not rank before.
pub open spec fn insert_sorted<E>(s: Seq<E>, x: E, less: spec_fn(E, E) -> bool) -> Seq<E>
    decreases s.len(),
{
    if s.len() > 0 && less(x, s.last()) {
        insert_sorted(s.drop_last(), x, less).push(s.last())
    } else {
        s.push(x)
    }
}

/// The elements of `s`, each put in turn into the sorted run of those before it.
/// Elements that rank alike keep the order they came in.
pub open spec fn sorted_by<E>(s: Seq<E>, less: spec_fn(E, E) -> bool) -> Seq<E>
    decreases s.len(),
{
    if s.len() == 0 {
        s
    } else {
        insert_sorted(sorted_by(s.drop_last(), less), s.last(), less)
    }
}

/// `s` is what sorting makes of `a`: the same elements, each as often as in
/// `a`, and, where the comparison is `known` to follow `less`, in the order of
/// `sorted_by`.
pub open spec fn arranged<E>(
    a: Seq<E>,
    s: Seq<E>,
    known: bool,
    less: spec_fn(E, E) -> bool,
) -> bool {
    &&& s.to_multiset() == a.to_multiset()
    &&& known ==> s == sorted_by(a, less)
}

/// No element of `s` ranks before one that stands earlier.
pub open spec fn ordered_by<E>(s: Seq<E>, less: spec_fn(E, E) -> bool) -> bool {
    forall|i: int, j: int| 0 <= i < j < s.len() ==> !less(#[trigger] s[j], #[trigger] s[i])
}

/// `less` is a strict weak order: it never holds both ways round, and where it
/// fails from `a` to `b` and from `b` to `c`, it fails from `a` to `c`.
pub open spec fn strict_weak_order<E>(less: spec_fn(E, E) -> bool) -> bool {
    &&& forall|a: E, b: E| #[trigger] less(a, b) ==> !less(b, a)
    &&& forall|a: E, b: E, c: E| !#[trigger] less(a, b) && !#[trigger] less(b, c) ==> !less(a, c)
}

/// The elements that rank with `x`: neither before it nor after it.
pub open spec fn ranking_with<E>(x: E, less: spec_fn(E, E) -> bool) -> spec_fn(E) -> bool {
    |y: E| !less(x, y) && !less(y, x)
}

/// The relation that ranks values of `T` by `lt`.
pub open spec fn by_value<T: PartialOrd>() -> spec_fn(T, T) -> bool {
    |a: T, b: T| lt(a, b)
}

/// Where `x` ranks before all of `s` from `p` on and not before `s[p - 1]`,
/// `insert_sorted` puts it at `p`.
pub proof fn lemma_insert_sorted_at<E>(s: Seq<E>, x: E, less: spec_fn(E, E) -> bool, p: int)
    requires
        0 <= p <= s.len(),
        forall|j: int| p <= j < s.len() ==> less(x, #[trigger] s[j]),
        p > 0 ==> !less(x, s[p - 1]),
    ensures
        insert_sorted(s, x, less) == s.insert(p, x),
    decreases s.len() - p,
{
    if p == s.len() {
        assert(s.insert(p, x) =~= s.push(x));
    } else {
        lemma_insert_sorted_at(s.drop_last(), x, less, p);
        assert(s.drop_last().insert(p, x).push(s.last()) =~= s.insert(p, x));
    }
}

/// The place that `insert_sorted` gives `x`: the result is `s` with `x` put in
/// at some `p`, before which `x` does not rank and from which on it does.
pub proof fn lemma_insert_sorted_place<E>(s: Seq<E>, x: E, less: spec_fn(E, E) -> bool) -> (p: int)
    ensures
        0 <= p <= s.len(),
        insert_sorted(s, x, less) == s.insert(p, x),
        forall|j: int| p <= j < s.len() ==> less(x, #[trigger] s[j]),
        p > 0 ==> !less(x, s[p - 1]),
    decreases s.len(),
{
    if s.len() > 0 && less(x, s.last()) {
        let p = lemma_insert_sorted_place(s.drop_last(), x, less);
        assert(s.drop_last().insert(p, x).push(s.last()) =~= s.insert(p, x));
        assert forall|j: int| p <= j < s.len() implies less(x, #[trigger] s[j]) by {
            if j < s.len() - 1 {
                assert(s[j] == s.drop_last()[j]);
            }
        }
        if p > 0 {
            assert(s[p - 1] == s.drop_last()[p - 1]);
        }
        p
    } else {
        assert(s.insert(s.len() as int, x) =~= s.push(x));
        s.len() as int
    }
}

/// Sorting keeps every element, each as often as it came: `sorted_by` gives
/// an arrangement.
pub proof fn lemma_sorted_by_permutes<E>(s: Seq<E>, less: spec_fn(E, E) -> bool)
    ensures
        sorted_by(s, less).to_multiset() == s.to_multiset(),
        sorted_by(s, less).len() == s.len(),
        forall|known: bool| #[trigger] arranged(s, sorted_by(s, less), known, less),
    decreases s.len(),
{
    if s.len() > 0 {
        let run = sorted_by(s.drop_last(), less);
        lemma_sorted_by_permutes(s.drop_last(), less);
        let p = lemma_insert_sorted_place(run, s.last(), less);
        assert(s.drop_last().push(s.last()) =~= s);
        assert(run.insert(p, s.last()).to_multiset() =~= s.to_multiset());
    }
}

/// By a strict weak order, sorting leaves no element before one that it ranks
/// before.
pub proof fn lemma_sorted_by_ordered<E>(s: Seq<E>, less: spec_fn(E, E) -> bool)
    requires
        strict_weak_order(less),
    ensures
        ordered_by(sorted_by(s, less), less),
    decreases s.len(),
{
    if s.len() > 0 {
        let run = sorted_by(s.drop_last(), less);
        let x = s.last();
        lemma_sorted_by_ordered(s.drop_last(), less);
        let p = lemma_insert_sorted_place(run, x, less);
        let out = run.insert(p, x);
        assert forall|i: int, j: int| 0 <= i < j < out.len() implies !less(
            #[trigger] out[j],
            #[trigger] out[i],
        ) by {
            if j == p {
                // out[j] is x, out[i] is run[i] with i < p
                if i < p - 1 {
                    assert(!less(run[p - 1], run[i]));
                }
            } else if i == p {
                // out[i] is x, out[j] is run[j - 1] with j - 1 >= p
                assert(less(x, run[j - 1]));
            } else {
                let a = if i < p { i } else { i - 1 };
                let b = if j < p { j } else { j - 1 };
                assert(!less(run[b], run[a]));
            }
        }
    }
}

/// Where `keep` holds of no element, filtering leaves nothing.
proof fn lemma_filter_none<E>(s: Seq<E>, keep: spec_fn(E) -> bool)
    requires
        forall|i: int| 0 <= i < s.len() ==> !keep(#[trigger] s[i]),
    ensures
        s.filter(keep) == Seq::<E>::empty(),
    decreases s.len(),
{
    reveal(Seq::filter);
    if s.len() > 0 {
        assert forall|i: int| 0 <= i < s.drop_last().len() implies !keep(
            #[trigger] s.drop_last()[i],
        ) by {
            assert(s.drop_last()[i] == s[i]);
        }
        lemma_filter_none(s.drop_last(), keep);
        assert(!keep(s[s.len() - 1]));
    }
}

/// Sorting by a strict weak order is stable: the elements that rank with `x`
/// stand in the result in the order in which they came.
pub proof fn lemma_sorted_by_stable<E>(s: Seq<E>, less: spec_fn(E, E) -> bool, x: E)
    requires
        strict_weak_order(less),
    ensures
        sorted_by(s, less).filter(ranking_with(x, less)) == s.filter(ranking_with(x, less)),
    decreases s.len(),
{
    reveal(Seq::filter);
    if s.len() > 0 {
        let keep = ranking_with(x, less);
        let run = sorted_by(s.drop_last(), less);
        let y = s.last();
        lemma_sorted_by_stable(s.drop_last(), less, x);
        let p = lemma_insert_sorted_place(run, y, less);
        let front = run.take(p);
        let back = run.skip(p);
        assert(run =~= front + back);
        assert(run.insert(p, y) =~= front.push(y) + back);
        Seq::filter_distributes_over_add(front, back, keep);
        Seq::filter_distributes_over_add(front.push(y), back, keep);
        assert(front.push(y).drop_last() =~= front);
        if keep(y) {
            assert forall|j: int| 0 <= j < back.len() implies !keep(#[trigger] back[j]) by {
                assert(back[j] == run[p + j]);
                assert(less(y, run[p + j]));
            }
            lemma_filter_none(back, keep);
            assert(front.filter(keep).push(y) + Seq::<E>::empty() =~= (front.filter(keep)
                + Seq::<E>::empty()).push(y));
        }
    }
}

/// Sorts `v` in place by insertion, comparing with `precedes`. `view` says what
/// each element stands for, and `less` what `precedes` computes where that is
/// `known`.
pub(crate) fn insertion_sort<E, V, F: Fn(&E, &E) -> bool>(
    v: &mut Vec<E>,
    precedes: F,
    Ghost(view): Ghost<spec_fn(E) -> V>,
    Ghost(known): Ghost<bool>,
    Ghost(less): Ghost<spec_fn(V, V) -> bool>,
)
    requires
        forall|a: &E, b: &E| call_requires(precedes, (a, b)),
        forall|a: &E, b: &E, r: bool|
            call_ensures(precedes, (a, b), r) && known ==> r == less(view(*a), view(*b)),
    ensures
        arranged(old(v)@.map_values(view), final(v)@.map_values(view), known, less),
{
    let ghost start = v@.map_values(view);
    let n = v.len();
    let mut i: usize = 0;
    while i < n
        invariant
            n == v@.len(),
            n == start.len(),
            i <= n,
            v@.map_values(view).to_multiset() == start.to_multiset(),
            known ==> v@.map_values(view) == sorted_by(start.take(i as int), less) + start.skip(
                i as int,
            ),
            forall|a: &E, b: &E| call_requires(precedes, (a, b)),
            forall|a: &E, b: &E, r: bool|
                call_ensures(precedes, (a, b), r) && known ==> r == less(view(*a), view(*b)),
        decreases n - i,
    {
        let mut p: usize = i;
        loop
            invariant
                n == v@.len(),
                i < n,
                p <= i,
                known ==> forall|j: int|
                    p <= j < i ==> less(view(v@[i as int]), view(#[trigger] v@[j])),
                forall|a: &E, b: &E| call_requires(precedes, (a, b)),
                forall|a: &E, b: &E, r: bool|
                    call_ensures(precedes, (a, b), r) && known ==> r == less(view(*a), view(*b)),
            ensures
                p <= i,
                known ==> forall|j: int|
                    p <= j < i ==> less(view(v@[i as int]), view(#[trigger] v@[j])),
                known && p > 0 ==> !less(view(v@[i as int]), view(v@[p - 1])),
            decreases p,
        {
            if p == 0 {
                break ;
            }
            if !precedes(&v[i], &v[p - 1]) {
                break ;
            }
            p -= 1;
        }
        let ghost elems = v@;
        let ghost before = v@.map_values(view);
        if p < i {
            let x = v.remove(i);
            v.insert(p, x);
        }
        proof {
            let x = view(elems[i as int]);
            let now = v@.map_values(view);
            assert(now =~= before.remove(i as int).insert(p as int, x));
            assert(before.remove(i as int).to_multiset().insert(x) =~= before.to_multiset());
            if known {
                let run = sorted_by(start.take(i as int), less);
                assert(before.take(i as int) =~= run);
                assert forall|j: int| p <= j < run.len() implies less(x, #[trigger] run[j]) by {
                    assert(run[j] == view(elems[j]));
                }
                lemma_insert_sorted_at(run, x, less, p as int);
                assert(start.take(i + 1).drop_last() =~= start.take(i as int));
                assert(now =~= run.insert(p as int, x) + start.skip(i + 1));
            }
        }
        i += 1;
    }
    proof {
        assert(start.take(n as int) =~= start);
        assert(sorted_by(start, less) + start.skip(n as int) =~= sorted_by(start, less));
    }
}

/// Sorts a batch in place, by `lt`, keeping the order of values that rank
/// alike.
pub fn sort_batch<T: PartialOrd>(batch: &mut Vec<T>)
    ensures
        arranged(old(batch)@, final(batch)@, order_known::<T>(), by_value::<T>()),
{
    let ghost view: spec_fn(T) -> T = |x: T| x;
    let ghost before = batch@;
    let rank = |a: &T, b: &T| -> (r: bool)
        ensures
            order_known::<T>() ==> r == lt(*a, *b),
        { precedes(a, b) };
    insertion_sort::<T, T, _>(
        batch,
        rank,
        Ghost(view),
        Ghost(order_known::<T>()),
        Ghost(by_value::<T>()),
    );
    proof {
        assert(before.map_values(view) =~= before);
        assert(batch@.map_values(view) =~= batch@);
    }
}

} // verus!
