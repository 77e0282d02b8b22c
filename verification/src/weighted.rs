//! Values with weights, and what the levels of a block hold.
//!
//! A value at level `i` of a block with base `b` stands for `b^i` samples: that
//! number is its weight.

use crate::order::{lt, order_known, precedes, weak_order};
use crate::sorting::{arranged, by_value, insertion_sort, strict_weak_order};
use vstd::arithmetic::power::{lemma_pow0, lemma_pow_increases, lemma_pow_positive, pow};
use vstd::prelude::*;

verus! {

broadcast use vstd::seq_lib::group_to_multiset_ensures;

/// The weight of a value at `level`: `base` to the power `level`.
pub open spec fn weight_at(base: nat, level: nat) -> nat {
    pow(base as int, level) as nat
}

/// The sum of the weights in `s`.
pub open spec fn total_weight<T>(s: Seq<(T, nat)>) -> nat
    decreases s.len(),
{
    if s.len() == 0 {
        0
    } else {
        total_weight(s.drop_last()) + s.last().1
    }
}

/// The sum of the first `k` weights in `s`.
pub open spec fn prefix_weight<T>(s: Seq<(T, nat)>, k: int) -> nat {
    total_weight(s.take(k))
}

/// `k` is the first place in `s` at which the running sum of the weights, that
/// of `s[k]` included, is `target` or more.
pub open spec fn reaches<T>(s: Seq<(T, nat)>, target: nat, k: int) -> bool {
    &&& 0 <= k < s.len()
    &&& prefix_weight(s, k + 1) >= target
    &&& forall|j: int| 0 < j <= k ==> #[trigger] prefix_weight(s, j) < target
}

/// The relation that ranks weighted values by their values alone.
pub open spec fn by_weighted_value<T: PartialOrd>() -> spec_fn((T, nat), (T, nat)) -> bool {
    |a: (T, nat), b: (T, nat)| lt(a.0, b.0)
}

/// The sum of the weights in `s` of the values that `keep` holds of.
pub open spec fn weight_where<T>(s: Seq<(T, nat)>, keep: spec_fn(T) -> bool) -> nat
    decreases s.len(),
{
    if s.len() == 0 {
        0
    } else {
        weight_where(s.drop_last(), keep) + if keep(s.last().0) {
            s.last().1
        } else {
            0
        }
    }
}

/// The values that rank before `v`.
pub open spec fn ranking_before<T: PartialOrd>(v: T) -> spec_fn(T) -> bool {
    |x: T| lt(x, v)
}

/// The values that `v` does not rank before: those that rank before it or
/// with it.
pub open spec fn not_ranking_after<T: PartialOrd>(v: T) -> spec_fn(T) -> bool {
    |x: T| !lt(v, x)
}

/// The values of `batch`, each with `weight`.
pub open spec fn level_items<T>(batch: Seq<T>, weight: nat) -> Seq<(T, nat)> {
    batch.map_values(|x: T| (x, weight))
}

/// All values in `levels` with their weights, the lowest level first and each
/// level in the order in which it is held.
pub open spec fn held<T>(levels: Seq<Seq<T>>, base: nat) -> Seq<(T, nat)>
    decreases levels.len(),
{
    if levels.len() == 0 {
        Seq::empty()
    } else {
        held(levels.drop_last(), base) + level_items(
            levels.last(),
            weight_at(base, (levels.len() - 1) as nat),
        )
    }
}

/// The number of samples that the values in `levels` stand for.
pub open spec fn stored<T>(levels: Seq<Seq<T>>, base: nat) -> nat
    decreases levels.len(),
{
    if levels.len() == 0 {
        0
    } else {
        stored(levels.drop_last(), base) + levels.last().len() * weight_at(
            base,
            (levels.len() - 1) as nat,
        )
    }
}

/// What a borrowed value with its machine weight stands for.
pub open spec fn entry_view<'a, T>() -> spec_fn((&'a T, u64)) -> (T, nat) {
    |e: (&'a T, u64)| (*e.0, e.1 as nat)
}

/// The weighted values that a vector of borrowed values with machine weights
/// stands for.
pub open spec fn entries_view<'a, T>(entries: Seq<(&'a T, u64)>) -> Seq<(T, nat)> {
    entries.map_values(entry_view::<T>())
}

/// Weights of a base that is not zero: 1 at level 0, `base` times the weight
/// below at any other, never zero and never falling with the level.
pub proof fn lemma_weight_at(base: nat, level: nat)
    requires
        base >= 1,
    ensures
        weight_at(base, 0) == 1,
        weight_at(base, level) >= 1,
        weight_at(base, level + 1) == base * weight_at(base, level),
        forall|upper: nat| level <= upper ==> weight_at(base, level) <= #[trigger] weight_at(
            base,
            upper,
        ),
{
    lemma_pow0(base as int);
    lemma_pow_positive(base as int, level);
    lemma_pow_positive(base as int, level + 1);
    assert(pow(base as int, level + 1) == base * pow(base as int, level)) by {
        reveal(pow);
    }
    assert forall|upper: nat| level <= upper implies weight_at(base, level) <= #[trigger] weight_at(
        base,
        upper,
    ) by {
        lemma_pow_increases(base, level, upper);
        lemma_pow_positive(base as int, upper);
    }
}

/// The weights of two sequences, one behind the other, add up.
pub proof fn lemma_total_weight_concat<T>(a: Seq<(T, nat)>, b: Seq<(T, nat)>)
    ensures
        total_weight(a + b) == total_weight(a) + total_weight(b),
    decreases b.len(),
{
    if b.len() == 0 {
        assert(a + b =~= a);
    } else {
        lemma_total_weight_concat(a, b.drop_last());
        assert((a + b).drop_last() =~= a + b.drop_last());
    }
}

/// A level's values weigh its length times the weight of each.
pub proof fn lemma_total_weight_level<T>(batch: Seq<T>, weight: nat)
    ensures
        total_weight(level_items(batch, weight)) == batch.len() * weight,
    decreases batch.len(),
{
    let n = batch.len();
    if n > 0 {
        lemma_total_weight_level(batch.drop_last(), weight);
        assert(level_items(batch, weight).drop_last() =~= level_items(batch.drop_last(), weight));
        assert(batch.drop_last().len() == n - 1);
        assert(n * weight == (n - 1) * weight + weight) by (nonlinear_arith);
    } else {
        assert(n * weight == 0) by (nonlinear_arith)
            requires
                n == 0,
        ;
    }
}

/// The held values weigh what the levels store.
pub proof fn lemma_total_weight_held<T>(levels: Seq<Seq<T>>, base: nat)
    ensures
        total_weight(held(levels, base)) == stored(levels, base),
        held(levels, base).len() == 0 <==> forall|i: int|
            0 <= i < levels.len() ==> (#[trigger] levels[i]).len() == 0,
    decreases levels.len(),
{
    if levels.len() > 0 {
        let weight = weight_at(base, (levels.len() - 1) as nat);
        lemma_total_weight_held(levels.drop_last(), base);
        lemma_total_weight_concat(
            held(levels.drop_last(), base),
            level_items(levels.last(), weight),
        );
        lemma_total_weight_level(levels.last(), weight);
        if held(levels, base).len() == 0 {
            assert forall|i: int| 0 <= i < levels.len() implies (#[trigger] levels[i]).len()
                == 0 by {
                if i < levels.len() - 1 {
                    assert(levels.drop_last()[i] == levels[i]);
                }
            }
        }
        if forall|i: int| 0 <= i < levels.len() ==> (#[trigger] levels[i]).len() == 0 {
            assert forall|i: int| 0 <= i < levels.drop_last().len() implies (
            #[trigger] levels.drop_last()[i]).len() == 0 by {
                assert(levels.drop_last()[i] == levels[i]);
            }
        }
    }
}

/// The running sum of the weights never falls, and over all of `s` it is the
/// total.
pub proof fn lemma_prefix_weight<T>(s: Seq<(T, nat)>, j: int, k: int)
    requires
        0 <= j <= k <= s.len(),
    ensures
        prefix_weight(s, j) <= prefix_weight(s, k),
        prefix_weight(s, s.len() as int) == total_weight(s),
        prefix_weight(s, 0) == 0,
        k < s.len() ==> prefix_weight(s, k + 1) == prefix_weight(s, k) + s[k].1,
    decreases k - j,
{
    assert(s.take(s.len() as int) =~= s);
    if k < s.len() {
        assert(s.take(k + 1).drop_last() =~= s.take(k));
    }
    if j < k {
        lemma_prefix_weight(s, j, k - 1);
        assert(s.take(k).drop_last() =~= s.take(k - 1));
    }
}

/// Taking one element out takes its weight off the total.
pub proof fn lemma_total_weight_remove<T>(s: Seq<(T, nat)>, i: int)
    requires
        0 <= i < s.len(),
    ensures
        total_weight(s) == total_weight(s.remove(i)) + s[i].1,
    decreases s.len(),
{
    if i == s.len() - 1 {
        assert(s.remove(i) =~= s.drop_last());
    } else {
        lemma_total_weight_remove(s.drop_last(), i);
        assert(s.remove(i).drop_last() =~= s.drop_last().remove(i));
    }
}

/// Two sequences of the same weighted values, in whatever order, weigh the
/// same.
pub proof fn lemma_total_weight_permuted<T>(a: Seq<(T, nat)>, s: Seq<(T, nat)>)
    requires
        a.to_multiset() == s.to_multiset(),
    ensures
        total_weight(a) == total_weight(s),
        a.len() == s.len(),
    decreases a.len(),
{
    if a.len() == 0 {
        assert(s.len() == s.to_multiset().len());
    } else {
        let x = a.last();
        assert(a.drop_last().push(x) =~= a);
        assert(a.to_multiset().count(x) > 0);
        assert(s.contains(x));
        let i = choose|i: int| 0 <= i < s.len() && s[i] == x;
        assert(s.remove(i).to_multiset() =~= a.drop_last().to_multiset());
        lemma_total_weight_permuted(a.drop_last(), s.remove(i));
        lemma_total_weight_remove(s, i);
    }
}

/// Putting `batch` in the place of level `i` changes what is stored by the
/// change in length, times the weight at `i`.
pub proof fn lemma_stored_update<T>(levels: Seq<Seq<T>>, base: nat, i: int, batch: Seq<T>)
    requires
        0 <= i < levels.len(),
    ensures
        stored(levels.update(i, batch), base) + levels[i].len() * weight_at(base, i as nat)
            == stored(levels, base) + batch.len() * weight_at(base, i as nat),
    decreases levels.len(),
{
    if i == levels.len() - 1 {
        assert(levels.update(i, batch).drop_last() =~= levels.drop_last());
    } else {
        lemma_stored_update(levels.drop_last(), base, i, batch);
        assert(levels.update(i, batch).drop_last() =~= levels.drop_last().update(i, batch));
    }
}

/// Levels that each hold fewer than `base` values store less than the weight
/// at the level above them all.
pub proof fn lemma_stored_below_capacity<T>(levels: Seq<Seq<T>>, base: nat)
    requires
        base >= 1,
        forall|i: int| 0 <= i < levels.len() ==> (#[trigger] levels[i]).len() < base,
    ensures
        stored(levels, base) < weight_at(base, levels.len()),
    decreases levels.len(),
{
    if levels.len() == 0 {
        lemma_weight_at(base, 0);
    } else {
        let top = (levels.len() - 1) as nat;
        let weight = weight_at(base, top);
        let n = levels.last().len();
        assert forall|i: int| 0 <= i < levels.drop_last().len() implies (
        #[trigger] levels.drop_last()[i]).len() < base by {
            assert(levels.drop_last()[i] == levels[i]);
        }
        lemma_stored_below_capacity(levels.drop_last(), base);
        lemma_weight_at(base, top);
        assert(n * weight + weight <= base * weight) by (nonlinear_arith)
            requires
                n < base,
        ;
    }
}

/// Where only the top level holds anything, what is stored is its length times
/// its weight.
pub proof fn lemma_stored_top_only<T>(levels: Seq<Seq<T>>, base: nat)
    requires
        levels.len() > 0,
        forall|i: int| 0 <= i < levels.len() - 1 ==> (#[trigger] levels[i]).len() == 0,
    ensures
        stored(levels, base) == levels.last().len() * weight_at(base, (levels.len() - 1) as nat),
{
    lemma_stored_nothing(levels.drop_last(), base);
}

/// Empty levels store nothing.
pub proof fn lemma_stored_nothing<T>(levels: Seq<Seq<T>>, base: nat)
    requires
        forall|i: int| 0 <= i < levels.len() ==> (#[trigger] levels[i]).len() == 0,
    ensures
        stored(levels, base) == 0,
    decreases levels.len(),
{
    if levels.len() > 0 {
        assert forall|i: int| 0 <= i < levels.drop_last().len() implies (
        #[trigger] levels.drop_last()[i]).len() == 0 by {
            assert(levels.drop_last()[i] == levels[i]);
        }
        lemma_stored_nothing(levels.drop_last(), base);
        let weight = weight_at(base, (levels.len() - 1) as nat);
        let n = levels.last().len();
        assert(n * weight == 0) by (nonlinear_arith)
            requires
                n == 0,
        ;
    }
}

/// A level that holds a value stores at least the weight of one.
pub proof fn lemma_stored_covers_level<T>(levels: Seq<Seq<T>>, base: nat, i: int)
    requires
        0 <= i < levels.len(),
        levels[i].len() > 0,
    ensures
        weight_at(base, i as nat) <= stored(levels, base),
    decreases levels.len(),
{
    if i == levels.len() - 1 {
        let weight = weight_at(base, i as nat);
        let n = levels.last().len();
        assert(weight <= n * weight) by (nonlinear_arith)
            requires
                n >= 1,
        ;
    } else {
        lemma_stored_covers_level(levels.drop_last(), base, i);
    }
}

/// Empty levels at the top hold nothing: what is held is what the levels
/// below them hold.
pub proof fn lemma_held_below<T>(levels: Seq<Seq<T>>, base: nat, n: int)
    requires
        0 <= n <= levels.len(),
        forall|i: int| n <= i < levels.len() ==> (#[trigger] levels[i]).len() == 0,
    ensures
        held(levels, base) == held(levels.take(n), base),
    decreases levels.len() - n,
{
    if n == levels.len() {
        assert(levels.take(n) =~= levels);
    } else {
        assert forall|i: int| n <= i < levels.drop_last().len() implies (
        #[trigger] levels.drop_last()[i]).len() == 0 by {
            assert(levels.drop_last()[i] == levels[i]);
        }
        lemma_held_below(levels.drop_last(), base, n);
        assert(levels.drop_last().take(n) =~= levels.take(n));
        let weight = weight_at(base, (levels.len() - 1) as nat);
        assert(held(levels.drop_last(), base) + level_items(levels.last(), weight) =~= held(
            levels.drop_last(),
            base,
        ));
    }
}

/// A strict weak order of the values is one of the relations that sorting goes
/// by.
pub proof fn lemma_weak_order<T: PartialOrd>()
    requires
        weak_order::<T>(),
    ensures
        strict_weak_order(by_value::<T>()),
        strict_weak_order(by_weighted_value::<T>()),
{
    let values = by_value::<T>();
    let weighted = by_weighted_value::<T>();
    assert forall|a: T, b: T| #[trigger] values(a, b) implies !values(b, a) by {
        assert(lt(a, b));
    }
    assert forall|a: T, b: T, c: T| !#[trigger] values(a, b) && !#[trigger] values(
        b,
        c,
    ) implies !values(a, c) by {
        assert(!lt(a, b) && !lt(b, c));
    }
    assert forall|a: (T, nat), b: (T, nat)| #[trigger] weighted(a, b) implies !weighted(b, a) by {
        assert(lt(a.0, b.0));
    }
    assert forall|a: (T, nat), b: (T, nat), c: (T, nat)| !#[trigger] weighted(a, b)
        && !#[trigger] weighted(b, c) implies !weighted(a, c) by {
        assert(!lt(a.0, b.0) && !lt(b.0, c.0));
    }
}

/// Where the weights add up to `target` at least, the running sum reaches it
/// at some first place.
pub proof fn lemma_first_reaching<T>(s: Seq<(T, nat)>, target: nat) -> (k: int)
    requires
        s.len() > 0,
        total_weight(s) >= target,
    ensures
        reaches(s, target, k),
    decreases s.len(),
{
    let front = s.drop_last();
    let last = s.len() - 1;
    lemma_prefix_weight(s, 0, s.len() as int);
    if front.len() > 0 && total_weight(front) >= target {
        let k = lemma_first_reaching(front, target);
        assert forall|j: int| 0 < j <= k + 1 implies #[trigger] prefix_weight(s, j)
            == prefix_weight(front, j) by {
            assert(s.take(j) =~= front.take(j));
        }
        k
    } else {
        assert(s.take(last) =~= front);
        assert forall|j: int| 0 < j <= last implies #[trigger] prefix_weight(s, j) < target by {
            lemma_prefix_weight(s, j, last);
        }
        last
    }
}

/// The running sum reaches `target` first at one place only.
pub proof fn lemma_reaches_once<T>(s: Seq<(T, nat)>, target: nat, j: int, k: int)
    requires
        reaches(s, target, j),
        reaches(s, target, k),
    ensures
        j == k,
{
    if j < k {
        assert(prefix_weight(s, j + 1) < target);
    }
    if k < j {
        assert(prefix_weight(s, k + 1) < target);
    }
}

/// The weights of the kept values of two sequences, one behind the other, add
/// up.
pub proof fn lemma_weight_where_concat<T>(
    a: Seq<(T, nat)>,
    b: Seq<(T, nat)>,
    keep: spec_fn(T) -> bool,
)
    ensures
        weight_where(a + b, keep) == weight_where(a, keep) + weight_where(b, keep),
    decreases b.len(),
{
    if b.len() == 0 {
        assert(a + b =~= a);
    } else {
        lemma_weight_where_concat(a, b.drop_last(), keep);
        assert((a + b).drop_last() =~= a + b.drop_last());
    }
}

/// The kept values weigh no more than all, all of them if all are kept, and
/// nothing if none is.
pub proof fn lemma_weight_where_bounds<T>(s: Seq<(T, nat)>, keep: spec_fn(T) -> bool)
    ensures
        weight_where(s, keep) <= total_weight(s),
        (forall|i: int| 0 <= i < s.len() ==> keep((#[trigger] s[i]).0)) ==> weight_where(s, keep)
            == total_weight(s),
        (forall|i: int| 0 <= i < s.len() ==> !keep((#[trigger] s[i]).0)) ==> weight_where(s, keep)
            == 0,
    decreases s.len(),
{
    if s.len() > 0 {
        lemma_weight_where_bounds(s.drop_last(), keep);
        assert(s.last() == s[s.len() - 1]);
        assert forall|i: int| 0 <= i < s.drop_last().len() implies s.drop_last()[i] == s[i] by {}
        if forall|i: int| 0 <= i < s.len() ==> keep((#[trigger] s[i]).0) {
            assert forall|i: int| 0 <= i < s.drop_last().len() implies keep(
                (#[trigger] s.drop_last()[i]).0,
            ) by {
                assert(s.drop_last()[i] == s[i]);
            }
        }
        if forall|i: int| 0 <= i < s.len() ==> !keep((#[trigger] s[i]).0) {
            assert forall|i: int| 0 <= i < s.drop_last().len() implies !keep(
                (#[trigger] s.drop_last()[i]).0,
            ) by {
                assert(s.drop_last()[i] == s[i]);
            }
        }
    }
}

/// Taking one element out takes its weight off the kept weight, if it was
/// kept.
pub proof fn lemma_weight_where_remove<T>(s: Seq<(T, nat)>, i: int, keep: spec_fn(T) -> bool)
    requires
        0 <= i < s.len(),
    ensures
        weight_where(s, keep) == weight_where(s.remove(i), keep) + if keep(s[i].0) {
            s[i].1
        } else {
            0
        },
    decreases s.len(),
{
    if i == s.len() - 1 {
        assert(s.remove(i) =~= s.drop_last());
    } else {
        lemma_weight_where_remove(s.drop_last(), i, keep);
        assert(s.remove(i).drop_last() =~= s.drop_last().remove(i));
    }
}

/// Two sequences of the same weighted values, in whatever order, keep the same
/// weight.
pub proof fn lemma_weight_where_permuted<T>(
    a: Seq<(T, nat)>,
    s: Seq<(T, nat)>,
    keep: spec_fn(T) -> bool,
)
    requires
        a.to_multiset() == s.to_multiset(),
    ensures
        weight_where(a, keep) == weight_where(s, keep),
    decreases a.len(),
{
    if a.len() == 0 {
        assert(s.len() == s.to_multiset().len());
    } else {
        let x = a.last();
        assert(a.drop_last().push(x) =~= a);
        assert(a.to_multiset().count(x) > 0);
        assert(s.contains(x));
        let i = choose|i: int| 0 <= i < s.len() && s[i] == x;
        assert(s.remove(i).to_multiset() =~= a.drop_last().to_multiset());
        lemma_weight_where_permuted(a.drop_last(), s.remove(i), keep);
        lemma_weight_where_remove(s, i, keep);
    }
}

/// Sorts weighted values in place by their values, keeping the order of those
/// that rank alike.
pub fn sort_weighted<'a, T: PartialOrd>(entries: &mut Vec<(&'a T, u64)>)
    ensures
        arranged(
            entries_view(old(entries)@),
            entries_view(final(entries)@),
            order_known::<T>(),
            by_weighted_value::<T>(),
        ),
{
    let rank = |a: &(&'a T, u64), b: &(&'a T, u64)| -> (r: bool)
        ensures
            order_known::<T>() ==> r == lt(*a.0, *b.0),
        { precedes(a.0, b.0) };
    insertion_sort::<(&'a T, u64), (T, nat), _>(
        entries,
        rank,
        Ghost(entry_view::<T>()),
        Ghost(order_known::<T>()),
        Ghost(by_weighted_value::<T>()),
    );
}

/// Walks `entries` adding up the weights, and gives the value of the first
/// entry at which the sum is `target` or more; none where no sum gets there.
pub fn first_reaching<'a, T>(entries: &Vec<(&'a T, u64)>, target: u64) -> (found: Option<&'a T>)
    requires
        total_weight(entries_view(entries@)) <= u64::MAX,
    ensures
        match found {
            Some(value) => exists|k: int|
                #[trigger] reaches(entries_view(entries@), target as nat, k) && *value
                    == entries_view(entries@)[k].0,
            None => forall|j: int|
                0 < j <= entries@.len() ==> #[trigger] prefix_weight(entries_view(entries@), j)
                    < target,
        },
{
    let ghost s = entries_view(entries@);
    let mut running: u64 = 0;
    let mut k: usize = 0;
    while k < entries.len()
        invariant
            k <= entries@.len(),
            s == entries_view(entries@),
            s.len() == entries@.len(),
            running == prefix_weight(s, k as int),
            total_weight(s) <= u64::MAX,
            forall|j: int| 0 < j <= k ==> #[trigger] prefix_weight(s, j) < target,
        decreases entries.len() - k,
    {
        let (value, weight) = entries[k];
        proof {
            lemma_prefix_weight(s, k as int, k as int);
            lemma_prefix_weight(s, k + 1, s.len() as int);
            assert(s[k as int] == (*value, weight as nat));
        }
        running = running + weight;
        if running >= target {
            assert(reaches(s, target as nat, k as int));
            return Some(value);
        }
        k += 1;
    }
    None
}

} // verus!
