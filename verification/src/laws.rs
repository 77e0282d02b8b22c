//! What holds of every block, stated over the states that blocks go through.

use crate::model::{copies_are_equal, settle, settles, BlockState};
use crate::order::{order_known, weak_order};
use crate::sorting::{
    arranged, by_value, lemma_sorted_by_ordered, lemma_sorted_by_permutes, ordered_by, sorted_by,
};
use crate::weighted::{
    by_weighted_value, held, lemma_first_reaching, lemma_held_below, lemma_prefix_weight,
    lemma_reaches_once, lemma_stored_covers_level, lemma_stored_nothing, lemma_total_weight_held,
    lemma_total_weight_permuted, lemma_weak_order, lemma_weight_at, lemma_weight_where_bounds,
    lemma_weight_where_concat, lemma_weight_where_permuted, level_items, not_ranking_after,
    ranking_before, reaches, weight_at, weight_where,
};
use vstd::prelude::*;

verus! {

broadcast use vstd::seq_lib::group_to_multiset_ensures;

/// `states` are the states that a block goes through while it takes in
/// `values` one by one: each state but the last takes the next value in and
/// becomes the next state.
pub open spec fn run<T: PartialOrd + Clone>(states: Seq<BlockState<T>>, values: Seq<T>) -> bool {
    &&& states.len() == values.len() + 1
    &&& forall|k: int|
        0 <= k < values.len() ==> (#[trigger] states[k]).ingests(values[k], states[k + 1])
}

/// After `k` values, a block that began fresh is well formed, has counted `k`
/// or its capacity, whichever is less, and is locked exactly if `k` is its
/// capacity or more.
pub proof fn lemma_run_step<T: PartialOrd + Clone>(
    base: nat,
    exponent: nat,
    states: Seq<BlockState<T>>,
    values: Seq<T>,
    k: int,
)
    requires
        base >= 1,
        exponent >= 1,
        run(states, values),
        states[0] == BlockState::<T>::fresh(base, exponent),
        0 <= k <= values.len(),
    ensures
        states[k].wf(),
        states[k].base == base,
        states[k].exponent == exponent,
        states[k].count == if k <= weight_at(base, exponent) {
            k as nat
        } else {
            weight_at(base, exponent)
        },
        states[k].locked <==> k >= weight_at(base, exponent),
    decreases k,
{
    lemma_weight_at(base, exponent);
    if k == 0 {
        BlockState::<T>::lemma_fresh_wf(base, exponent);
    } else {
        lemma_run_step(base, exponent, states, values, k - 1);
        let before = states[k - 1];
        assert(before.ingests(values[k - 1], states[k]));
        before.lemma_ingests_wf(values[k - 1], states[k]);
        before.lemma_wf_count();
        states[k].lemma_wf_count();
    }
}

/// A block of base `b` and exponent `e` that began fresh and took in
/// exactly `b^e` values is locked and has counted `b^e`; one value before
/// that, it was not locked.
pub proof fn law_capacity<T: PartialOrd + Clone>(
    base: nat,
    exponent: nat,
    states: Seq<BlockState<T>>,
    values: Seq<T>,
)
    requires
        base >= 1,
        exponent >= 1,
        run(states, values),
        states[0] == BlockState::<T>::fresh(base, exponent),
        values.len() == weight_at(base, exponent),
    ensures
        states.last().locked,
        states.last().count == weight_at(base, exponent),
        !states[states.len() - 2].locked,
        states[states.len() - 2].count == weight_at(base, exponent) - 1,
{
    lemma_weight_at(base, exponent);
    lemma_run_step(base, exponent, states, values, values.len() as int);
    lemma_run_step(base, exponent, states, values, values.len() - 1);
}

/// A locked block is at its end. Taking a value in leaves it in the state it
/// was in: the count, the lock and what it reports as the median are the
/// same.
pub proof fn law_locked_is_final<T: PartialOrd + Clone>(
    state: BlockState<T>,
    value: T,
    next: BlockState<T>,
)
    requires
        state.locked,
        state.ingests(value, next),
    ensures
        next == state,
        next.count == state.count,
        next.locked,
        forall|median: Option<T>| next.answers(median) <==> state.answers(median),
{
}

/// Once locked, always locked: no step opens a block again.
pub proof fn law_lock_holds<T: PartialOrd + Clone>(
    states: Seq<BlockState<T>>,
    values: Seq<T>,
    j: int,
    k: int,
)
    requires
        run(states, values),
        0 <= j <= k <= values.len(),
        states[j].locked,
    ensures
        states[k] == states[j],
    decreases k - j,
{
    if j < k {
        law_lock_holds(states, values, j, k - 1);
        assert(states[k - 1].ingests(values[k - 1], states[k]));
    }
}

/// A fresh block has counted nothing, is not locked, and reports no
/// median.
pub proof fn law_fresh_reports_none<T: PartialOrd + Clone>(
    base: nat,
    exponent: nat,
    median: Option<T>,
)
    ensures
        BlockState::<T>::fresh(base, exponent).count == 0,
        !BlockState::<T>::fresh(base, exponent).locked,
        BlockState::<T>::fresh(base, exponent).answers(median) <==> median is None,
{
}

/// A fresh block of a base above 1 that took in one value has
/// counted 1, is not locked, and reports a copy of that value.
pub proof fn law_singleton<T: PartialOrd + Clone>(
    base: nat,
    exponent: nat,
    value: T,
    next: BlockState<T>,
    median: Option<T>,
)
    requires
        base > 1,
        exponent >= 1,
        BlockState::<T>::fresh(base, exponent).ingests(value, next),
        next.answers(median),
    ensures
        next.count == 1,
        !next.locked,
        median matches Some(m) && cloned(value, m),
        copies_are_equal::<T>() ==> median == Some(value),
{
    let fresh = BlockState::<T>::fresh(base, exponent);
    let taken = fresh.levels.update(0, fresh.levels[0].push(value));
    assert(next.levels == taken);
    assert(taken[0] =~= seq![value]);
    lemma_weight_at(base, 0);
    lemma_held_below(taken, base, 1);
    assert(taken.take(1).drop_last() =~= Seq::empty());
    let only = seq![(value, 1nat)];
    assert(held(taken, base) =~= only) by {
        assert(held(taken.take(1).drop_last(), base) =~= Seq::empty());
        assert(level_items(taken.take(1).last(), 1) =~= only);
    }
    let (sorted, k) = choose|sorted: Seq<(T, nat)>, k: int|
        arranged(held(next.levels, next.base), sorted, order_known::<T>(), by_weighted_value::<T>())
            && #[trigger] reaches(sorted, next.count / 2, k) && (median matches Some(m) && cloned(
            sorted[k].0,
            m,
        ));
    assert(sorted.len() == 1) by {
        assert(sorted.to_multiset().len() == only.to_multiset().len());
    }
    assert(only.contains(sorted[0])) by {
        assert(sorted.contains(sorted[0]));
        assert(sorted.to_multiset().count(sorted[0]) > 0);
    }
}

/// Where sorting follows the order of `T` and copies are equal to what they
/// were made of, levels settle in one way only.
pub proof fn law_settles_exact<T: PartialOrd + Clone>(
    levels: Seq<Seq<T>>,
    base: nat,
    i: int,
    settled: Seq<Seq<T>>,
)
    requires
        order_known::<T>(),
        copies_are_equal::<T>(),
        settles(levels, base, i, settled),
    ensures
        settled == settle(levels, base, i),
    decreases levels.len() - i,
{
    if i < 0 || i >= levels.len() || levels[i].len() != base {
    } else {
        let batch = choose|batch: Seq<T>| #[trigger]
            arranged(levels[i], batch, order_known::<T>(), by_value::<T>()) && if i + 1
                == levels.len() {
                settled == levels.update(i, batch)
            } else {
                exists|up: T| #[trigger]
                    cloned(batch[base as int / 2], up) && settles(
                        levels.update(i, Seq::empty()).update(i + 1, levels[i + 1].push(up)),
                        base,
                        i + 1,
                        settled,
                    )
            };
        if i + 1 < levels.len() {
            let up = choose|up: T| #[trigger]
                cloned(batch[base as int / 2], up) && settles(
                    levels.update(i, Seq::empty()).update(i + 1, levels[i + 1].push(up)),
                    base,
                    i + 1,
                    settled,
                );
            law_settles_exact(
                levels.update(i, Seq::empty()).update(i + 1, levels[i + 1].push(up)),
                base,
                i + 1,
                settled,
            );
        }
    }
}

/// Where sorting follows the order of `T` and copies are equal to what they
/// were made of, the state after a value is a function of the state before
/// and the value.
pub proof fn law_ingest_exact<T: PartialOrd + Clone>(
    state: BlockState<T>,
    value: T,
    next: BlockState<T>,
)
    requires
        order_known::<T>(),
        copies_are_equal::<T>(),
        state.ingests(value, next),
    ensures
        next == state.ingest(value),
{
    if !state.locked {
        law_settles_exact(
            state.levels.update(0, state.levels[0].push(value)),
            state.base,
            0,
            next.levels,
        );
    }
}

/// Where sorting follows the order of `T` and copies are equal to what they
/// were made of, the median that a block reports is a function of its state.
pub proof fn law_estimate_exact<T: PartialOrd + Clone>(state: BlockState<T>, median: Option<T>)
    requires
        order_known::<T>(),
        copies_are_equal::<T>(),
        state.answers(median),
    ensures
        median == state.estimate(),
{
    if !state.locked && state.count != 0 {
        let (sorted, k) = choose|sorted: Seq<(T, nat)>, k: int|
            arranged(
                held(state.levels, state.base),
                sorted,
                order_known::<T>(),
                by_weighted_value::<T>(),
            ) && #[trigger] reaches(sorted, state.count / 2, k) && (median matches Some(m)
                && cloned(sorted[k].0, m));
        let half = state.count / 2;
        let first = choose|first: int| #[trigger] reaches(sorted, half, first);
        lemma_reaches_once(sorted, half, first, k);
    }
}

/// The last level of a locked block is in order, where the order of `T` is
/// known and is a strict weak order: no value of it ranks before one that
/// stands earlier, so the one in the middle is a median of the level.
pub proof fn law_locked_level_ordered<T: PartialOrd + Clone>(state: BlockState<T>)
    requires
        state.wf(),
        state.locked,
        order_known::<T>(),
        weak_order::<T>(),
    ensures
        ordered_by(state.levels.last(), by_value::<T>()),
{
    lemma_weak_order::<T>();
    let unsorted = choose|unsorted: Seq<T>|
        state.levels.last() == #[trigger] sorted_by(unsorted, by_value::<T>());
    lemma_sorted_by_ordered(unsorted, by_value::<T>());
}

/// A level holds a value only after the levels below it have carried: the
/// block has then taken in `base^i` samples at least.
pub proof fn law_levels_fill_upward<T: PartialOrd + Clone>(state: BlockState<T>, i: int)
    requires
        state.wf(),
        0 <= i < state.exponent,
        state.levels[i].len() > 0,
    ensures
        state.count >= weight_at(state.base, i as nat),
{
    lemma_stored_covers_level(state.levels, state.base, i);
}

/// Levels that hold `most` values each at most hold `most` for every level at
/// most between them.
pub proof fn lemma_held_len<T>(levels: Seq<Seq<T>>, base: nat, most: nat)
    requires
        forall|i: int| 0 <= i < levels.len() ==> (#[trigger] levels[i]).len() <= most,
    ensures
        held(levels, base).len() <= levels.len() * most,
    decreases levels.len(),
{
    let n = levels.len();
    if n > 0 {
        assert forall|i: int| 0 <= i < levels.drop_last().len() implies (
        #[trigger] levels.drop_last()[i]).len() <= most by {
            assert(levels.drop_last()[i] == levels[i]);
        }
        lemma_held_len(levels.drop_last(), base, most);
        assert(levels.last().len() <= most);
        assert((n - 1) * most + most == n * most) by (nonlinear_arith);
    } else {
        assert(n * most == 0) by (nonlinear_arith)
            requires
                n == 0,
        ;
    }
}

/// However many samples a block has taken in, it holds `base * exponent`
/// values at most.
pub proof fn law_footprint<T: PartialOrd + Clone>(state: BlockState<T>)
    requires
        state.wf(),
    ensures
        held(state.levels, state.base).len() <= state.base * state.exponent,
{
    lemma_held_len(state.levels, state.base, state.base);
    assert(state.exponent * state.base == state.base * state.exponent) by (nonlinear_arith);
}

/// An open block that has taken something in reports a weighted median of the
/// values it holds, where the order of `T` is a strict weak order: a held
/// value such that the values that rank before it stand for fewer samples than
/// half the count, or for none, and those that it does not rank before stand
/// for half the count at least.
pub proof fn law_estimate_is_weighted_median<T: PartialOrd + Clone>(state: BlockState<T>)
    requires
        state.wf(),
        !state.locked,
        state.count > 0,
        weak_order::<T>(),
    ensures
        state.estimate() matches Some(median) && {
            let all = held(state.levels, state.base);
            let half = state.count / 2;
            &&& exists|i: int| 0 <= i < all.len() && (#[trigger] all[i]).0 == median
            &&& weight_where(all, ranking_before(median)) < half || weight_where(
                all,
                ranking_before(median),
            ) == 0
            &&& weight_where(all, not_ranking_after(median)) >= half
        },
{
    let all = held(state.levels, state.base);
    let half = state.count / 2;
    let rank = by_weighted_value::<T>();
    let sorted = sorted_by(all, rank);
    lemma_weak_order::<T>();
    lemma_sorted_by_permutes(all, rank);
    lemma_sorted_by_ordered(all, rank);
    lemma_total_weight_held(state.levels, state.base);
    lemma_total_weight_permuted(all, sorted);
    if all.len() == 0 {
        lemma_stored_nothing(state.levels, state.base);
    }
    let first = lemma_first_reaching(sorted, half);
    let k = choose|k: int| #[trigger] reaches(sorted, half, k);
    lemma_reaches_once(sorted, half, first, k);
    let median = sorted[k].0;
    assert(state.estimate() == Some(median));

    assert(sorted.contains(sorted[k]));
    assert(all.to_multiset().count(sorted[k]) > 0);
    assert(all.contains(sorted[k]));
    let i = choose|i: int| 0 <= i < all.len() && all[i] == sorted[k];
    assert(all[i].0 == median);

    let before = ranking_before(median);
    let front = sorted.take(k);
    let back = sorted.skip(k);
    assert(sorted =~= front + back);
    lemma_weight_where_permuted(all, sorted, before);
    lemma_weight_where_concat(front, back, before);
    lemma_weight_where_bounds(front, before);
    lemma_weight_where_bounds(back, before);
    assert forall|j: int| 0 <= j < back.len() implies !before((#[trigger] back[j]).0) by {
        assert(back[j] == sorted[k + j]);
        if j > 0 {
            assert(!rank(sorted[k + j], sorted[k]));
        }
    }
    lemma_prefix_weight(sorted, k, k);

    let upto = not_ranking_after(median);
    let head = sorted.take(k + 1);
    let rest = sorted.skip(k + 1);
    assert(sorted =~= head + rest);
    lemma_weight_where_permuted(all, sorted, upto);
    lemma_weight_where_concat(head, rest, upto);
    lemma_weight_where_bounds(head, upto);
    assert forall|j: int| 0 <= j < head.len() implies upto((#[trigger] head[j]).0) by {
        assert(head[j] == sorted[j]);
        if j < k {
            assert(!rank(sorted[k], sorted[j]));
        }
    }
}

} // verus!
