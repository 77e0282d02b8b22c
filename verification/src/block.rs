//! The remedian block: a running estimate of the median of a stream, held in
//! `base * exponent` values at most.

use crate::model::{copies_are_equal, settles, BlockState};
use crate::order::order_known;
use crate::sorting::{arranged, by_value, sort_batch};
use crate::weighted::{
    entries_view, first_reaching, held, lemma_held_below, lemma_prefix_weight,
    lemma_stored_covers_level, lemma_stored_nothing, lemma_total_weight_held,
    lemma_total_weight_permuted, lemma_weight_at, level_items, prefix_weight, reaches,
    sort_weighted, weight_at,
};
use vstd::prelude::*;

verus! {

broadcast use vstd::seq_lib::group_to_multiset_ensures;

/// The base of the default block.
pub const DEFAULT_BASE: usize = 11;

/// The exponent of the default block.
pub const DEFAULT_EXPONENT: usize = 10;

/// The state of a remedian over a stream of values of type `T`.
///
/// [`Self::new`] makes an empty block, [`Self::add_sample_point`] takes the
/// values in one by one, and [`Self::median`] reports the estimate at any time.
///
/// A block takes in `base ^ exponent` values at most. Once it has, it is
/// locked, and [`Self::add_sample_point`] leaves it as it is.
#[derive(Debug)]
pub struct RemedianBlock<T: PartialOrd + Clone> {
    /// How many values a level takes before it carries. An odd number gives
    /// each full level a middle value.
    remedian_base: usize,
    /// How many levels there are.
    remedian_exponent: usize,
    /// How many values were taken in.
    count: u64,
    /// The levels. Level 0 takes the values of the stream, each level above it
    /// the middle values of the one below.
    remedian_scratch: Vec<Vec<T>>,
    /// Whether the last level has filled: nothing more is taken in then.
    locked: bool,
}

impl<T: PartialOrd + Clone> View for RemedianBlock<T> {
    type V = BlockState<T>;

    closed spec fn view(&self) -> BlockState<T> {
        BlockState {
            base: self.remedian_base as nat,
            exponent: self.remedian_exponent as nat,
            count: self.count as nat,
            levels: Seq::new(self.remedian_scratch@.len(), |i: int| self.remedian_scratch@[i]@),
            locked: self.locked,
        }
    }
}

/// Tells whether a block of this base would estimate less well than it could:
/// a full level of an even length has no middle value.
pub fn is_even_base(remedian_base: usize) -> (even: bool)
    ensures
        even == (remedian_base % 2 == 0),
{
    remedian_base % 2 == 0
}

impl<T: PartialOrd + Clone> Clone for RemedianBlock<T> {
    /// A block of its own that holds a copy of every value of this one.
    fn clone(&self) -> (copy: Self)
        ensures
            self@.copied_as(copy@),
            copies_are_equal::<T>() ==> copy@ == self@,
    {
        let copy = Self {
            remedian_base: self.remedian_base,
            remedian_exponent: self.remedian_exponent,
            count: self.count,
            remedian_scratch: self.remedian_scratch.clone(),
            locked: self.locked,
        };
        proof {
            assert forall|i: int| 0 <= i < self@.levels.len() implies (
            #[trigger] copy@.levels[i]).len() == self@.levels[i].len() && forall|j: int|
                0 <= j < self@.levels[i].len() ==> cloned(
                    self@.levels[i][j],
                    #[trigger] copy@.levels[i][j],
                ) by {
                assert(cloned(self.remedian_scratch@[i], copy.remedian_scratch@[i]));
            }
            if copies_are_equal::<T>() {
                assert forall|i: int| 0 <= i < self@.levels.len() implies #[trigger] copy@.levels[i]
                    == self@.levels[i] by {
                    assert(copy@.levels[i] =~= self@.levels[i]);
                }
                assert(copy@.levels =~= self@.levels);
            }
        }
        copy
    }
}

impl<T: PartialOrd + Clone> Default for RemedianBlock<T> {
    /// A block of base 11 and exponent 10, which takes in some 25 billion
    /// values.
    fn default() -> (block: Self)
        ensures
            block@ == BlockState::<T>::fresh(DEFAULT_BASE as nat, DEFAULT_EXPONENT as nat),
            block@.wf(),
    {
        Self::new(DEFAULT_BASE, DEFAULT_EXPONENT)
    }
}

impl<T: PartialOrd + Clone> RemedianBlock<T> {
    /// Makes a block that has taken nothing in, with room for `remedian_base`
    /// values in each of its `remedian_exponent` levels. The block is fit for
    /// use where both numbers are at least 1. An even base costs accuracy and
    /// nothing else: see [`is_even_base`].
    pub fn new(remedian_base: usize, remedian_exponent: usize) -> (block: Self)
        ensures
            block@ == BlockState::<T>::fresh(remedian_base as nat, remedian_exponent as nat),
            block@.wf() <==> remedian_base >= 1 && remedian_exponent >= 1,
    {
        let mut remedian_scratch: Vec<Vec<T>> = Vec::with_capacity(remedian_exponent);
        let mut i: usize = 0;
        while i < remedian_exponent
            invariant
                i <= remedian_exponent,
                remedian_scratch@.len() == i,
                forall|j: int| 0 <= j < i ==> (#[trigger] remedian_scratch@[j])@.len() == 0,
            decreases remedian_exponent - i,
        {
            remedian_scratch.push(Vec::with_capacity(remedian_base));
            i += 1;
        }
        let block = Self {
            remedian_base,
            remedian_exponent,
            count: 0,
            remedian_scratch,
            locked: false,
        };
        proof {
            let fresh = BlockState::<T>::fresh(remedian_base as nat, remedian_exponent as nat);
            assert(block@.levels =~~= fresh.levels);
            BlockState::<T>::lemma_fresh_wf(remedian_base as nat, remedian_exponent as nat);
        }
        block
    }

    /// Whether the block is locked. A locked block takes nothing more in.
    pub fn locked(&self) -> (locked: bool)
        ensures
            locked == self@.locked,
    {
        self.locked
    }

    /// How many values the block has taken in.
    pub fn count(&self) -> (count: u64)
        ensures
            count == self@.count,
    {
        self.count
    }

    /// Takes the next value of the stream in, and tells whether it did: a
    /// locked block does not. The count of an open block must have room for
    /// one more.
    pub fn add_sample_point(&mut self, sample_point: T) -> (accepted: bool)
        requires
            old(self)@.wf(),
            !old(self)@.locked ==> old(self)@.count < u64::MAX,
        ensures
            old(self)@.ingests(sample_point, final(self)@),
            final(self)@.wf(),
            accepted == !old(self)@.locked,
    {
        if !self.locked {
            let base = self.remedian_base;
            let exponent = self.remedian_exponent;
            self.count += 1;
            self.remedian_scratch[0].push(sample_point);
            let ghost taken = self@.levels;
            proof {
                assert(taken =~~= old(self)@.levels.update(
                    0,
                    old(self)@.levels[0].push(sample_point),
                ));
            }
            let mut i: usize = 0;
            while i < exponent
                invariant
                    base == self.remedian_base,
                    exponent == self.remedian_exponent,
                    exponent == self.remedian_scratch@.len(),
                    self.count == old(self).count + 1,
                    base >= 1,
                    i <= exponent,
                    i == exponent ==> self.locked && self@.levels.last().len() == base && settles(
                        taken,
                        base as nat,
                        0,
                        self@.levels,
                    ),
                    i < exponent ==> !self.locked && forall|j: int|
                        i < j < exponent ==> (#[trigger] self@.levels[j]).len() < base,
                    forall|settled: Seq<Seq<T>>| #[trigger]
                        settles(self@.levels, base as nat, i as int, settled) ==> settles(
                            taken,
                            base as nat,
                            0,
                            settled,
                        ),
                ensures
                    settles(taken, base as nat, 0, self@.levels),
                    self.locked == (self@.levels.last().len() == base),
                decreases exponent - i,
            {
                let ghost before = self@.levels;
                if self.remedian_scratch[i].len() == base {
                    let batch = &mut self.remedian_scratch[i];
                    sort_batch(batch);
                    assert(batch@.len() == base) by {
                        assert(batch@.to_multiset().len() == before[i as int].to_multiset().len());
                    }
                    if i == exponent - 1 {
                        self.locked = true;
                        proof {
                            let now = self@.levels;
                            assert(now =~~= before.update(i as int, now[i as int]));
                            assert forall|settled: Seq<Seq<T>>| #[trigger]
                                settles(now, base as nat, i + 1, settled) implies settles(
                                taken,
                                base as nat,
                                0,
                                settled,
                            ) by {
                                assert(arranged(
                                    before[i as int],
                                    now[i as int],
                                    order_known::<T>(),
                                    by_value::<T>(),
                                ));
                                assert(settles(before, base as nat, i as int, settled));
                            }
                            assert(settles(now, base as nat, i + 1, now));
                        }
                    } else {
                        let intermediate_median = batch[base / 2].clone();
                        let ghost sorted = batch@;
                        batch.clear();
                        self.remedian_scratch[i + 1].push(intermediate_median);
                        proof {
                            let now = self@.levels;
                            let carried = before.update(i as int, Seq::empty()).update(
                                i + 1,
                                before[i + 1].push(intermediate_median),
                            );
                            assert(now =~~= carried);
                            assert forall|settled: Seq<Seq<T>>| #[trigger]
                                settles(now, base as nat, i + 1, settled) implies settles(
                                taken,
                                base as nat,
                                0,
                                settled,
                            ) by {
                                assert(arranged(
                                    before[i as int],
                                    sorted,
                                    order_known::<T>(),
                                    by_value::<T>(),
                                ));
                                assert(cloned(sorted[base as int / 2], intermediate_median));
                                assert(settles(before, base as nat, i as int, settled));
                            }
                        }
                    }
                } else {
                    proof {
                        assert(settles(before, base as nat, i as int, before));
                    }
                    break ;
                }
                i += 1;
            }
            proof {
                old(self)@.lemma_ingests_wf(sample_point, self@);
            }
            true
        } else {
            false
        }
    }

    /// The held values, each with the number of samples that it stands for:
    /// the lowest level first, every level in the order in which it is held.
    fn weighted_values(&self) -> (entries: Vec<(&T, u64)>)
        requires
            self@.wf(),
        ensures
            entries_view(entries@) == held(self@.levels, self@.base),
    {
        let ghost levels = self@.levels;
        let ghost base = self@.base;
        let mut entries: Vec<(&T, u64)> = Vec::new();
        let mut weight: u64 = 1;
        let mut i: usize = 0;
        proof {
            lemma_weight_at(base, 0);
            assert(levels.take(0) =~= Seq::empty());
            assert(entries_view(entries@) =~= held(levels.take(0), base));
        }
        while i < self.remedian_exponent
            invariant
                self@.wf(),
                levels == self@.levels,
                base == self@.base,
                i <= self.remedian_exponent,
                i < self.remedian_exponent ==> weight == weight_at(base, i as nat),
                entries_view(entries@) == held(levels.take(i as int), base),
            decreases self.remedian_exponent - i,
        {
            let batch = &self.remedian_scratch[i];
            let mut j: usize = 0;
            proof {
                assert(levels[i as int].take(0) =~= Seq::empty());
                assert(entries_view(entries@) =~= held(levels.take(i as int), base) + level_items(
                    levels[i as int].take(0),
                    weight as nat,
                ));
            }
            while j < batch.len()
                invariant
                    batch@ == levels[i as int],
                    j <= batch@.len(),
                    entries_view(entries@) == held(levels.take(i as int), base) + level_items(
                        levels[i as int].take(j as int),
                        weight as nat,
                    ),
                decreases batch.len() - j,
            {
                let ghost before = entries_view(entries@);
                entries.push((&batch[j], weight));
                proof {
                    assert(entries_view(entries@) =~= before.push(
                        (batch@[j as int], weight as nat),
                    ));
                    assert(levels[i as int].take(j + 1) =~= levels[i as int].take(j as int).push(
                        batch@[j as int],
                    ));
                    assert(entries_view(entries@) =~= held(levels.take(i as int), base)
                        + level_items(levels[i as int].take(j + 1), weight as nat));
                }
                j += 1;
            }
            proof {
                assert(levels[i as int].take(j as int) =~= levels[i as int]);
                assert(levels.take(i + 1).drop_last() =~= levels.take(i as int));
                assert(levels.take(i + 1).last() == levels[i as int]);
            }
            i += 1;
            if i < self.remedian_exponent {
                proof {
                    lemma_weight_at(base, (i - 1) as nat);
                    let below = weight_at(base, (i - 1) as nat);
                    assert(weight * base == base * below) by (nonlinear_arith)
                        requires
                            weight == below,
                    ;
                }
                match weight.checked_mul(self.remedian_base as u64) {
                    Some(next) => {
                        weight = next;
                    },
                    None => {
                        proof {
                            assert forall|k: int| i <= k < levels.len() implies (
                            #[trigger] levels[k]).len() == 0 by {
                                if levels[k].len() > 0 {
                                    lemma_stored_covers_level(levels, base, k);
                                    lemma_weight_at(base, i as nat);
                                }
                            }
                            lemma_held_below(levels, base, i as int);
                        }
                        return entries;
                    },
                }
            }
        }
        proof {
            assert(levels.take(i as int) =~= levels);
        }
        entries
    }

    /// The estimate of the median of the values taken in so far; none as long
    /// as there are none.
    pub fn median(&self) -> (median: Option<T>)
        requires
            self@.wf(),
        ensures
            self@.answers(median),
            median.is_some() <==> self@.count > 0,
    {
        if self.locked {
            proof {
                self@.lemma_wf_count();
                lemma_weight_at(self@.base, self@.exponent);
            }
            Some(self.remedian_scratch[self.remedian_exponent - 1][self.remedian_base / 2].clone())
        } else {
            let mut weighted_values = self.weighted_values();
            let ghost unsorted = entries_view(weighted_values@);
            sort_weighted(&mut weighted_values);
            let ghost sorted = entries_view(weighted_values@);
            let ghost target = (self.count / 2) as nat;
            proof {
                lemma_total_weight_held(self@.levels, self@.base);
                lemma_total_weight_permuted(unsorted, sorted);
                lemma_prefix_weight(sorted, 0, sorted.len() as int);
            }
            match first_reaching(&weighted_values, self.count / 2) {
                Some(value) => {
                    let median = value.clone();
                    proof {
                        let k = choose|k: int| #[trigger]
                            reaches(sorted, target, k) && *value == sorted[k].0;
                        let i = choose|i: int|
                            0 <= i < self@.levels.len() && (#[trigger] self@.levels[i]).len() != 0;
                        lemma_stored_covers_level(self@.levels, self@.base, i);
                        lemma_weight_at(self@.base, i as nat);
                        assert(reaches(sorted, self@.count / 2, k) && cloned(sorted[k].0, median));
                    }
                    Some(median)
                },
                None => {
                    proof {
                        if self@.count > 0 {
                            if sorted.len() == 0 {
                                lemma_stored_nothing(self@.levels, self@.base);
                            }
                            assert(prefix_weight(sorted, sorted.len() as int) < target);
                        }
                    }
                    None
                },
            }
        }
    }
}

impl<T: PartialOrd + Clone + Default> RemedianBlock<T> {
    /// The estimate of the median, or the default value of `T` as long as
    /// nothing was taken in.
    #[inline]
    pub fn median_or_default(&self) -> (median: T)
        requires
            self@.wf(),
        ensures
            self@.count > 0 ==> self@.answers(Some(median)),
            self@.count == 0 ==> call_ensures(T::default, (), median),
    {
        self.median().unwrap_or_default()
    }
}

} // verus!
