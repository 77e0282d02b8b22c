//! The state of a block as a mathematical value, and what one step does to it.

use crate::order::order_known;
use crate::sorting::{arranged, by_value, sorted_by};
use crate::weighted::{
    by_weighted_value, held, lemma_stored_below_capacity, lemma_stored_nothing,
    lemma_stored_top_only, lemma_stored_update, lemma_weight_at, reaches, stored, weight_at,
};
use vstd::prelude::*;

verus! {

broadcast use vstd::seq_lib::group_to_multiset_ensures;

/// What a block is: its shape, the number of samples taken in, the values that
/// each level holds, and whether it is locked.
pub struct BlockState<T> {
    /// How many values a level takes before it carries.
    pub base: nat,
    /// How many levels there are.
    pub exponent: nat,
    /// How many samples were taken in.
    pub count: nat,
    /// The values of each level, level 0 first.
    pub levels: Seq<Seq<T>>,
    /// Whether the last level has filled.
    pub locked: bool,
}

/// `batch` is as sorting leaves a batch, as far as the order of `T` is known.
pub open spec fn sorted_where_known<T: PartialOrd>(batch: Seq<T>) -> bool {
    order_known::<T>() ==> exists|unsorted: Seq<T>|
        batch == #[trigger] sorted_by(unsorted, by_value::<T>())
}

/// `levels`, of which level `i` has just taken a value in, come to rest as
/// `settled`. A level that is not full stays as it is and nothing above it
/// moves. A full level is sorted; the last one then stays full, and any other
/// is emptied while a copy of its middle value goes into the level above.
pub open spec fn settles<T: PartialOrd + Clone>(
    levels: Seq<Seq<T>>,
    base: nat,
    i: int,
    settled: Seq<Seq<T>>,
) -> bool
    decreases levels.len() - i,
{
    if i < 0 || i >= levels.len() || levels[i].len() != base {
        settled == levels
    } else {
        exists|batch: Seq<T>| #[trigger]
            arranged(levels[i], batch, order_known::<T>(), by_value::<T>()) && if i + 1
                == levels.len() {
                settled == levels.update(i, batch)
            } else {
                exists|up: T| #[trigger]
                    cloned(batch[base as int / 2], up) && settles(
                        levels.update(i, Seq::empty()).update(i + 1, levels[i + 1].push(up)),
                        base,
                        i + 1,
                        settled,
                    )
            }
    }
}

/// Every copy that `clone` makes of a value of `T` is equal to the value.
pub open spec fn copies_are_equal<T: Clone>() -> bool {
    forall|a: T, b: T| #[trigger] cloned(a, b) ==> a == b
}

/// What `levels`, of which level `i` has just taken a value in, come to rest
/// as where sorting follows the order of `T` and every copy is equal to what it
/// was made of: `settles` then leaves no choice.
pub open spec fn settle<T: PartialOrd>(levels: Seq<Seq<T>>, base: nat, i: int) -> Seq<Seq<T>>
    decreases levels.len() - i,
{
    if i < 0 || i >= levels.len() || levels[i].len() != base {
        levels
    } else {
        let batch = sorted_by(levels[i], by_value::<T>());
        if i + 1 == levels.len() {
            levels.update(i, batch)
        } else {
            let up = batch[base as int / 2];
            settle(
                levels.update(i, Seq::empty()).update(i + 1, levels[i + 1].push(up)),
                base,
                i + 1,
            )
        }
    }
}

impl<T: PartialOrd + Clone> BlockState<T> {
    /// The block of the given shape that has taken nothing in.
    pub open spec fn fresh(base: nat, exponent: nat) -> Self {
        BlockState {
            base,
            exponent,
            count: 0,
            levels: Seq::new(exponent, |i: int| Seq::empty()),
            locked: false,
        }
    }

    /// The most samples that a block of this shape takes in: `base` to the
    /// power `exponent`.
    pub open spec fn capacity(self) -> nat {
        weight_at(self.base, self.exponent)
    }

    /// The state is one that a block can be in: a base and an exponent of at
    /// least 1, as many levels as the exponent, the count equal to the samples
    /// that the held values stand for, every level short of full while the
    /// block is open, and only the last level holding anything, full and
    /// sorted, once it is locked.
    pub open spec fn wf(self) -> bool {
        &&& self.base >= 1
        &&& self.exponent >= 1
        &&& self.levels.len() == self.exponent
        &&& self.count == stored(self.levels, self.base)
        &&& if self.locked {
            &&& self.levels.last().len() == self.base
            &&& sorted_where_known(self.levels.last())
            &&& forall|i: int|
                0 <= i < self.exponent - 1 ==> (#[trigger] self.levels[i]).len() == 0
        } else {
            forall|i: int| 0 <= i < self.exponent ==> (#[trigger] self.levels[i]).len() < self.base
        }
    }

    /// Taking `value` in turns this state into `next`. A locked block stays as
    /// it is. An open one counts the sample, puts the value into level 0 and
    /// lets the levels settle; it is locked from then on if that filled the
    /// last level.
    pub open spec fn ingests(self, value: T, next: Self) -> bool {
        if self.locked {
            next == self
        } else {
            &&& next.base == self.base
            &&& next.exponent == self.exponent
            &&& next.count == self.count + 1
            &&& settles(
                self.levels.update(0, self.levels[0].push(value)),
                self.base,
                0,
                next.levels,
            )
            &&& next.locked == (next.levels.last().len() == self.base)
        }
    }

    /// The state after `value` where `ingests` leaves no choice: see `settle`.
    pub open spec fn ingest(self, value: T) -> Self {
        if self.locked {
            self
        } else {
            let levels = settle(self.levels.update(0, self.levels[0].push(value)), self.base, 0);
            BlockState {
                base: self.base,
                exponent: self.exponent,
                count: self.count + 1,
                levels,
                locked: levels.last().len() == self.base,
            }
        }
    }

    /// `median` is what the block reports. A locked block reports a copy of
    /// the middle value of its last level. An open block that has taken
    /// nothing in reports none. Any other sorts the held values by value and
    /// reports a copy of the first at which the running sum of the weights is
    /// half the count or more.
    pub open spec fn answers(self, median: Option<T>) -> bool {
        if self.locked {
            median matches Some(m) && cloned(
                self.levels[self.exponent - 1][self.base as int / 2],
                m,
            )
        } else if self.count == 0 {
            median is None
        } else {
            exists|sorted: Seq<(T, nat)>, k: int|
                arranged(
                    held(self.levels, self.base),
                    sorted,
                    order_known::<T>(),
                    by_weighted_value::<T>(),
                ) && #[trigger] reaches(sorted, self.count / 2, k) && (median matches Some(m)
                    && cloned(sorted[k].0, m))
        }
    }

    /// The median that the block reports where `answers` leaves no choice.
    pub open spec fn estimate(self) -> Option<T> {
        if self.locked {
            Some(self.levels[self.exponent - 1][self.base as int / 2])
        } else if self.count == 0 {
            None
        } else {
            let sorted = sorted_by(held(self.levels, self.base), by_weighted_value::<T>());
            let half = self.count / 2;
            let k = choose|k: int| #[trigger] reaches(sorted, half, k);
            Some(sorted[k].0)
        }
    }

    /// `copy` is what copying this state gives: the same numbers, and in every
    /// place of every level a copy of the value that stands there.
    pub open spec fn copied_as(self, copy: Self) -> bool {
        &&& copy.base == self.base
        &&& copy.exponent == self.exponent
        &&& copy.count == self.count
        &&& copy.locked == self.locked
        &&& copy.levels.len() == self.levels.len()
        &&& forall|i: int|
            0 <= i < self.levels.len() ==> (#[trigger] copy.levels[i]).len() == self.levels[i].len()
        &&& forall|i: int, j: int|
            0 <= i < self.levels.len() && 0 <= j < self.levels[i].len() ==> cloned(
                self.levels[i][j],
                #[trigger] copy.levels[i][j],
            )
    }
}

/// Level `i` of `levels` has just taken a value in: the levels below it are
/// empty, it holds at most `base` values, and those above it are short of full.
pub open spec fn rippling<T>(levels: Seq<Seq<T>>, base: nat, i: int) -> bool {
    &&& 0 <= i < levels.len()
    &&& 1 <= levels[i].len() <= base
    &&& forall|j: int| 0 <= j < i ==> (#[trigger] levels[j]).len() == 0
    &&& forall|j: int| i < j < levels.len() ==> (#[trigger] levels[j]).len() < base
}

/// Settling keeps the number of levels and the samples that they stand for. It
/// leaves either every level short of full, or the last level full and the
/// others empty.
pub proof fn lemma_settles_shape<T: PartialOrd + Clone>(
    levels: Seq<Seq<T>>,
    base: nat,
    i: int,
    settled: Seq<Seq<T>>,
)
    requires
        base >= 1,
        rippling(levels, base, i),
        settles(levels, base, i, settled),
    ensures
        settled.len() == levels.len(),
        stored(settled, base) == stored(levels, base),
        if settled.last().len() == base {
            &&& sorted_where_known(settled.last())
            &&& forall|j: int| 0 <= j < settled.len() - 1 ==> (#[trigger] settled[j]).len() == 0
        } else {
            forall|j: int| 0 <= j < settled.len() ==> (#[trigger] settled[j]).len() < base
        },
    decreases levels.len() - i,
{
    if levels[i].len() != base {
    } else {
        let batch = choose|batch: Seq<T>| #[trigger]
            arranged(levels[i], batch, order_known::<T>(), by_value::<T>()) && if i + 1
                == levels.len() {
                settled == levels.update(i, batch)
            } else {
                exists|up: T| #[trigger]
                    cloned(batch[base as int / 2], up) && settles(
                        levels.update(i, Seq::empty()).update(i + 1, levels[i + 1].push(up)),
                        base,
                        i + 1,
                        settled,
                    )
            };
        assert(batch.len() == levels[i].len()) by {
            assert(batch.to_multiset().len() == levels[i].to_multiset().len());
        }
        if i + 1 == levels.len() {
            lemma_stored_update(levels, base, i, batch);
            if order_known::<T>() {
                assert(settled.last() == sorted_by(levels[i], by_value::<T>()));
            }
        } else {
            let up = choose|up: T| #[trigger]
                cloned(batch[base as int / 2], up) && settles(
                    levels.update(i, Seq::empty()).update(i + 1, levels[i + 1].push(up)),
                    base,
                    i + 1,
                    settled,
                );
            let emptied = levels.update(i, Seq::empty());
            let carried = emptied.update(i + 1, levels[i + 1].push(up));
            lemma_stored_update(levels, base, i, Seq::empty());
            lemma_stored_update(emptied, base, i + 1, levels[i + 1].push(up));
            lemma_weight_at(base, i as nat);
            let low = weight_at(base, i as nat);
            let high = weight_at(base, (i + 1) as nat);
            let n = levels[i + 1].len();
            assert(base * low == high);
            assert((n + 1) * high == n * high + high) by (nonlinear_arith);
            assert(levels[i].len() * low == high);
            assert(Seq::<T>::empty().len() * low == 0) by (nonlinear_arith);
            assert(stored(carried, base) == stored(levels, base));
            assert(rippling(carried, base, i + 1));
            lemma_settles_shape(carried, base, i + 1, settled);
        }
    }
}

impl<T: PartialOrd + Clone> BlockState<T> {
    /// A fresh block is well formed exactly where its base and its exponent
    /// are at least 1.
    pub proof fn lemma_fresh_wf(base: nat, exponent: nat)
        ensures
            Self::fresh(base, exponent).wf() <==> base >= 1 && exponent >= 1,
    {
        lemma_stored_nothing(Self::fresh(base, exponent).levels, base);
    }

    /// A well formed block has taken in no more than its capacity, and is
    /// locked exactly when it has taken in that many.
    pub proof fn lemma_wf_count(self)
        requires
            self.wf(),
        ensures
            self.count <= self.capacity(),
            self.locked <==> self.count == self.capacity(),
    {
        if self.locked {
            lemma_stored_top_only(self.levels, self.base);
            lemma_weight_at(self.base, (self.exponent - 1) as nat);
        } else {
            lemma_stored_below_capacity(self.levels, self.base);
        }
    }

    /// Taking a value in leaves a well formed block well formed.
    pub proof fn lemma_ingests_wf(self, value: T, next: Self)
        requires
            self.wf(),
            self.ingests(value, next),
        ensures
            next.wf(),
    {
        if !self.locked {
            let taken = self.levels.update(0, self.levels[0].push(value));
            lemma_stored_update(self.levels, self.base, 0, self.levels[0].push(value));
            lemma_weight_at(self.base, 0);
            let n = self.levels[0].len();
            assert((n + 1) * 1 == n * 1 + 1) by (nonlinear_arith);
            assert(rippling(taken, self.base, 0));
            lemma_settles_shape(taken, self.base, 0, next.levels);
        }
    }
}

} // verus!
