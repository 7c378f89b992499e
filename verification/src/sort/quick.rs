//! Quick sort: Lomuto partition around the last value of the range, ticking
//! once per exchange and once more after each half has been sorted.

use vstd::prelude::*;
use crate::args::MAX_QUANTITY;
use crate::error::Error;
use crate::renderer::Renderer;
use crate::script::{
    lemma_begins, lemma_begins_part, lemma_quick_stages, partition_rest, quick_rest, shown_by, Shown,
};
use crate::sequence::{
    is_non_decreasing, lemma_all_pairs_ordered_is_non_decreasing, lemma_lower_bound_kept,
    lemma_non_decreasing_orders_all_pairs, lemma_stretch_within, lemma_swap_within,
    lemma_upper_bound_kept, ordered_between, same_items, same_outside, swap_of,
};
use crate::sort::Sort;
use crate::sort_type::SortType;
use crate::trace::operation;

verus! {

/// `data[start..end]` is split around the value at `p`: nothing before `p`
/// is larger than it and everything after `p` is.
spec fn partitioned(data: Seq<u64>, start: int, p: int, end: int) -> bool {
    &&& start <= p < end
    &&& forall|x: int| start <= x < p ==> #[trigger] data[x] <= data[p]
    &&& forall|x: int| p < x < end ==> #[trigger] data[x] > data[p]
}

/// Two sorted halves around a splitting value make a sorted range.
proof fn lemma_halves_join(data: Seq<u64>, start: int, p: int, end: int)
    requires
        0 <= start <= p < end <= data.len(),
        partitioned(data, start, p, end),
        ordered_between(data, start, p),
        ordered_between(data, p + 1, end),
    ensures
        ordered_between(data, start, end),
{
    assert forall|x: int, y: int| start <= x <= y < end implies #[trigger] data[x] <= #[trigger] data[y] by {
        if x < p && y > p {
            assert(data[x] <= data[p]);
            assert(data[y] > data[p]);
        }
    }
}

impl<'a, R: Renderer> Sort<'a, R> {
    /// Exchanges the values at `i <= j`, counts the exchange and ticks.
    fn counted_exchange(&mut self, i: usize, j: usize) -> (r: Result<(), Error>)
        requires
            old(self).shown(),
            old(self).sort == SortType::Quick,
            i <= j < old(self).data@.len(),
            old(self).count.spec_value() < usize::MAX,
            is_non_decreasing(old(self).ticks@[0].snapshot.data) ==> i == j,
        ensures
            final(self).follows(old(self)),
            final(self).data@ == swap_of(old(self).data@, i as int, j as int),
            final(self).count.spec_value() == old(self).count.spec_value() + 1,
            final(self).ticks@.len() == old(self).ticks@.len() + 1,
            shown_by(final(self).ticks@) == shown_by(old(self).ticks@).push(final(self).state()),
            r is Ok ==> final(self).shown(),
            r is Err ==> final(self).halted(r),
    {
        let ghost before = self.data@;
        self.tally();
        self.exchange(i, j);
        proof {
            assert(operation(SortType::Quick, before, self.data@));
            if i == j {
                assert(self.data@ =~= before);
            }
        }
        let ghost mid = *self;
        let r = self.step_tick();
        proof {
            Self::lemma_follows_on(old(self), &mid, self);
        }
        r
    }

    /// Ticks without an operation, to show that a half has been sorted.
    fn progress_tick(&mut self) -> (r: Result<(), Error>)
        requires
            old(self).shown(),
            old(self).sort == SortType::Quick,
        ensures
            final(self).follows(old(self)),
            final(self).data@ == old(self).data@,
            final(self).count == old(self).count,
            final(self).ticks@.len() == old(self).ticks@.len() + 1,
            shown_by(final(self).ticks@) == shown_by(old(self).ticks@).push(final(self).state()),
            r is Ok ==> final(self).shown(),
            r is Err ==> final(self).halted(r),
    {
        self.step_tick()
    }

    /// Sorts by quick sort.
    pub(super) fn quick_sort(&mut self) -> (r: Result<(), Error>)
        requires
            old(self).shown(),
            old(self).sort == SortType::Quick,
            old(self).count.spec_value() == 0,
        ensures
            final(self).follows(old(self)),
            r is Ok ==> {
                &&& final(self).shown()
                &&& is_non_decreasing(final(self).data@)
                &&& same_items(final(self).data@, old(self).data@)
                &&& final(self).count.spec_value() == quick_rest(
                    old(self).data@,
                    0,
                    0,
                    old(self).data@.len() as int,
                ).1
                &&& final(self).count.spec_value() >= old(self).data@.len()
                &&& 2 * final(self).count.spec_value() <= old(self).data@.len() * (
                    old(self).data@.len() + 1)
                &&& final(self).ticks@.len() == old(self).ticks@.len()
                    + final(self).count.spec_value() + 2 * old(self).data@.len()
                &&& final(self).shows_since(
                    old(self),
                    quick_rest(old(self).data@, 0, 0, old(self).data@.len() as int).2,
                )
            },
            r is Err ==> {
                &&& final(self).halted(r)
                &&& final(self).showing_since(
                    old(self),
                    quick_rest(old(self).data@, 0, 0, old(self).data@.len() as int).2,
                )
            },
    {
        let n = self.data.len();
        proof {
            assert(n * n <= MAX_QUANTITY * MAX_QUANTITY) by (nonlinear_arith)
                requires
                    n <= MAX_QUANTITY,
            ;
        }
        let r = self.quick_sort_helper(0, n);
        proof {
            if r is Ok {
                assert(self.data@.subrange(0, n as int) =~= self.data@);
                assert(old(self).data@.subrange(0, n as int) =~= old(self).data@);
                lemma_all_pairs_ordered_is_non_decreasing(self.data@);
            }
        }
        r
    }

    /// Sorts `data[start..end]` by quick sort.
    #[verifier::rlimit(60)]
    fn quick_sort_helper(&mut self, start: usize, end: usize) -> (r: Result<(), Error>)
        requires
            old(self).shown(),
            old(self).sort == SortType::Quick,
            start <= end <= old(self).data@.len(),
            old(self).count.spec_value() + (end - start) * (end - start) <= usize::MAX,
        ensures
            final(self).follows(old(self)),
            r is Ok ==> {
                &&& final(self).shown()
                &&& final(self).counted_since(old(self)) >= end - start
                &&& 2 * final(self).counted_since(old(self)) <= (end - start) * (end - start + 1)
                &&& final(self).ticks@.len() == old(self).ticks@.len() + final(self).counted_since(
                    old(self),
                ) + 2 * (end - start)
                &&& same_outside(old(self).data@, final(self).data@, start as int, end as int)
                &&& ordered_between(final(self).data@, start as int, end as int)
                &&& same_items(
                    final(self).data@.subrange(start as int, end as int),
                    old(self).data@.subrange(start as int, end as int),
                )
                &&& final(self).data@ == old(self).quick_plan(start, end).0
                &&& final(self).count.spec_value() == old(self).quick_plan(start, end).1
                &&& final(self).shows_since(old(self), old(self).quick_plan(start, end).2)
            },
            r is Err ==> {
                &&& final(self).halted(r)
                &&& final(self).showing_since(old(self), old(self).quick_plan(start, end).2)
            },
        decreases end - start,
    {
        let ghost plan = self.quick_plan(start, end);
        let ghost shown = shown_by(self.ticks@);
        if start < end {
            let ghost parting = self.partition_plan(start, end);
            let ghost entry = *self;
            let ghost m = (end - start) as int;
            proof {
                assert(m <= m * m) by (nonlinear_arith)
                    requires
                        m >= 1,
                ;
            }
            let partition_index = match self.partition(start, end) {
                Ok(p) => p,
                Err(e) => {
                    proof {
                        lemma_quick_stages(
                            entry.data@,
                            entry.count.spec_value() as nat,
                            start as int,
                            end as int,
                        );
                        lemma_begins_part(shown_by(self.ticks@), shown, parting.3, plan.2);
                    }
                    return Err(e);
                },
            };
            let ghost split = *self;
            let ghost lower = self.quick_plan(start, partition_index);
            proof {
                lemma_quick_stages(
                    entry.data@,
                    entry.count.spec_value() as nat,
                    start as int,
                    end as int,
                );
            }
            let ghost a = (partition_index - start) as int;
            let ghost b = (end - partition_index - 1) as int;
            let ghost pivot = split.data@[partition_index as int];
            proof {
                assert(a * a + b * b + (a + b + 1) <= (a + b + 1) * (a + b + 1)) by (nonlinear_arith)
                    requires
                        a >= 0,
                        b >= 0,
                ;
                assert(a * (a + 1) + b * (b + 1) + 2 * (a + 1) <= (a + b + 1) * (a + b + 2))
                    by (nonlinear_arith)
                    requires
                        a >= 0,
                        b >= 0,
                ;
                assert(a * (a + 1) <= 2 * (a * a) && b * (b + 1) <= 2 * (b * b)) by (nonlinear_arith)
                    requires
                        a >= 0,
                        b >= 0,
                ;
                assert(m == a + b + 1);
            }

            let r = self.quick_sort_helper(start, partition_index);
            proof {
                Self::lemma_follows_on(old(self), &split, self);
                assert((shown + parting.3) + lower.2 =~= shown + (parting.3 + lower.2));
            }
            if r.is_err() {
                proof {
                    lemma_begins_part(shown_by(self.ticks@), shown, parting.3 + lower.2, plan.2);
                }
                return r;
            }
            let ghost low = *self;
            let ghost first_half = parting.3 + lower.2 + seq![low.state()];
            let r = self.progress_tick();
            proof {
                Self::lemma_follows_on(old(self), &low, self);
                assert(shown_by(self.ticks@) =~= shown + first_half);
            }
            if r.is_err() {
                proof {
                    lemma_begins(shown_by(self.ticks@), Seq::empty());
                    assert(shown_by(self.ticks@) + Seq::empty() =~= shown + first_half);
                    lemma_begins_part(shown_by(self.ticks@), shown, first_half, plan.2);
                }
                return r;
            }
            proof {
                lemma_upper_bound_kept(
                    split.data@,
                    low.data@,
                    start as int,
                    partition_index as int,
                    pivot,
                );
                lemma_stretch_within(
                    split.data@,
                    low.data@,
                    start as int,
                    partition_index as int,
                    start as int,
                    end as int,
                );
            }

            let ghost shown_low = *self;
            let ghost upper = self.quick_plan((partition_index + 1) as usize, end);
            let r = self.quick_sort_helper(partition_index + 1, end);
            proof {
                Self::lemma_follows_on(old(self), &shown_low, self);
                assert((shown + first_half) + upper.2 =~= shown + (first_half + upper.2));
            }
            if r.is_err() {
                proof {
                    lemma_begins_part(shown_by(self.ticks@), shown, first_half + upper.2, plan.2);
                }
                return r;
            }
            let ghost high = *self;
            let r = self.progress_tick();
            proof {
                Self::lemma_follows_on(old(self), &high, self);
                assert(plan.2 =~= first_half + upper.2 + seq![high.state()]);
                assert(shown_by(self.ticks@) =~= shown + plan.2);
                lemma_begins(shown_by(self.ticks@), Seq::empty());
                assert(shown_by(self.ticks@) + Seq::empty() =~= shown + plan.2);
            }
            if r.is_err() {
                return r;
            }
            proof {
                let s = self.data@;
                let p = partition_index as int;
                assert forall|x: int| p < x < end implies #[trigger] low.data@[x] > pivot by {
                    assert(split.data@[x] > split.data@[p]);
                    assert(split.data@[x] == low.data@[x]);
                }
                assert(low.data@[p] == split.data@[p]);
                assert(high.data@[p] == low.data@[p]);
                lemma_lower_bound_kept(
                    low.data@,
                    high.data@,
                    partition_index as int + 1,
                    end as int,
                    pivot,
                );
                lemma_stretch_within(
                    low.data@,
                    high.data@,
                    partition_index as int + 1,
                    end as int,
                    start as int,
                    end as int,
                );
                assert(s[partition_index as int] == pivot);
                assert forall|x: int| start <= x < partition_index implies #[trigger] s[x] <= pivot by {
                    assert(s[x] == low.data@[x]);
                }
                assert forall|x: int, y: int| start <= x <= y < partition_index implies #[trigger] s[x]
                    <= #[trigger] s[y] by {
                    assert(s[x] == low.data@[x]);
                    assert(s[y] == low.data@[y]);
                }
                assert(partitioned(s, start as int, partition_index as int, end as int));
                lemma_halves_join(s, start as int, partition_index as int, end as int);
                assert forall|x: int|
                    0 <= x < s.len() && !(start <= x < end) implies #[trigger] entry.data@[x]
                    == #[trigger] s[x] by {
                    assert(entry.data@[x] == split.data@[x]);
                    assert(split.data@[x] == low.data@[x]);
                }
            }
        } else {
            proof {
                let m = (end - start) as int;
                assert(m * (m + 1) == 0) by (nonlinear_arith)
                    requires
                        m == 0,
                ;
                assert(shown + plan.2 =~= shown);
            }
        }
        Ok(())
    }

    /// What quick sort of `data[start..end]` goes on to show from here, the
    /// data it leaves and the count it arrives at.
    spec fn quick_plan(&self, start: usize, end: usize) -> (Seq<u64>, nat, Seq<Shown>) {
        quick_rest(self.data@, self.count.spec_value() as nat, start as int, end as int)
    }

    /// What the partition of `data[start..end]` goes on to show from here,
    /// the data it leaves, the place of the pivot and the count it arrives at.
    spec fn partition_plan(&self, start: usize, end: usize) -> (Seq<u64>, int, nat, Seq<Shown>) {
        partition_rest(
            self.data@,
            self.count.spec_value() as nat,
            self.data@[end - 1],
            start as int,
            start as int,
            end - 1,
        )
    }

    /// Splits `data[start..end]` around its last value and returns the
    /// place that value ends up in.
    fn partition(&mut self, start: usize, end: usize) -> (r: Result<usize, Error>)
        requires
            old(self).shown(),
            old(self).sort == SortType::Quick,
            start < end <= old(self).data@.len(),
            old(self).count.spec_value() + (end - start) <= usize::MAX,
        ensures
            final(self).follows(old(self)),
            r matches Ok(p) ==> {
                &&& final(self).shown()
                &&& final(self).data@ == old(self).partition_plan(start, end).0
                &&& p == old(self).partition_plan(start, end).1
                &&& final(self).count.spec_value() == old(self).partition_plan(start, end).2
                &&& final(self).shows_since(old(self), old(self).partition_plan(start, end).3)
                &&& partitioned(final(self).data@, start as int, p as int, end as int)
                &&& final(self).data@[p as int] == old(self).data@[end - 1]
                &&& final(self).counted_since(old(self)) == p - start + 1
                &&& final(self).ticks@.len() == old(self).ticks@.len() + (p - start) + 1
                &&& same_outside(old(self).data@, final(self).data@, start as int, end as int)
                &&& same_items(
                    final(self).data@.subrange(start as int, end as int),
                    old(self).data@.subrange(start as int, end as int),
                )
            },
            r matches Err(e) ==> {
                &&& final(self).halted(Err(e))
                &&& final(self).showing_since(old(self), old(self).partition_plan(start, end).3)
            },
    {
        let pivot = self.data[end - 1];
        let ghost plan = self.partition_plan(start, end);
        let ghost all = shown_by(self.ticks@) + plan.3;
        let mut i: usize = start;
        let mut j: usize = start;

        while j < end - 1
            invariant
                start <= i <= j <= end - 1,
                end <= self.data@.len(),
                self.data@[end - 1] == pivot,
                pivot == old(self).data@[end - 1],
                forall|x: int| start <= x < i ==> #[trigger] self.data@[x] <= pivot,
                forall|x: int| i <= x < j ==> #[trigger] self.data@[x] > pivot,
                old(self).ticks@.len() >= 1,
                is_non_decreasing(old(self).ticks@[0].snapshot.data) ==> i == j,
                plan == old(self).partition_plan(start, end),
                all == shown_by(old(self).ticks@) + plan.3,
                partition_rest(
                    self.data@,
                    self.count.spec_value() as nat,
                    pivot,
                    i as int,
                    j as int,
                    end - 1,
                ).0 == plan.0,
                partition_rest(
                    self.data@,
                    self.count.spec_value() as nat,
                    pivot,
                    i as int,
                    j as int,
                    end - 1,
                ).1 == plan.1,
                partition_rest(
                    self.data@,
                    self.count.spec_value() as nat,
                    pivot,
                    i as int,
                    j as int,
                    end - 1,
                ).2 == plan.2,
                shown_by(self.ticks@) + partition_rest(
                    self.data@,
                    self.count.spec_value() as nat,
                    pivot,
                    i as int,
                    j as int,
                    end - 1,
                ).3 == all,
                self.shown(),
                self.sort == SortType::Quick,
                self.follows(old(self)),
                self.count.spec_value() == old(self).count.spec_value() + (i - start),
                self.ticks@.len() == old(self).ticks@.len() + (i - start),
                old(self).count.spec_value() + (end - start) <= usize::MAX,
                same_outside(old(self).data@, self.data@, start as int, end as int),
                same_items(
                    self.data@.subrange(start as int, end as int),
                    old(self).data@.subrange(start as int, end as int),
                ),
            decreases end - 1 - j,
        {
            proof {
                self.lemma_same_start(old(self));
                if is_non_decreasing(self.ticks@[0].snapshot.data) {
                    lemma_non_decreasing_orders_all_pairs(self.data@);
                    assert(self.data@[j as int] <= self.data@[end - 1]);
                }
            }
            let ghost ahead = partition_rest(
                self.data@,
                self.count.spec_value() as nat,
                pivot,
                i as int,
                j as int,
                end - 1,
            );
            let ghost shown = shown_by(self.ticks@);
            if self.data[j] <= pivot {
                let ghost before = *self;
                let r = self.counted_exchange(i, j);
                proof {
                    Self::lemma_follows_on(old(self), &before, self);
                    lemma_swap_within(before.data@, start as int, end as int, i as int, j as int);
                    let next = partition_rest(
                        self.data@,
                        self.count.spec_value() as nat,
                        pivot,
                        i as int + 1,
                        j as int + 1,
                        end - 1,
                    );
                    assert(ahead == (next.0, next.1, next.2, seq![self.state()] + next.3));
                    assert(shown_by(self.ticks@) + next.3 =~= shown + ahead.3);
                    lemma_begins(shown_by(self.ticks@), next.3);
                }
                match r {
                    Ok(()) => {},
                    Err(e) => {
                        return Err(e);
                    },
                }
                i += 1;
            }
            j += 1;
        }

        proof {
            self.lemma_same_start(old(self));
        }
        let ghost before = *self;
        let ghost ahead = partition_rest(
            self.data@,
            self.count.spec_value() as nat,
            pivot,
            i as int,
            j as int,
            end - 1,
        );
        let ghost shown = shown_by(self.ticks@);
        let r = self.counted_exchange(i, end - 1);
        proof {
            Self::lemma_follows_on(old(self), &before, self);
            lemma_swap_within(before.data@, start as int, end as int, i as int, end - 1);
            assert(ahead.3 == seq![self.state()]);
            assert(shown_by(self.ticks@) =~= shown + ahead.3);
            lemma_begins(shown_by(self.ticks@), Seq::empty());
            assert(shown_by(self.ticks@) + Seq::empty() =~= all);
        }
        match r {
            Ok(()) => {},
            Err(e) => {
                return Err(e);
            },
        }
        Ok(i)
    }
}

} // verus!
