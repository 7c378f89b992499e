//! Merge sort: top-down, splitting each range at its midpoint and ticking
//! once per value written back while two sorted halves are merged.

use vstd::prelude::*;
use vstd::multiset::lemma_multiset_empty_len;
use vstd::seq_lib::{lemma_multiset_commutative, to_multiset_build, to_multiset_len};
use crate::args::MAX_QUANTITY;
use crate::cost::{lemma_merge_writes_bound, merge_writes};
use crate::error::Error;
use crate::renderer::Renderer;
use crate::script::{
    lemma_begins, lemma_begins_longer, merge_rest, merge_sort_rest, shown_by, Shown,
};
use crate::sequence::{
    is_non_decreasing, lemma_all_pairs_ordered_is_non_decreasing,
    lemma_non_decreasing_orders_all_pairs, lemma_stretch_within, ordered_between, same_items,
    same_outside,
};
use crate::sort::Sort;
use crate::sort_type::SortType;
use crate::trace::operation;

verus! {

/// The state of a merge of `first` and `second` into `data[left..]` after
/// `i` values of `first` and `j` of `second` were written: what was written
/// is in order, holds exactly those values, and none of it is larger than
/// anything still to come.
spec fn merged_so_far(
    data: Seq<u64>,
    left: int,
    first: Seq<u64>,
    second: Seq<u64>,
    i: int,
    j: int,
) -> bool {
    let k = left + i + j;
    &&& 0 <= i <= first.len()
    &&& 0 <= j <= second.len()
    &&& 0 <= left
    &&& left + first.len() + second.len() <= data.len()
    &&& ordered_between(data, left, k)
    &&& data.subrange(left, k).to_multiset() == first.subrange(0, i).to_multiset().add(
        second.subrange(0, j).to_multiset(),
    )
    &&& forall|x: int, y: int| left <= x < k && i <= y < first.len() ==> #[trigger] data[x] <= #[trigger] first[y]
    &&& forall|x: int, y: int|
        left <= x < k && j <= y < second.len() ==> #[trigger] data[x] <= #[trigger] second[y]
}

/// A merge that has written nothing is in the state [`merged_so_far`].
proof fn lemma_merge_start(data: Seq<u64>, left: int, first: Seq<u64>, second: Seq<u64>)
    requires
        0 <= left,
        left + first.len() + second.len() <= data.len(),
    ensures
        merged_so_far(data, left, first, second, 0, 0),
{
    broadcast use vstd::multiset::group_multiset_axioms;

    let written = data.subrange(left, left).to_multiset();
    let from_first = first.subrange(0, 0).to_multiset();
    let from_second = second.subrange(0, 0).to_multiset();
    to_multiset_len(data.subrange(left, left));
    to_multiset_len(first.subrange(0, 0));
    to_multiset_len(second.subrange(0, 0));
    lemma_multiset_empty_len(written);
    lemma_multiset_empty_len(from_first);
    lemma_multiset_empty_len(from_second);
    assert(written =~= from_first.add(from_second));
}

/// Writing the next value of `first` keeps a merge in the state [`merged_so_far`].
proof fn lemma_take_first(
    data: Seq<u64>,
    left: int,
    first: Seq<u64>,
    second: Seq<u64>,
    i: int,
    j: int,
)
    requires
        merged_so_far(data, left, first, second, i, j),
        i < first.len(),
        ordered_between(first, 0, first.len() as int),
        j < second.len() ==> first[i] <= second[j],
        ordered_between(second, 0, second.len() as int),
    ensures
        merged_so_far(data.update(left + i + j, first[i]), left, first, second, i + 1, j),
{
    let k = left + i + j;
    let after = data.update(k, first[i]);
    assert(after.subrange(left, k + 1) =~= data.subrange(left, k).push(first[i]));
    assert(first.subrange(0, i + 1) =~= first.subrange(0, i).push(first[i]));
    to_multiset_build(data.subrange(left, k), first[i]);
    to_multiset_build(first.subrange(0, i), first[i]);
    assert(after.subrange(left, k + 1).to_multiset() =~= first.subrange(0, i + 1).to_multiset().add(
        second.subrange(0, j).to_multiset(),
    ));
    assert forall|x: int, y: int| left <= x <= y < k + 1 implies #[trigger] after[x] <= #[trigger] after[y] by {
        if y == k && x < k {
            assert(data[x] <= first[i]);
        }
    }
    assert forall|x: int, y: int| left <= x < k + 1 && i + 1 <= y < first.len() implies #[trigger] after[x]
        <= #[trigger] first[y] by {
        if x == k {
            assert(first[i] <= first[y]);
        } else {
            assert(data[x] <= first[y]);
        }
    }
    assert forall|x: int, y: int| left <= x < k + 1 && j <= y < second.len() implies #[trigger] after[x]
        <= #[trigger] second[y] by {
        if x == k {
            assert(second[j] <= second[y]);
        } else {
            assert(data[x] <= second[y]);
        }
    }
}

/// Writing the next value of `second` keeps a merge in the state [`merged_so_far`].
proof fn lemma_take_second(
    data: Seq<u64>,
    left: int,
    first: Seq<u64>,
    second: Seq<u64>,
    i: int,
    j: int,
)
    requires
        merged_so_far(data, left, first, second, i, j),
        j < second.len(),
        ordered_between(first, 0, first.len() as int),
        i < first.len() ==> second[j] <= first[i],
        ordered_between(second, 0, second.len() as int),
    ensures
        merged_so_far(data.update(left + i + j, second[j]), left, first, second, i, j + 1),
{
    let k = left + i + j;
    let after = data.update(k, second[j]);
    assert(after.subrange(left, k + 1) =~= data.subrange(left, k).push(second[j]));
    assert(second.subrange(0, j + 1) =~= second.subrange(0, j).push(second[j]));
    to_multiset_build(data.subrange(left, k), second[j]);
    to_multiset_build(second.subrange(0, j), second[j]);
    assert(after.subrange(left, k + 1).to_multiset() =~= first.subrange(0, i).to_multiset().add(
        second.subrange(0, j + 1).to_multiset(),
    ));
    assert forall|x: int, y: int| left <= x <= y < k + 1 implies #[trigger] after[x] <= #[trigger] after[y] by {
        if y == k && x < k {
            assert(data[x] <= second[j]);
        }
    }
    assert forall|x: int, y: int| left <= x < k + 1 && i <= y < first.len() implies #[trigger] after[x]
        <= #[trigger] first[y] by {
        if x == k {
            assert(first[i] <= first[y]);
        } else {
            assert(data[x] <= first[y]);
        }
    }
    assert forall|x: int, y: int| left <= x < k + 1 && j + 1 <= y < second.len() implies #[trigger] after[x]
        <= #[trigger] second[y] by {
        if x == k {
            assert(second[j] <= second[y]);
        } else {
            assert(data[x] <= second[y]);
        }
    }
}

/// A merge that has written every value of both halves has sorted the range
/// and rearranged nothing but the range.
proof fn lemma_merge_done(
    entry: Seq<u64>,
    data: Seq<u64>,
    left: int,
    mid: int,
    right: int,
)
    requires
        0 <= left <= mid <= right <= entry.len(),
        same_outside(entry, data, left, right),
        merged_so_far(
            data,
            left,
            entry.subrange(left, mid),
            entry.subrange(mid, right),
            mid - left,
            right - mid,
        ),
    ensures
        ordered_between(data, left, right),
        same_items(data.subrange(left, right), entry.subrange(left, right)),
{
    let first = entry.subrange(left, mid);
    let second = entry.subrange(mid, right);
    assert(first.subrange(0, mid - left) =~= first);
    assert(second.subrange(0, right - mid) =~= second);
    assert(entry.subrange(left, right) =~= first + second);
    lemma_multiset_commutative(first, second);
}

impl<'a, R: Renderer> Sort<'a, R> {
    /// A copy of the values in `data[lo..hi]`.
    fn copy_range(&self, lo: usize, hi: usize) -> (v: Vec<u64>)
        requires
            lo <= hi <= self.data@.len(),
        ensures
            v@ == self.data@.subrange(lo as int, hi as int),
    {
        let mut v: Vec<u64> = Vec::new();
        let mut k: usize = lo;
        while k < hi
            invariant
                lo <= k <= hi <= self.data@.len(),
                v@ == self.data@.subrange(lo as int, k as int),
            decreases hi - k,
        {
            v.push(self.data[k]);
            k += 1;
            assert(v@ =~= self.data@.subrange(lo as int, k as int));
        }
        v
    }

    /// Writes `value` at `k`, counts the write and ticks.
    fn write_back(&mut self, k: usize, value: u64) -> (r: Result<(), Error>)
        requires
            old(self).shown(),
            old(self).sort == SortType::Merge,
            k < old(self).data@.len(),
            old(self).count.spec_value() < usize::MAX,
            is_non_decreasing(old(self).ticks@[0].snapshot.data) ==> value
                == old(self).data@[k as int],
        ensures
            final(self).follows(old(self)),
            final(self).data@ == old(self).data@.update(k as int, value),
            final(self).count.spec_value() == old(self).count.spec_value() + 1,
            final(self).ticks@.len() == old(self).ticks@.len() + 1,
            shown_by(final(self).ticks@) == shown_by(old(self).ticks@).push(final(self).state()),
            r is Ok ==> final(self).shown(),
            r is Err ==> final(self).halted(r),
    {
        let ghost before = self.data@;
        self.data[k] = value;
        self.tally();
        proof {
            assert(self.data@ == before.update(k as int, value));
            assert(operation(SortType::Merge, before, self.data@));
            if value == before[k as int] {
                assert(self.data@ =~= before);
            }
        }
        let ghost mid = *self;
        let r = self.step_tick();
        proof {
            Self::lemma_follows_on(old(self), &mid, self);
        }
        r
    }

    /// Sorts by merge sort.
    pub(super) fn merge_sort(&mut self) -> (r: Result<(), Error>)
        requires
            old(self).shown(),
            old(self).sort == SortType::Merge,
            old(self).count.spec_value() == 0,
        ensures
            final(self).follows(old(self)),
            r is Ok ==> {
                &&& final(self).shown()
                &&& is_non_decreasing(final(self).data@)
                &&& same_items(final(self).data@, old(self).data@)
                &&& final(self).count.spec_value() == merge_writes(old(self).data@.len())
                &&& final(self).shows_since(
                    old(self),
                    merge_sort_rest(old(self).data@, 0, 0, old(self).data@.len() as int).2,
                )
            },
            r is Err ==> {
                &&& final(self).halted(r)
                &&& final(self).showing_since(
                    old(self),
                    merge_sort_rest(old(self).data@, 0, 0, old(self).data@.len() as int).2,
                )
            },
    {
        let n = self.data.len();
        proof {
            lemma_merge_writes_bound(n as nat);
            assert(n * n <= MAX_QUANTITY * MAX_QUANTITY) by (nonlinear_arith)
                requires
                    n <= MAX_QUANTITY,
            ;
        }
        let r = self.merge_sort_helper(0, n);
        proof {
            if r is Ok {
                assert(self.data@.subrange(0, n as int) =~= self.data@);
                assert(old(self).data@.subrange(0, n as int) =~= old(self).data@);
                lemma_all_pairs_ordered_is_non_decreasing(self.data@);
            }
        }
        r
    }

    /// Sorts `data[left..right]` by merge sort.
    fn merge_sort_helper(&mut self, left: usize, right: usize) -> (r: Result<(), Error>)
        requires
            old(self).shown(),
            old(self).sort == SortType::Merge,
            left <= right <= old(self).data@.len(),
            old(self).count.spec_value() + merge_writes((right - left) as nat) <= usize::MAX,
        ensures
            final(self).follows(old(self)),
            r is Ok ==> {
                &&& final(self).shown()
                &&& final(self).count.spec_value() == old(self).count.spec_value() + merge_writes(
                    (right - left) as nat,
                )
                &&& same_outside(old(self).data@, final(self).data@, left as int, right as int)
                &&& ordered_between(final(self).data@, left as int, right as int)
                &&& same_items(
                    final(self).data@.subrange(left as int, right as int),
                    old(self).data@.subrange(left as int, right as int),
                )
                &&& final(self).data@ == old(self).merge_sort_plan(left, right).0
                &&& final(self).count.spec_value() == old(self).merge_sort_plan(left, right).1
                &&& final(self).shows_since(old(self), old(self).merge_sort_plan(left, right).2)
            },
            r is Err ==> {
                &&& final(self).halted(r)
                &&& final(self).showing_since(old(self), old(self).merge_sort_plan(left, right).2)
            },
        decreases right - left,
    {
        let ghost plan = self.merge_sort_plan(left, right);
        let ghost shown = shown_by(self.ticks@);
        if right - left > 1 {
            let mid: usize = left + (right - left) / 2;
            let ghost entry = self.data@;
            let ghost low = self.merge_sort_plan(left, mid);

            let r = self.merge_sort_helper(left, mid);
            if r.is_err() {
                proof {
                    assert(plan.2 == low.2 + (plan.2.subrange(low.2.len() as int, plan.2.len() as int)));
                    lemma_begins_longer(
                        shown_by(self.ticks@),
                        shown + low.2,
                        plan.2.subrange(low.2.len() as int, plan.2.len() as int),
                    );
                    assert((shown + low.2) + plan.2.subrange(
                        low.2.len() as int,
                        plan.2.len() as int,
                    ) =~= shown + plan.2);
                }
                return r;
            }
            let ghost one = *self;
            let ghost high = self.merge_sort_plan(mid, right);
            proof {
                lemma_stretch_within(
                    entry,
                    one.data@,
                    left as int,
                    mid as int,
                    left as int,
                    right as int,
                );
            }

            let r = self.merge_sort_helper(mid, right);
            proof {
                Self::lemma_follows_on(old(self), &one, self);
            }
            if r.is_err() {
                proof {
                    let after = plan.2.subrange((low.2 + high.2).len() as int, plan.2.len() as int);
                    assert(plan.2 =~= (low.2 + high.2) + after);
                    lemma_begins_longer(shown_by(self.ticks@), (shown + low.2) + high.2, after);
                    assert(((shown + low.2) + high.2) + after =~= shown + plan.2);
                }
                return r;
            }
            let ghost two = *self;
            let ghost merging = self.merge_plan(left, mid, right);
            proof {
                lemma_stretch_within(
                    one.data@,
                    two.data@,
                    mid as int,
                    right as int,
                    left as int,
                    right as int,
                );
                assert forall|x: int, y: int| left <= x <= y < mid implies #[trigger] two.data@[x]
                    <= #[trigger] two.data@[y] by {
                    assert(two.data@[x] == one.data@[x]);
                    assert(two.data@[y] == one.data@[y]);
                }
            }

            let r = self.merge(left, mid, right);
            proof {
                Self::lemma_follows_on(old(self), &two, self);
                assert(plan.2 == (low.2 + high.2) + merging.1);
                assert(((shown + low.2) + high.2) + merging.1 =~= shown + plan.2);
            }
            if r.is_err() {
                return r;
            }
            proof {
                let m = (right - left) as nat;
                assert((mid - left) as nat == m / 2);
                assert((right - mid) as nat == (m - m / 2) as nat);
                assert(self.count.spec_value() == old(self).count.spec_value() + merge_writes(m));
                assert forall|x: int|
                    0 <= x < entry.len() && !(left <= x < right) implies #[trigger] entry[x]
                    == #[trigger] self.data@[x] by {
                    assert(entry[x] == one.data@[x]);
                    assert(one.data@[x] == two.data@[x]);
                }
                assert(same_outside(entry, self.data@, left as int, right as int));
                assert(same_items(
                    self.data@.subrange(left as int, right as int),
                    entry.subrange(left as int, right as int),
                ));
            }
        } else {
            proof {
                assert(shown + plan.2 =~= shown);
            }
        }
        Ok(())
    }

    /// What merge sort of `data[left..right]` goes on to show from here,
    /// the data it leaves and the count it arrives at.
    spec fn merge_sort_plan(&self, left: usize, right: usize) -> (Seq<u64>, nat, Seq<Shown>) {
        merge_sort_rest(self.data@, self.count.spec_value() as nat, left as int, right as int)
    }

    /// What the merge of `data[left..mid]` and `data[mid..right]` goes on to
    /// show from here, and the data it leaves.
    spec fn merge_plan(&self, left: usize, mid: usize, right: usize) -> (Seq<u64>, Seq<Shown>) {
        merge_rest(
            self.data@,
            self.count.spec_value() as nat,
            self.data@.subrange(left as int, mid as int),
            self.data@.subrange(mid as int, right as int),
            0,
            0,
            left as int,
        )
    }

    /// Merges the sorted `data[left..mid]` and `data[mid..right]` into a
    /// sorted `data[left..right]`, one value written, counted and shown at a
    /// time from the left. Where a tick is refused, the values written are
    /// as many as the ticks of this merge, and nothing after them or outside
    /// the range has been touched.
    fn merge(&mut self, left: usize, mid: usize, right: usize) -> (r: Result<(), Error>)
        requires
            old(self).shown(),
            old(self).sort == SortType::Merge,
            left <= mid <= right <= old(self).data@.len(),
            ordered_between(old(self).data@, left as int, mid as int),
            ordered_between(old(self).data@, mid as int, right as int),
            old(self).count.spec_value() + (right - left) <= usize::MAX,
        ensures
            final(self).follows(old(self)),
            r is Ok ==> {
                &&& final(self).shown()
                &&& final(self).count.spec_value() == old(self).count.spec_value() + (right - left)
                &&& same_outside(old(self).data@, final(self).data@, left as int, right as int)
                &&& ordered_between(final(self).data@, left as int, right as int)
                &&& same_items(
                    final(self).data@.subrange(left as int, right as int),
                    old(self).data@.subrange(left as int, right as int),
                )
            },
            r is Ok ==> {
                &&& final(self).data@ == old(self).merge_plan(left, mid, right).0
                &&& final(self).shows_since(old(self), old(self).merge_plan(left, mid, right).1)
            },
            r is Err ==> final(self).showing_since(
                old(self),
                old(self).merge_plan(left, mid, right).1,
            ),
            r is Err ==> {
                &&& final(self).halted(r)
                &&& 1 <= final(self).ticks@.len() - old(self).ticks@.len() <= right - left
                &&& final(self).counted_since(old(self)) == final(self).ticks@.len() - old(self).ticks@.len()
                &&& same_outside(
                    old(self).data@,
                    final(self).data@,
                    left as int,
                    left + (final(self).ticks@.len() - old(self).ticks@.len()),
                )
            },
    {
        let left_data: Vec<u64> = self.copy_range(left, mid);
        let right_data: Vec<u64> = self.copy_range(mid, right);
        let ghost plan = self.merge_plan(left, mid, right);
        let ghost all = shown_by(self.ticks@) + plan.1;

        let mut i: usize = 0;
        let mut j: usize = 0;
        let mut k: usize = left;

        proof {
            lemma_merge_start(self.data@, left as int, left_data@, right_data@);
        }

        while i < left_data.len() && j < right_data.len()
            invariant
                left <= mid <= right <= self.data@.len(),
                left_data@ == old(self).data@.subrange(left as int, mid as int),
                right_data@ == old(self).data@.subrange(mid as int, right as int),
                ordered_between(left_data@, 0, left_data@.len() as int),
                ordered_between(right_data@, 0, right_data@.len() as int),
                k == left + i + j,
                self.shown(),
                self.sort == SortType::Merge,
                self.follows(old(self)),
                self.count.spec_value() == old(self).count.spec_value() + (k - left),
                self.ticks@.len() == old(self).ticks@.len() + (k - left),
                k <= right,
                merge_rest(
                    self.data@,
                    self.count.spec_value() as nat,
                    left_data@,
                    right_data@,
                    i as int,
                    j as int,
                    k as int,
                ).0 == plan.0,
                shown_by(self.ticks@) + merge_rest(
                    self.data@,
                    self.count.spec_value() as nat,
                    left_data@,
                    right_data@,
                    i as int,
                    j as int,
                    k as int,
                ).1 == all,
                all == shown_by(old(self).ticks@) + old(self).merge_plan(left, mid, right).1,
                plan == old(self).merge_plan(left, mid, right),
                old(self).count.spec_value() + (right - left) <= usize::MAX,
                same_outside(old(self).data@, self.data@, left as int, k as int),
                merged_so_far(self.data@, left as int, left_data@, right_data@, i as int, j as int),
                old(self).ticks@.len() >= 1,
                is_non_decreasing(old(self).ticks@[0].snapshot.data) ==> j == 0,
            decreases left_data@.len() - i + right_data@.len() - j,
        {
            let ghost ahead = merge_rest(
                self.data@,
                self.count.spec_value() as nat,
                left_data@,
                right_data@,
                i as int,
                j as int,
                k as int,
            );
            let ghost shown = shown_by(self.ticks@);
            let ghost before = *self;
            proof {
                self.lemma_same_start(old(self));
                if is_non_decreasing(self.ticks@[0].snapshot.data) {
                    lemma_non_decreasing_orders_all_pairs(self.data@);
                    assert(self.data@[left + i] <= self.data@[mid + j]);
                }
            }
            let value: u64;
            if left_data[i] <= right_data[j] {
                value = left_data[i];
                proof {
                    lemma_take_first(
                        self.data@,
                        left as int,
                        left_data@,
                        right_data@,
                        i as int,
                        j as int,
                    );
                }
                i += 1;
            } else {
                value = right_data[j];
                proof {
                    lemma_take_second(
                        self.data@,
                        left as int,
                        left_data@,
                        right_data@,
                        i as int,
                        j as int,
                    );
                }
                j += 1;
            }
            let r = self.write_back(k, value);
            k += 1;
            proof {
                Self::lemma_follows_on(old(self), &before, self);
                let next = merge_rest(
                    self.data@,
                    self.count.spec_value() as nat,
                    left_data@,
                    right_data@,
                    i as int,
                    j as int,
                    k as int,
                );
                assert(ahead == (next.0, seq![self.state()] + next.1));
                assert(shown_by(self.ticks@) + next.1 =~= shown + ahead.1);
                lemma_begins(shown_by(self.ticks@), next.1);
            }
            if r.is_err() {
                return r;
            }
        }

        while i < left_data.len()
            invariant
                left <= mid <= right <= self.data@.len(),
                left_data@ == old(self).data@.subrange(left as int, mid as int),
                right_data@ == old(self).data@.subrange(mid as int, right as int),
                ordered_between(left_data@, 0, left_data@.len() as int),
                ordered_between(right_data@, 0, right_data@.len() as int),
                k == left + i + j,
                i <= left_data@.len(),
                j <= right_data@.len(),
                self.shown(),
                self.sort == SortType::Merge,
                self.follows(old(self)),
                self.count.spec_value() == old(self).count.spec_value() + (k - left),
                self.ticks@.len() == old(self).ticks@.len() + (k - left),
                k <= right,
                merge_rest(
                    self.data@,
                    self.count.spec_value() as nat,
                    left_data@,
                    right_data@,
                    i as int,
                    j as int,
                    k as int,
                ).0 == plan.0,
                shown_by(self.ticks@) + merge_rest(
                    self.data@,
                    self.count.spec_value() as nat,
                    left_data@,
                    right_data@,
                    i as int,
                    j as int,
                    k as int,
                ).1 == all,
                all == shown_by(old(self).ticks@) + old(self).merge_plan(left, mid, right).1,
                plan == old(self).merge_plan(left, mid, right),
                old(self).count.spec_value() + (right - left) <= usize::MAX,
                same_outside(old(self).data@, self.data@, left as int, k as int),
                merged_so_far(self.data@, left as int, left_data@, right_data@, i as int, j as int),
                j < right_data@.len() ==> i == left_data@.len(),
                old(self).ticks@.len() >= 1,
                is_non_decreasing(old(self).ticks@[0].snapshot.data) ==> j == 0,
            decreases left_data@.len() - i,
        {
            let ghost ahead = merge_rest(
                self.data@,
                self.count.spec_value() as nat,
                left_data@,
                right_data@,
                i as int,
                j as int,
                k as int,
            );
            let ghost shown = shown_by(self.ticks@);
            let ghost before = *self;
            proof {
                self.lemma_same_start(old(self));
            }
            let value = left_data[i];
            proof {
                lemma_take_first(
                    self.data@,
                    left as int,
                    left_data@,
                    right_data@,
                    i as int,
                    j as int,
                );
            }
            i += 1;
            let r = self.write_back(k, value);
            k += 1;
            proof {
                Self::lemma_follows_on(old(self), &before, self);
                let next = merge_rest(
                    self.data@,
                    self.count.spec_value() as nat,
                    left_data@,
                    right_data@,
                    i as int,
                    j as int,
                    k as int,
                );
                assert(ahead == (next.0, seq![self.state()] + next.1));
                assert(shown_by(self.ticks@) + next.1 =~= shown + ahead.1);
                lemma_begins(shown_by(self.ticks@), next.1);
            }
            if r.is_err() {
                return r;
            }
        }

        while j < right_data.len()
            invariant
                left <= mid <= right <= self.data@.len(),
                left_data@ == old(self).data@.subrange(left as int, mid as int),
                right_data@ == old(self).data@.subrange(mid as int, right as int),
                ordered_between(left_data@, 0, left_data@.len() as int),
                ordered_between(right_data@, 0, right_data@.len() as int),
                k == left + i + j,
                i == left_data@.len(),
                j <= right_data@.len(),
                old(self).ticks@.len() >= 1,
                self.shown(),
                self.sort == SortType::Merge,
                self.follows(old(self)),
                self.count.spec_value() == old(self).count.spec_value() + (k - left),
                self.ticks@.len() == old(self).ticks@.len() + (k - left),
                k <= right,
                merge_rest(
                    self.data@,
                    self.count.spec_value() as nat,
                    left_data@,
                    right_data@,
                    i as int,
                    j as int,
                    k as int,
                ).0 == plan.0,
                shown_by(self.ticks@) + merge_rest(
                    self.data@,
                    self.count.spec_value() as nat,
                    left_data@,
                    right_data@,
                    i as int,
                    j as int,
                    k as int,
                ).1 == all,
                all == shown_by(old(self).ticks@) + old(self).merge_plan(left, mid, right).1,
                plan == old(self).merge_plan(left, mid, right),
                old(self).count.spec_value() + (right - left) <= usize::MAX,
                same_outside(old(self).data@, self.data@, left as int, k as int),
                merged_so_far(self.data@, left as int, left_data@, right_data@, i as int, j as int),
            decreases right_data@.len() - j,
        {
            let ghost ahead = merge_rest(
                self.data@,
                self.count.spec_value() as nat,
                left_data@,
                right_data@,
                i as int,
                j as int,
                k as int,
            );
            let ghost shown = shown_by(self.ticks@);
            let ghost before = *self;
            proof {
                self.lemma_same_start(old(self));
            }
            let value = right_data[j];
            proof {
                lemma_take_second(
                    self.data@,
                    left as int,
                    left_data@,
                    right_data@,
                    i as int,
                    j as int,
                );
            }
            j += 1;
            let r = self.write_back(k, value);
            k += 1;
            proof {
                Self::lemma_follows_on(old(self), &before, self);
                let next = merge_rest(
                    self.data@,
                    self.count.spec_value() as nat,
                    left_data@,
                    right_data@,
                    i as int,
                    j as int,
                    k as int,
                );
                assert(ahead == (next.0, seq![self.state()] + next.1));
                assert(shown_by(self.ticks@) + next.1 =~= shown + ahead.1);
                lemma_begins(shown_by(self.ticks@), next.1);
            }
            if r.is_err() {
                return r;
            }
        }

        proof {
            lemma_merge_done(old(self).data@, self.data@, left as int, mid as int, right as int);
            assert(shown_by(self.ticks@) =~= all);
        }
        Ok(())
    }
}

} // verus!
