//! Insertion sort: each value in turn is lifted out as the key, the larger
//! values before it move one place to the right, ticking once per move, and
//! the key is written into the gap.

use vstd::prelude::*;
use vstd::seq_lib::{to_multiset_insert, to_multiset_remove};
use crate::args::MAX_QUANTITY;
use crate::cost::{inversions, lemma_adjacent_swap_inversions, lemma_ordered_has_no_inversions};
use crate::error::Error;
use crate::renderer::Renderer;
use crate::script::{insertion_rest, lemma_begins, shown_by};
use crate::sequence::{
    adjacent_swap, is_non_decreasing, lemma_all_pairs_ordered_is_non_decreasing,
    lemma_short_is_non_decreasing, ordered_between, same_items, shift_right,
};
use crate::sort::Sort;
use crate::sort_type::SortType;
use crate::trace::{operation, settled};

verus! {

/// `data` is `base` while its value at `i` is being inserted into the sorted
/// `base[..i]` and the gap has reached `j`: the values from `j` to `i - 1`
/// of `base`, all larger than the key, stand one place to the right, and
/// the value at `j` has not been overwritten yet.
spec fn gap_at(base: Seq<u64>, data: Seq<u64>, i: int, j: int) -> bool {
    &&& 0 <= j <= i < base.len()
    &&& data.len() == base.len()
    &&& forall|x: int| 0 <= x <= j ==> #[trigger] data[x] == base[x]
    &&& forall|x: int| j < x <= i ==> #[trigger] data[x] == base[x - 1]
    &&& forall|x: int| i < x < base.len() ==> #[trigger] data[x] == base[x]
    &&& forall|x: int| j <= x < i ==> #[trigger] base[x] > base[i]
}

/// Writing the key into the gap completes the insertion: one more value is
/// in order and nothing was lost.
proof fn lemma_key_placed(base: Seq<u64>, data: Seq<u64>, i: int, j: int)
    requires
        gap_at(base, data, i, j),
        ordered_between(base, 0, i),
        j > 0 ==> base[j - 1] <= base[i],
    ensures
        ordered_between(data.update(j, base[i]), 0, i + 1),
        same_items(data.update(j, base[i]), base),
{
    let key = base[i];
    let placed = data.update(j, key);
    assert forall|x: int, y: int| 0 <= x <= y < i + 1 implies #[trigger] placed[x] <= #[trigger] placed[y] by {
        if x < j && y == j {
            assert(base[x] <= base[j - 1]);
        } else if x < j && y > j {
            assert(base[x] <= base[y - 1]);
        } else if x == j && y > j {
            assert(base[y - 1] > key);
        } else if x > j {
            assert(base[x - 1] <= base[y - 1]);
        }
    }
    assert(placed =~= base.remove(i).insert(j, key));
    to_multiset_remove(base, i);
    to_multiset_insert(base.remove(i), j, key);
    base.to_multiset_ensures();
    assert(placed.to_multiset() =~= base.to_multiset());
}

/// After a key may have been placed, moving a value one place to the right
/// is one operation of insertion sort.
proof fn lemma_shift_is_operation(shown: Seq<u64>, data: Seq<u64>, j: int)
    requires
        settled(SortType::Insertion, shown, data),
        0 < j < data.len(),
    ensures
        operation(SortType::Insertion, shown, shift_right(data, j)),
{
    if data == shown {
        assert(shown.update(0, shown[0]) =~= shown);
        assert(shift_right(data, j) == shift_right(shown.update(0, shown[0]), j));
    } else {
        let (p, v) = choose|p: int, v: u64| 0 <= p < shown.len() && data == #[trigger] shown.update(p, v);
        assert(shift_right(data, j) == shift_right(shown.update(p, v), j));
    }
}

/// Writing the key into the gap leaves the state settled: after a shift the
/// last tick shows the data as it stands, and before any shift the key goes
/// back to where it was taken from.
proof fn lemma_placement_settles(shown: Seq<u64>, data: Seq<u64>, j: int, key: u64, shifted: bool)
    requires
        0 <= j < data.len(),
        shifted ==> data == shown,
        !shifted ==> settled(SortType::Insertion, shown, data) && data[j] == key,
    ensures
        settled(SortType::Insertion, shown, data.update(j, key)),
{
    if shifted {
        assert(data.update(j, key) == shown.update(j, key));
    } else {
        assert(data.update(j, key) =~= data);
    }
}

impl<'a, R: Renderer> Sort<'a, R> {
    /// Sorts by insertion sort.
    pub(super) fn insertion_sort(&mut self) -> (r: Result<(), Error>)
        requires
            old(self).shown(),
            old(self).sort == SortType::Insertion,
            old(self).count.spec_value() == 0,
        ensures
            final(self).follows(old(self)),
            r is Ok ==> {
                &&& final(self).live()
                &&& is_non_decreasing(final(self).data@)
                &&& same_items(final(self).data@, old(self).data@)
                &&& final(self).count.spec_value() == inversions(old(self).data@)
                &&& final(self).shows_since(
                    old(self),
                    insertion_rest(old(self).data@, 0, 1, 1, old(self).data@[1]),
                )
            },
            r is Err ==> {
                &&& final(self).halted(r)
                &&& final(self).showing_since(
                    old(self),
                    insertion_rest(old(self).data@, 0, 1, 1, old(self).data@[1]),
                )
            },
    {
        let n = self.data.len();
        let ghost all = shown_by(self.ticks@) + insertion_rest(
            self.data@,
            0,
            1,
            1,
            self.data@[1],
        );
        if n < 2 {
            proof {
                lemma_short_is_non_decreasing(self.data@);
                lemma_ordered_has_no_inversions(self.data@);
                assert(all =~= shown_by(self.ticks@));
            }
            return Ok(());
        }
        let mut i: usize = 1;
        while i < n
            invariant
                n == self.data@.len(),
                2 <= n <= MAX_QUANTITY,
                1 <= i <= n,
                self.live(),
                self.sort == SortType::Insertion,
                self.follows(old(self)),
                same_items(self.data@, old(self).data@),
                ordered_between(self.data@, 0, i as int),
                self.count.spec_value() <= (i - 1) * MAX_QUANTITY,
                self.count.spec_value() + inversions(self.data@) == inversions(old(self).data@),
                old(self).ticks@.len() >= 1,
                all == shown_by(old(self).ticks@) + insertion_rest(
                    old(self).data@,
                    0,
                    1,
                    1,
                    old(self).data@[1],
                ),
                shown_by(self.ticks@) + insertion_rest(
                    self.data@,
                    self.count.spec_value() as nat,
                    i as int,
                    i as int,
                    self.data@[i as int],
                ) == all,
            decreases n - i,
        {
            let key = self.data[i];
            let mut j: usize = i;
            let ghost base = self.data@;
            // Whether a value has moved, and has been shown, since the key was taken.
            let ghost mut shifted = false;
            proof {
                assert(self.data@.update(i as int, key) =~= self.data@);
            }

            while j > 0 && self.data[j - 1] > key
                invariant
                    n == self.data@.len(),
                    2 <= n <= MAX_QUANTITY,
                    1 <= i < n,
                    j <= i,
                    key == base[i as int],
                    gap_at(base, self.data@, i as int, j as int),
                    ordered_between(base, 0, i as int),
                    same_items(base, old(self).data@),
                    self.live(),
                    shifted ==> self.shown(),
                    !shifted ==> j == i,
                    old(self).ticks@.len() >= 1,
                    is_non_decreasing(old(self).ticks@[0].snapshot.data) ==> !shifted,
                    self.sort == SortType::Insertion,
                    self.follows(old(self)),
                    self.count.spec_value() <= (i - 1) * MAX_QUANTITY + (i - j),
                    self.count.spec_value() + inversions(self.data@.update(j as int, key))
                        == inversions(old(self).data@),
                    all == shown_by(old(self).ticks@) + insertion_rest(
                        old(self).data@,
                        0,
                        1,
                        1,
                        old(self).data@[1],
                    ),
                    shown_by(self.ticks@) + insertion_rest(
                        self.data@,
                        self.count.spec_value() as nat,
                        i as int,
                        j as int,
                        key,
                    ) == all,
                decreases j,
            {
                let ghost ahead = insertion_rest(
                    self.data@,
                    self.count.spec_value() as nat,
                    i as int,
                    j as int,
                    key,
                );
                let ghost shown = shown_by(self.ticks@);
                let ghost before = *self;
                proof {
                    // Data that began in order holds no larger value before the key.
                    self.lemma_same_start(old(self));
                    if is_non_decreasing(self.ticks@[0].snapshot.data) {
                        assert(self.data@[j - 1] <= self.data@[j as int]);
                    }
                }
                let moved = self.data[j - 1];
                self.data[j] = moved;
                j -= 1;
                self.tally();
                proof {
                    let held = before.data@.update(j as int + 1, key);
                    assert(self.data@.update(j as int, key) =~= adjacent_swap(held, j as int));
                    lemma_adjacent_swap_inversions(held, j as int);
                    assert(self.data@ == shift_right(before.data@, j as int + 1));
                    lemma_shift_is_operation(
                        before.ticks@.last().snapshot.data,
                        before.data@,
                        j as int + 1,
                    );
                }
                let ghost mid = *self;
                let r = self.step_tick();
                proof {
                    Self::lemma_follows_on(&before, &mid, self);
                    Self::lemma_follows_on(old(self), &before, self);
                    shifted = true;
                    let next = insertion_rest(
                        self.data@,
                        self.count.spec_value() as nat,
                        i as int,
                        j as int,
                        key,
                    );
                    assert(ahead == seq![mid.state()] + next);
                    assert(shown_by(self.ticks@) + next =~= shown + ahead);
                    lemma_begins(shown_by(self.ticks@), next);
                }
                if r.is_err() {
                    return r;
                }
            }

            let ghost before = *self;
            self.data[j] = key;
            proof {
                self.lemma_same_start(old(self));
                if !shifted {
                    assert(self.data@ =~= before.data@);
                }
                lemma_key_placed(base, before.data@, i as int, j as int);
                lemma_placement_settles(
                    before.ticks@.last().snapshot.data,
                    before.data@,
                    j as int,
                    key,
                    shifted,
                );
            }
            i += 1;
        }
        proof {
            lemma_all_pairs_ordered_is_non_decreasing(self.data@);
            lemma_ordered_has_no_inversions(self.data@);
            assert(shown_by(self.ticks@) =~= all);
        }
        Ok(())
    }
}

} // verus!
