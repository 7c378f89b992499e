//! Bubble sort: passes of adjacent exchanges, ended early by a pass that
//! exchanges nothing.

use vstd::prelude::*;
use crate::args::MAX_QUANTITY;
use crate::cost::{inversions, lemma_adjacent_swap_inversions, lemma_ordered_has_no_inversions};
use crate::error::Error;
use crate::renderer::Renderer;
use crate::script::{bubble_rest, lemma_begins, shown_by};
use crate::sequence::{
    adjacent_swap, is_non_decreasing, lemma_short_is_non_decreasing, lemma_swap_same_items,
    ordered_between, same_items,
};
use crate::sort::Sort;
use crate::sort_type::SortType;
use crate::trace::operation;

verus! {

/// The last `done` places of `s` hold their final values: they are in order
/// among themselves and nothing before them is larger.
spec fn tail_settled(s: Seq<u64>, done: int) -> bool {
    &&& ordered_between(s, s.len() - done, s.len() as int)
    &&& forall|a: int, b: int|
        0 <= a < s.len() - done && s.len() - done <= b < s.len() ==> #[trigger] s[a] <= #[trigger] s[b]
}

impl<'a, R: Renderer> Sort<'a, R> {
    /// Sorts by bubble sort, ticking once per exchange.
    pub(super) fn bubble_sort(&mut self) -> (r: Result<(), Error>)
        requires
            old(self).shown(),
            old(self).sort == SortType::Bubble,
            old(self).count.spec_value() == 0,
        ensures
            final(self).follows(old(self)),
            r is Ok ==> {
                &&& final(self).shown()
                &&& is_non_decreasing(final(self).data@)
                &&& same_items(final(self).data@, old(self).data@)
                &&& final(self).count.spec_value() == inversions(old(self).data@)
                &&& shown_by(final(self).ticks@) == shown_by(old(self).ticks@) + bubble_rest(
                    old(self).data@,
                    0,
                    0,
                    0,
                    false,
                )
            },
            r is Err ==> {
                &&& final(self).halted(r)
                &&& shown_by(final(self).ticks@).is_prefix_of(
                    shown_by(old(self).ticks@) + bubble_rest(old(self).data@, 0, 0, 0, false),
                )
            },
    {
        let n = self.data.len();
        let ghost all = shown_by(self.ticks@) + bubble_rest(self.data@, 0, 0, 0, false);
        if n < 2 {
            proof {
                lemma_short_is_non_decreasing(self.data@);
                lemma_ordered_has_no_inversions(self.data@);
                assert(all =~= shown_by(self.ticks@));
            }
            return Ok(());
        }
        let mut i: usize = 0;
        while i < n - 1
            invariant
                n == self.data@.len(),
                2 <= n <= MAX_QUANTITY,
                i <= n - 1,
                self.shown(),
                self.sort == SortType::Bubble,
                self.follows(old(self)),
                same_items(self.data@, old(self).data@),
                tail_settled(self.data@, i as int),
                self.count.spec_value() <= i * MAX_QUANTITY,
                self.count.spec_value() + inversions(self.data@) == inversions(old(self).data@),
                all == shown_by(old(self).ticks@) + bubble_rest(old(self).data@, 0, 0, 0, false),
                shown_by(self.ticks@) + bubble_rest(
                    self.data@,
                    self.count.spec_value() as nat,
                    i as int,
                    0,
                    false,
                ) == all,
            decreases n - 1 - i,
        {
            let mut swapped = false;
            let mut j: usize = 0;
            while j < n - i - 1
                invariant
                    n == self.data@.len(),
                    2 <= n <= MAX_QUANTITY,
                    i < n - 1,
                    j <= n - i - 1,
                    self.shown(),
                    self.sort == SortType::Bubble,
                    self.follows(old(self)),
                    same_items(self.data@, old(self).data@),
                    tail_settled(self.data@, i as int),
                    forall|a: int| 0 <= a < j ==> #[trigger] self.data@[a] <= self.data@[j as int],
                    !swapped ==> ordered_between(self.data@, 0, j as int + 1),
                    self.count.spec_value() <= i * MAX_QUANTITY + j,
                    self.count.spec_value() + inversions(self.data@) == inversions(
                        old(self).data@,
                    ),
                    all == shown_by(old(self).ticks@) + bubble_rest(
                        old(self).data@,
                        0,
                        0,
                        0,
                        false,
                    ),
                    shown_by(self.ticks@) + bubble_rest(
                        self.data@,
                        self.count.spec_value() as nat,
                        i as int,
                        j as int,
                        swapped,
                    ) == all,
                decreases n - i - 1 - j,
            {
                let ghost ahead = bubble_rest(
                    self.data@,
                    self.count.spec_value() as nat,
                    i as int,
                    j as int,
                    swapped,
                );
                let ghost shown = shown_by(self.ticks@);
                if self.data[j] > self.data[j + 1] {
                    let ghost before = self.data@;
                    self.exchange(j, j + 1);
                    self.tally();
                    proof {
                        lemma_swap_same_items(before, j as int, j as int + 1);
                        lemma_adjacent_swap_inversions(before, j as int);
                        assert(self.data@ == adjacent_swap(before, j as int));
                        assert(operation(SortType::Bubble, before, self.data@));
                    }
                    let ghost mid = *self;
                    let r = self.step_tick();
                    proof {
                        Self::lemma_follows_on(old(self), &mid, self);
                        let next = bubble_rest(
                            self.data@,
                            self.count.spec_value() as nat,
                            i as int,
                            j as int + 1,
                            true,
                        );
                        assert(ahead == seq![mid.state()] + next);
                        assert(shown_by(self.ticks@) + next =~= shown + ahead);
                        lemma_begins(shown_by(self.ticks@), next);
                    }
                    if r.is_err() {
                        return r;
                    }
                    swapped = true;
                }
                j += 1;
            }
            proof {
                if !swapped {
                    assert(shown_by(self.ticks@) =~= all);
                }
            }
            if !swapped {
                proof {
                    let s = self.data@;
                    assert forall|a: int, b: int| 0 <= a <= b < s.len() implies #[trigger] s[a]
                        <= #[trigger] s[b] by {}
                    lemma_ordered_has_no_inversions(s);
                }
                return Ok(());
            }
            i += 1;
        }
        proof {
            let s = self.data@;
            assert forall|a: int, b: int| 0 <= a <= b < s.len() implies #[trigger] s[a]
                <= #[trigger] s[b] by {}
            lemma_ordered_has_no_inversions(s);
            assert(shown_by(self.ticks@) =~= all);
        }
        Ok(())
    }
}

} // verus!
