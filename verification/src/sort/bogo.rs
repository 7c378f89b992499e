//! Bogo sort: shuffle until the sequence happens to be in order, ticking
//! once per shuffle.

use vstd::prelude::*;
use crate::error::Error;
use crate::renderer::Renderer;
use crate::sequence::{is_non_decreasing, lemma_same_items_same_len, same_items};
use crate::shuffle::{shuffle, thread_rng};
use crate::sort::Sort;
use crate::sort_type::SortType;

verus! {

impl<'a, R: Renderer> Sort<'a, R> {
    /// Sorts by bogo sort: while the data is out of order it is shuffled,
    /// counted and shown. Data in order is left as it stands, without a
    /// shuffle, a count or a tick. The number of shuffles this takes has no
    /// bound but the capacity of the counter: when the counter is full and
    /// the data is still out of order, the run is given up.
    pub(super) fn bogosort(&mut self) -> (r: Result<(), Error>)
        requires
            old(self).shown(),
            old(self).sort == SortType::Bogo,
        ensures
            final(self).follows(old(self)),
            is_non_decreasing(old(self).data@) ==> {
                &&& r is Ok
                &&& final(self).data@ == old(self).data@
                &&& final(self).count == old(self).count
                &&& final(self).ticks@ == old(self).ticks@
            },
            r is Ok ==> {
                &&& final(self).shown()
                &&& is_non_decreasing(final(self).data@)
                &&& same_items(final(self).data@, old(self).data@)
                &&& is_non_decreasing(old(self).data@) <==> final(self).counted_since(old(self)) == 0
            },
            r is Err ==> final(self).halted(r) || final(self).spent(r),
    {
        let mut rng = thread_rng();

        loop
            invariant
                self.shown(),
                self.sort == SortType::Bogo,
                self.follows(old(self)),
                same_items(self.data@, old(self).data@),
                self.count.spec_value() >= old(self).count.spec_value(),
                self.count.spec_value() == old(self).count.spec_value() ==> {
                    &&& self.data@ == old(self).data@
                    &&& self.count == old(self).count
                    &&& self.ticks@ == old(self).ticks@
                },
                self.count.spec_value() > old(self).count.spec_value() ==> !is_non_decreasing(
                    old(self).data@,
                ),
            decreases usize::MAX - self.count.spec_value(),
        {
            if self.is_sorted() {
                return Ok(());
            }
            if !self.count.has_room() {
                return Err(Error::CountExhausted);
            }
            let ghost before = *self;
            shuffle(&mut self.data, &mut rng);
            self.tally();
            proof {
                lemma_same_items_same_len(self.data@, before.data@);
            }
            let ghost mid = *self;
            let r = self.step_tick();
            proof {
                Self::lemma_follows_on(&before, &mid, self);
                Self::lemma_follows_on(old(self), &before, self);
            }
            if r.is_err() {
                return r;
            }
        }
    }
}

} // verus!
