//! The configuration of a run and the bounds it is held to.

use vstd::prelude::*;
use crate::error::Error;
use crate::sort_type::SortType;

verus! {

/// The smallest number of items a run may be configured with.
pub const MIN_QUANTITY: usize = 2;

/// The number of items a run has when none is asked for.
pub const DEFAULT_QUANTITY: usize = 50;

/// The largest number of items a run may be configured with.
pub const MAX_QUANTITY: usize = 150;

/// The pause after each tick when none is asked for, in milliseconds.
pub const DEFAULT_TICK: u64 = 100;

/// What to sort with, how many items, and how fast.
#[derive(Clone, Copy, Debug)]
pub struct Args {
    /// The algorithm to run.
    pub sort_type: SortType,
    /// The number of items to sort.
    pub quantity: usize,
    /// The pause after each tick, in milliseconds.
    pub tick_rate: u64,
}

/// Whether `quantity` lies in the configured range.
pub open spec fn quantity_in_range(quantity: usize) -> bool {
    MIN_QUANTITY <= quantity <= MAX_QUANTITY
}

impl Args {
    /// The arguments as given, or the reason they cannot be used: a quantity
    /// outside `MIN_QUANTITY..=MAX_QUANTITY` is rejected with that quantity.
    pub fn validate(self) -> (r: Result<Args, Error>)
        ensures
            quantity_in_range(self.quantity) ==> r == Ok::<Args, Error>(self),
            !quantity_in_range(self.quantity) ==> r == Err::<Args, Error>(
                Error::QuantityOutOfRange(self.quantity),
            ),
    {
        if MIN_QUANTITY <= self.quantity && self.quantity <= MAX_QUANTITY {
            Ok(self)
        } else {
            Err(Error::QuantityOutOfRange(self.quantity))
        }
    }
}

} // verus!
