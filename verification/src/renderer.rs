//! The contract between the engine and whatever draws its snapshots.

use vstd::prelude::*;
use std::time::Duration;
use crate::error::Error;
use crate::sort::SortSnapshot;

verus! {

/// The length of time that `Duration::from_millis` makes of a number of milliseconds.
pub uninterp spec fn duration_of_millis(millis: u64) -> Duration;

/// `Duration::from_millis` of std: the result is a function of the number
/// of milliseconds alone, and it is defined for every `u64`.
pub assume_specification[ Duration::from_millis ](millis: u64) -> (d: Duration)
    ensures
        d == duration_of_millis(millis),
;

/// A frontend: it draws a snapshot and then pauses, watching for a request
/// to stop.
///
/// Nothing is assumed of what `render` and `sleep` answer: the engine is
/// verified for every answer they may give.
pub trait Renderer {
    /// Draws the snapshot.
    fn render(&mut self, snapshot: SortSnapshot) -> Result<(), Error>;

    /// Pauses for up to `duration`; fails at once when asked to stop.
    fn sleep(&self, duration: Duration) -> Result<(), Error>;

    /// One render-then-pause cycle, given up at the first failure.
    ///
    /// `render` is called on the renderer as it stands, with `snapshot`, and
    /// leaves the renderer as the tick leaves it. Where `render` fails, its
    /// failure is the answer and there is no pause. Where it succeeds,
    /// `sleep` is called on the renderer as `render` left it, for
    /// `duration`, and what `sleep` answers is the answer.
    ///
    /// What `render` and `sleep` themselves answer is theirs to decide: the
    /// contract speaks of them only as the calls that are made.
    fn tick(&mut self, snapshot: SortSnapshot, duration: Duration) -> (answer: Result<(), Error>)
        where
            Self: Sized,
        ensures
            exists|rendering: &mut Self, rendered: Result<(), Error>|
                {
                    &&& mut_ref_current(rendering) == *old(self)
                    &&& mut_ref_future(rendering) == *final(self)
                    &&& #[trigger] call_ensures(Self::render, (rendering, snapshot), rendered)
                    &&& match rendered {
                        Ok(()) => call_ensures(Self::sleep, (&*final(self), duration), answer),
                        Err(failure) => answer == Err::<(), Error>(failure),
                    }
                },
    {
        let render = Self::render;
        match render(self, snapshot) {
            Ok(()) => self.sleep(duration),
            Err(e) => Err(e),
        }
    }
}

} // verus!
