//! The sort engine: it owns the working sequence, runs the chosen algorithm
//! over it one significant operation at a time, and hands a snapshot to the
//! renderer after each.

use vstd::prelude::*;
use std::time::Duration;
use crate::args::{Args, MAX_QUANTITY};
use crate::cost::operations_counted;
use crate::count::Count;
use crate::error::Error;
use crate::renderer::{duration_of_millis, Renderer};
use crate::sequence::{
    ascending, is_non_decreasing, lemma_same_items_same_len, lemma_short_is_non_decreasing,
    same_items, swap_of,
};
use crate::script::{lemma_begins, lemma_shown_push, played, playing, script, shown_by, Shown};
use crate::shuffle::{shuffle, thread_rng};
use crate::sort_type::SortType;
use crate::trace::{
    advances, all_accepted, all_answered, all_paced, all_well_formed, answered, chain, closes,
    exhausted, finished, is_run, lemma_accepted_run_sorts, lemma_success_is_sorted, searching,
    stopped, untouched_if_ordered, well_formed, SnapshotView, Tick, FINAL_DELAY,
};

mod bogo;
mod bubble;
mod insertion;
mod merge;
mod quick;

verus! {

/// An independent copy of the engine's state at one moment.
pub struct SortSnapshot {
    data: Vec<u64>,
    is_sorted: bool,
    sort_type: SortType,
    count: Count,
}

impl View for SortSnapshot {
    type V = SnapshotView;

    closed spec fn view(&self) -> SnapshotView {
        SnapshotView {
            data: self.data@,
            is_sorted: self.is_sorted,
            sort_type: self.sort_type,
            count: self.count,
        }
    }
}

impl SortSnapshot {
    /// The flag of a snapshot says whether its data is in order.
    #[verifier::type_invariant]
    spec fn truthful(&self) -> bool {
        self.is_sorted == is_non_decreasing(self.data@)
    }

    /// The sequence as it stood when the snapshot was taken.
    pub fn get_data(&self) -> (data: &Vec<u64>)
        ensures
            data@ == self@.data,
    {
        &self.data
    }

    /// Whether the sequence stood in order: no value was followed by a smaller one.
    pub fn is_sorted(&self) -> (b: bool)
        ensures
            b == self@.is_sorted,
            b == is_non_decreasing(self@.data),
    {
        proof {
            use_type_invariant(self);
        }
        self.is_sorted
    }

    /// The algorithm of the run.
    pub fn get_sort_type(&self) -> (sort_type: SortType)
        ensures
            sort_type == self@.sort_type,
    {
        self.sort_type
    }

    /// The operations counted up to the snapshot.
    pub fn get_count(&self) -> (count: &Count)
        ensures
            *count == self@.count,
    {
        &self.count
    }
}

/// The engine of one run.
pub struct Sort<'a, R: Renderer> {
    renderer: &'a mut R,
    sort: SortType,
    count: Count,
    data: Vec<u64>,
    tick_rate: u64,
    ticks: Ghost<Seq<Tick>>,
}

/// The values `1..=quantity` in an order chosen at random.
pub fn gen_data(quantity: usize) -> (data: Vec<u64>)
    ensures
        same_items(data@, ascending(quantity as nat)),
        data@.len() == quantity,
{
    let mut data: Vec<u64> = Vec::new();
    let mut i: usize = 0;
    while i < quantity
        invariant
            i <= quantity,
            data@ == ascending(i as nat),
        decreases quantity - i,
    {
        data.push((i + 1) as u64);
        i += 1;
        assert(data@ =~= ascending(i as nat));
    }
    let mut rng = thread_rng();
    shuffle(&mut data, &mut rng);
    proof {
        lemma_same_items_same_len(data@, ascending(quantity as nat));
    }
    data
}

/// The result of a run whose last step ended with `outcome` and which had
/// counted `count` operations by then.
pub fn conclude(outcome: Result<(), Error>, count: Count) -> (r: Result<Count, Error>)
    ensures
        r == match outcome {
            Ok(()) => Ok::<Count, Error>(count),
            Err(e) => Err::<Count, Error>(e),
        },
{
    match outcome {
        Ok(()) => Ok(count),
        Err(e) => Err(e),
    }
}

/// `ticks` is what the renderer was handed by a run of `sort` over `initial`
/// that returned `r`: the run is the one [`is_run`] describes, and the count
/// it returns is the count on its last tick.
pub open spec fn ran(
    sort: SortType,
    rate: u64,
    initial: Seq<u64>,
    ticks: Seq<Tick>,
    r: Result<Count, Error>,
) -> bool {
    match r {
        Ok(count) => is_run(sort, rate, initial, ticks, Ok::<(), Error>(())) && count
            == ticks.last().snapshot.count,
        Err(e) => is_run(sort, rate, initial, ticks, Err::<(), Error>(e)),
    }
}

/// With a renderer that accepts every tick, `run` returns a count under
/// every algorithm but bogo sort, which may fill its counter first; and
/// whenever `run` returns a count, the last snapshot it handed to the
/// renderer holds the initial values in order, is flagged as sorted, and
/// carries that count.
pub proof fn lemma_accepted_run_returns_count(
    sort: SortType,
    rate: u64,
    initial: Seq<u64>,
    ticks: Seq<Tick>,
    r: Result<Count, Error>,
)
    requires
        ran(sort, rate, initial, ticks, r),
        all_accepted(ticks),
    ensures
        sort != SortType::Bogo ==> r is Ok,
        r matches Ok(count) ==> {
            &&& is_non_decreasing(ticks.last().snapshot.data)
            &&& ticks.last().snapshot.is_sorted
            &&& same_items(ticks.last().snapshot.data, initial)
            &&& count == ticks.last().snapshot.count
            &&& operations_counted(sort, initial, count.spec_value() as nat)
        },
{
    match r {
        Ok(count) => {
            lemma_success_is_sorted(sort, rate, initial, ticks, Ok(()));
        },
        Err(e) => {
            lemma_accepted_run_sorts(sort, rate, initial, ticks, Err(e));
        },
    }
}

impl<'a, R: Renderer> Sort<'a, R> {
    /// The working sequence.
    pub closed spec fn items(&self) -> Seq<u64> {
        self.data@
    }

    /// The operations counted so far in the current run.
    pub closed spec fn counter(&self) -> Count {
        self.count
    }

    /// The algorithm the engine was made for.
    pub closed spec fn algorithm(&self) -> SortType {
        self.sort
    }

    /// The pause after each tick of the algorithm, in milliseconds.
    pub closed spec fn rate(&self) -> u64 {
        self.tick_rate
    }

    /// The ticks handed to the renderer in the current run, oldest first.
    pub closed spec fn ticks(&self) -> Seq<Tick> {
        self.ticks@
    }

    /// The engine holds no more items than a run may be configured with.
    pub open spec fn wf(&self) -> bool {
        self.items().len() <= MAX_QUANTITY
    }

    /// What a snapshot taken now holds.
    pub open spec fn frame(&self) -> SnapshotView {
        SnapshotView {
            data: self.items(),
            is_sorted: is_non_decreasing(self.items()),
            sort_type: self.algorithm(),
            count: self.counter(),
        }
    }

    /// An engine over the values `1..=quantity` in random order.
    pub fn new(renderer: &'a mut R, sort: SortType, quantity: usize, tick_rate: u64) -> (s: Self)
        requires
            quantity <= MAX_QUANTITY,
        ensures
            s.wf(),
            same_items(s.items(), ascending(quantity as nat)),
            s.algorithm() == sort,
            s.rate() == tick_rate,
            s.counter().spec_value() == 0,
            s.counter().spec_kind() == sort.spec_count_type(),
            s.ticks() == Seq::<Tick>::empty(),
    {
        Sort {
            renderer,
            sort,
            data: gen_data(quantity),
            tick_rate,
            count: Count::new(sort.count_type()),
            ticks: Ghost(Seq::empty()),
        }
    }

    /// An engine configured by validated arguments.
    pub fn from_args(renderer: &'a mut R, args: Args) -> (s: Self)
        requires
            args.quantity <= MAX_QUANTITY,
        ensures
            s.wf(),
            same_items(s.items(), ascending(args.quantity as nat)),
            s.algorithm() == args.sort_type,
            s.rate() == args.tick_rate,
            s.counter().spec_value() == 0,
            s.counter().spec_kind() == args.sort_type.spec_count_type(),
            s.ticks() == Seq::<Tick>::empty(),
    {
        Sort::new(renderer, args.sort_type, args.quantity, args.tick_rate)
    }

    /// An engine over the given values in the given order.
    pub fn with_data(renderer: &'a mut R, sort: SortType, data: Vec<u64>, tick_rate: u64) -> (s:
        Self)
        requires
            data@.len() <= MAX_QUANTITY,
        ensures
            s.wf(),
            s.items() == data@,
            s.algorithm() == sort,
            s.rate() == tick_rate,
            s.counter().spec_value() == 0,
            s.counter().spec_kind() == sort.spec_count_type(),
            s.ticks() == Seq::<Tick>::empty(),
    {
        Sort {
            renderer,
            sort,
            data,
            tick_rate,
            count: Count::new(sort.count_type()),
            ticks: Ghost(Seq::empty()),
        }
    }

    /// A copy of the current state, for the renderer.
    pub fn snapshot(&self) -> (s: SortSnapshot)
        ensures
            s@ == self.frame(),
            s@.is_sorted <==> is_non_decreasing(s@.data),
    {
        SortSnapshot {
            data: self.data.clone(),
            is_sorted: self.is_sorted(),
            sort_type: self.sort,
            count: self.count,
        }
    }

    /// Whether the working sequence never steps down.
    pub fn is_sorted(&self) -> (b: bool)
        ensures
            b == is_non_decreasing(self.items()),
    {
        let n = self.data.len();
        if n < 2 {
            proof {
                lemma_short_is_non_decreasing(self.data@);
            }
            return true;
        }
        let mut k: usize = 0;
        while k < n - 1
            invariant
                n == self.data@.len(),
                n >= 2,
                k <= n - 1,
                forall|i: int, j: int|
                    0 <= i && j == i + 1 && j <= k ==> #[trigger] self.data@[i] <= #[trigger] self.data@[j],
            decreases n - 1 - k,
        {
            if self.data[k] > self.data[k + 1] {
                assert(self.data@[k as int] > self.data@[k as int + 1]);
                return false;
            }
            k += 1;
        }
        true
    }

    /// One run: the counter starts again at zero, the initial state is shown
    /// for one tick, the algorithm runs to its end, and the sorted state is
    /// shown for [`FINAL_DELAY`] milliseconds. Fewer than two items are in
    /// order as they stand: over them there are those two ticks and no
    /// algorithm. The first tick the renderer refuses ends the run with the
    /// renderer's answer, and nothing is moved or shown after it. Every tick
    /// of the trace is a call of the renderer's `tick`.
    pub fn execute(&mut self) -> (r: Result<(), Error>)
        requires
            old(self).wf(),
        ensures
            final(self).wf(),
            final(self).algorithm() == old(self).algorithm(),
            final(self).rate() == old(self).rate(),
            is_run(old(self).algorithm(), old(self).rate(), old(self).items(), final(self).ticks(), r),
            all_answered::<R>(final(self).ticks()),
            final(self).frame() == final(self).ticks().last().snapshot,
            final(self).items().len() == old(self).items().len(),
            r is Ok ==> {
                &&& is_non_decreasing(final(self).items())
                &&& same_items(final(self).items(), old(self).items())
                &&& operations_counted(
                    old(self).algorithm(),
                    old(self).items(),
                    final(self).counter().spec_value() as nat,
                )
            },
    {
        self.count = Count::new(self.sort.count_type());
        proof {
            self.ticks@ = Seq::empty();
        }
        let r = self.emit(self.tick_rate);
        if r.is_err() {
            proof {
                assert(self.ticks@.drop_last() =~= Seq::<Tick>::empty());
                assert(stopped(self.sort, self.tick_rate, old(self).data@, self.ticks@, r));
            }
            return r;
        }
        let ghost started = *self;
        proof {
            assert(self.shown());
        }
        if self.data.len() > 1 {
            let sorted = match self.sort {
                SortType::Bogo => self.bogosort(),
                SortType::Bubble => self.bubble_sort(),
                SortType::Insertion => self.insertion_sort(),
                SortType::Merge => self.merge_sort(),
                SortType::Quick => self.quick_sort(),
            };
            proof {
                assert(self.ticks@[0] == started.ticks@[0]);
                assert(shown_by(started.ticks@) =~= seq![Shown { data: old(self).data@, count: 0 }]);
            }
            if sorted.is_err() {
                proof {
                    if self.halted(sorted) {
                        assert(stopped(self.sort, self.tick_rate, old(self).data@, self.ticks@, sorted));
                    } else {
                        assert(exhausted(self.sort, self.tick_rate, self.ticks@, sorted));
                    }
                }
                return sorted;
            }
        } else {
            proof {
                lemma_short_is_non_decreasing(self.data@);
                assert(shown_by(self.ticks@) =~= seq![Shown { data: old(self).data@, count: 0 }]);
            }
        }
        let ghost done = *self;
        let r = self.emit(FINAL_DELAY);
        proof {
            let now = self.ticks@;
            assert(now.drop_last() =~= done.ticks@);
            assert(now[0] == done.ticks@[0]);
            assert(now[now.len() - 2] == done.ticks@.last());
            assert forall|k: int| 0 <= k < now.len() implies well_formed(
                self.sort,
                (#[trigger] now[k]).snapshot,
            ) by {
                if k < done.ticks@.len() {
                    assert(now[k] == done.ticks@[k]);
                }
            }
            if is_non_decreasing(now[0].snapshot.data) {
                assert forall|k: int| 0 <= k < now.len() implies (#[trigger] now[k]).snapshot.data
                    == now[0].snapshot.data by {
                    if k < done.ticks@.len() {
                        assert(now[k] == done.ticks@[k]);
                    }
                }
            }
            assert forall|k: int| 0 <= k < now.len() implies answered::<R>(#[trigger] now[k]) by {
                if k < done.ticks@.len() {
                    assert(now[k] == done.ticks@[k]);
                }
            }
            if self.sort == SortType::Bogo {
                assert forall|k: int| 0 <= k < now.len() - 2 implies !(#[trigger] now[k])
                    .snapshot.is_sorted by {
                    assert(now[k] == done.ticks@[k]);
                }
            }
            assert(finished(self.sort, self.tick_rate, old(self).data@, now, r));
        }
        r
    }

    /// One run, after which the engine is spent: the count of operations if
    /// the run finished and every tick was accepted, else what ended it,
    /// which is the answer of the renderer or, for bogo sort, a full counter.
    /// The run is the one its ticks describe, and every one of them is a
    /// call of the renderer's `tick`.
    pub fn run(self) -> (r: Result<Count, Error>)
        requires
            self.wf(),
        ensures
            exists|ticks: Seq<Tick>|
                #[trigger] ran(self.algorithm(), self.rate(), self.items(), ticks, r)
                    && all_answered::<R>(ticks),
            r matches Ok(count) ==> {
                &&& count.spec_kind() == self.algorithm().spec_count_type()
                &&& operations_counted(self.algorithm(), self.items(), count.spec_value() as nat)
            },
    {
        let mut engine = self;
        let outcome = engine.execute();
        let ghost ended = outcome;
        let r = conclude(outcome, engine.count);
        proof {
            assert(engine.frame().count == engine.count);
            if ended is Ok {
                assert(ended->Ok_0 == ());
                assert(ended == Ok::<(), Error>(()));
            } else {
                assert(ended == Err::<(), Error>(ended->Err_0));
            }
            assert(ran(self.sort, self.tick_rate, self.data@, engine.ticks@, r));
        }
        r
    }

    /// The trace is that of a run under way: every tick so far was a step
    /// of the algorithm, paced at the tick rate and accepted.
    spec fn tracing(&self) -> bool {
        &&& self.wf()
        &&& self.count.spec_kind() == self.sort.spec_count_type()
        &&& self.ticks@.len() >= 1
        &&& all_well_formed(self.sort, self.ticks@)
        &&& all_accepted(self.ticks@)
        &&& all_paced(self.tick_rate, self.ticks@)
        &&& all_answered::<R>(self.ticks@)
        &&& chain(self.sort, self.ticks@)
        &&& untouched_if_ordered(self.ticks@)
        &&& searching(self.sort, self.ticks@, self.ticks@.len() - 1)
    }

    /// Data that was in order when the run began still stands as it stood.
    spec fn steady(&self) -> bool {
        is_non_decreasing(self.ticks@[0].snapshot.data) ==> self.data@
            == self.ticks@[0].snapshot.data
    }

    /// The run is under way and the last tick shows the current state.
    spec fn live(&self) -> bool {
        &&& self.tracing()
        &&& self.steady()
        &&& closes(self.sort, self.ticks@.last().snapshot, self.frame())
    }

    /// The run is under way and the last tick shows exactly the current state.
    spec fn shown(&self) -> bool {
        &&& self.tracing()
        &&& self.steady()
        &&& self.ticks@.last().snapshot == self.frame()
    }

    /// The renderer refused the last tick with `r`; nothing happened since.
    spec fn halted(&self, r: Result<(), Error>) -> bool {
        &&& r is Err
        &&& self.ticks@.len() >= 1
        &&& all_well_formed(self.sort, self.ticks@)
        &&& all_accepted(self.ticks@.drop_last())
        &&& all_paced(self.tick_rate, self.ticks@)
        &&& all_answered::<R>(self.ticks@)
        &&& chain(self.sort, self.ticks@)
        &&& untouched_if_ordered(self.ticks@)
        &&& searching(self.sort, self.ticks@, self.ticks@.len() - 1)
        &&& self.ticks@.last().outcome == r
        &&& self.ticks@.last().snapshot == self.frame()
    }

    /// Bogo sort has filled the counter without getting the data in order.
    spec fn spent(&self, r: Result<(), Error>) -> bool {
        &&& self.shown()
        &&& self.sort == SortType::Bogo
        &&& !is_non_decreasing(self.data@)
        &&& self.count.spec_value() == usize::MAX
        &&& r == Err::<(), Error>(Error::CountExhausted)
    }

    /// `self` is the engine `before` later in the same run: same algorithm,
    /// rate and number of items, and a trace that starts with the trace of
    /// `before`.
    spec fn follows(&self, before: &Self) -> bool {
        &&& self.sort == before.sort
        &&& self.tick_rate == before.tick_rate
        &&& self.data@.len() == before.data@.len()
        &&& before.ticks@.is_prefix_of(self.ticks@)
    }

    /// What a tick taken now shows of the run.
    spec fn state(&self) -> Shown {
        Shown { data: self.data@, count: self.count.spec_value() as nat }
    }

    /// Since it stood as `before`, the engine has shown exactly `more`.
    spec fn shows_since(&self, before: &Self, more: Seq<Shown>) -> bool {
        shown_by(self.ticks@) == shown_by(before.ticks@) + more
    }

    /// Since it stood as `before`, the engine has shown a beginning of `more`.
    spec fn showing_since(&self, before: &Self, more: Seq<Shown>) -> bool {
        shown_by(self.ticks@).is_prefix_of(shown_by(before.ticks@) + more)
    }

    /// The operations counted since the state `before` of the same run.
    spec fn counted_since(&self, before: &Self) -> int {
        self.count.spec_value() - before.count.spec_value()
    }

    /// A later state of a run began with the same tick.
    proof fn lemma_same_start(&self, before: &Self)
        requires
            self.follows(before),
            before.ticks@.len() >= 1,
        ensures
            self.ticks@.len() >= 1,
            self.ticks@[0] == before.ticks@[0],
    {
        assert(before.ticks@[0] == self.ticks@.subrange(0, before.ticks@.len() as int)[0]);
    }

    /// What follows a later state of a run follows every earlier one.
    proof fn lemma_follows_on(a: &Self, b: &Self, c: &Self)
        requires
            b.follows(a),
            c.follows(b),
        ensures
            c.follows(a),
    {
        assert(a.ticks@ =~= c.ticks@.subrange(0, a.ticks@.len() as int));
    }

    /// Hands a snapshot of the current state to the renderer and asks for a
    /// pause of `millis` milliseconds.
    fn emit(&mut self, millis: u64) -> (r: Result<(), Error>)
        ensures
            final(self).data@ == old(self).data@,
            final(self).count == old(self).count,
            final(self).sort == old(self).sort,
            final(self).tick_rate == old(self).tick_rate,
            final(self).ticks@ == old(self).ticks@.push(
                Tick { snapshot: old(self).frame(), pause: duration_of_millis(millis), outcome: r },
            ),
            answered::<R>(final(self).ticks@.last()),
    {
        let snapshot = self.snapshot();
        let pause = Duration::from_millis(millis);
        let tick = R::tick;
        let r = tick(self.renderer, snapshot, pause);
        proof {
            let shown = Tick { snapshot: self.frame(), pause, outcome: r };
            self.ticks@ = self.ticks@.push(shown);
            assert(answered::<R>(shown));
        }
        r
    }

    /// Ticks after one step of the algorithm.
    fn step_tick(&mut self) -> (r: Result<(), Error>)
        requires
            old(self).tracing(),
            old(self).steady(),
            advances(old(self).sort, old(self).ticks@.last().snapshot, old(self).frame()),
            old(self).sort == SortType::Bogo ==> !old(self).ticks@.last().snapshot.is_sorted,
        ensures
            final(self).data@ == old(self).data@,
            final(self).count == old(self).count,
            final(self).follows(old(self)),
            final(self).ticks@.len() == old(self).ticks@.len() + 1,
            final(self).ticks@.drop_last() == old(self).ticks@,
            final(self).ticks@.last().snapshot == old(self).frame(),
            shown_by(final(self).ticks@) == shown_by(old(self).ticks@).push(old(self).state()),
            r is Ok ==> final(self).shown(),
            r is Err ==> final(self).halted(r),
    {
        let ghost before = self.ticks@;
        let r = self.emit(self.tick_rate);
        proof {
            let now = self.ticks@;
            lemma_shown_push(before, now.last());
            assert(now.drop_last() =~= before);
            assert(before.is_prefix_of(now));
            assert forall|i: int, j: int| 0 <= i && j == i + 1 && j < now.len() implies advances(
                self.sort,
                (#[trigger] now[i]).snapshot,
                (#[trigger] now[j]).snapshot,
            ) by {
                if j < before.len() {
                    assert(now[i] == before[i] && now[j] == before[j]);
                } else {
                    assert(now[i] == before.last());
                }
            }
            assert forall|k: int| 0 <= k < now.len() implies well_formed(
                self.sort,
                (#[trigger] now[k]).snapshot,
            ) by {
                if k < before.len() {
                    assert(now[k] == before[k]);
                }
            }
            assert forall|k: int| 0 <= k < now.len() implies (#[trigger] now[k]).pause
                == duration_of_millis(self.tick_rate) by {
                if k < before.len() {
                    assert(now[k] == before[k]);
                }
            }
            assert forall|k: int| 0 <= k < now.len() implies answered::<R>(#[trigger] now[k]) by {
                if k < before.len() {
                    assert(now[k] == before[k]);
                }
            }
            assert(now[0] == before[0]);
            if is_non_decreasing(now[0].snapshot.data) {
                assert forall|k: int| 0 <= k < now.len() implies (#[trigger] now[k]).snapshot.data
                    == now[0].snapshot.data by {
                    if k < before.len() {
                        assert(now[k] == before[k]);
                    }
                }
            }
            if self.sort == SortType::Bogo {
                assert forall|k: int| 0 <= k < now.len() - 1 implies !(#[trigger] now[k])
                    .snapshot.is_sorted by {
                    assert(now[k] == before[k]);
                }
            }
            if r is Ok {
                assert forall|k: int| 0 <= k < now.len() implies (#[trigger] now[k]).outcome is Ok by {
                    if k < before.len() {
                        assert(now[k] == before[k]);
                    }
                }
            }
        }
        r
    }

    /// Exchanges the values at `i` and `j`.
    fn exchange(&mut self, i: usize, j: usize)
        requires
            i < old(self).data@.len(),
            j < old(self).data@.len(),
        ensures
            final(self).data@ == swap_of(old(self).data@, i as int, j as int),
            final(self).count == old(self).count,
            final(self).sort == old(self).sort,
            final(self).tick_rate == old(self).tick_rate,
            final(self).ticks@ == old(self).ticks@,
    {
        let a = self.data[i];
        let b = self.data[j];
        self.data[i] = b;
        self.data[j] = a;
    }

    /// Counts one operation.
    fn tally(&mut self)
        requires
            old(self).count.spec_value() < usize::MAX,
        ensures
            final(self).count.spec_value() == old(self).count.spec_value() + 1,
            final(self).count.spec_kind() == old(self).count.spec_kind(),
            final(self).data@ == old(self).data@,
            final(self).sort == old(self).sort,
            final(self).tick_rate == old(self).tick_rate,
            final(self).ticks@ == old(self).ticks@,
    {
        self.count.increment();
    }
}

} // verus!
