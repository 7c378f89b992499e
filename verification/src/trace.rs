//! What a run looks like from the renderer's side: the sequence of ticks it
//! was handed, and the rules that tie each tick to the one before it.

use vstd::prelude::*;
use std::time::Duration;
use crate::cost::operations_counted;
use crate::count::Count;
use crate::error::Error;
use crate::renderer::{duration_of_millis, Renderer};
use crate::script::{played, playing};
use crate::sequence::{
    adjacent_swap, is_non_decreasing, lemma_swap_same_items, same_items, shift_right, swap_of,
};
use crate::sort::SortSnapshot;
use crate::sort_type::SortType;

verus! {

/// How long the closing tick of a finished run is shown, in milliseconds.
pub const FINAL_DELAY: u64 = 5000;

/// The values a snapshot holds.
pub struct SnapshotView {
    pub data: Seq<u64>,
    pub is_sorted: bool,
    pub sort_type: SortType,
    pub count: Count,
}

/// One tick: the snapshot and the pause handed to the renderer, and what
/// the renderer answered.
pub struct Tick {
    pub snapshot: SnapshotView,
    pub pause: Duration,
    pub outcome: Result<(), Error>,
}

/// The snapshot of a run of `sort` is consistent: it names the algorithm,
/// counts in the algorithm's kind, and its flag says whether its data is in order.
pub open spec fn well_formed(sort: SortType, snapshot: SnapshotView) -> bool {
    &&& snapshot.sort_type == sort
    &&& snapshot.count.spec_kind() == sort.spec_count_type()
    &&& snapshot.is_sorted <==> is_non_decreasing(snapshot.data)
}

/// `b` is `a` after one significant operation of `sort`.
///
/// - Bogo: any rearrangement of the whole sequence.
/// - Bubble: two neighbours that were out of order exchanged.
/// - Insertion: the key waiting to be placed may first have been written
///   into its place, then one value moved one place to the right.
/// - Merge: one position written.
/// - Quick: two values exchanged (possibly a value with itself).
pub open spec fn operation(sort: SortType, a: Seq<u64>, b: Seq<u64>) -> bool {
    match sort {
        SortType::Bogo => same_items(a, b),
        SortType::Bubble => exists|j: int|
            0 <= j && j + 1 < a.len() && a[j] > a[j + 1] && b == #[trigger] adjacent_swap(a, j),
        SortType::Insertion => exists|p: int, v: u64, j: int|
            0 <= p < a.len() && 0 < j < a.len() && b == #[trigger] shift_right(a.update(p, v), j),
        SortType::Merge => exists|k: int, v: u64| 0 <= k < a.len() && b == #[trigger] a.update(k, v),
        SortType::Quick => exists|i: int, j: int|
            0 <= i <= j < a.len() && b == #[trigger] swap_of(a, i, j),
    }
}

/// `b` shows what `a` shows, except that insertion sort may have written the
/// key it was holding into its place.
pub open spec fn settled(sort: SortType, a: Seq<u64>, b: Seq<u64>) -> bool {
    ||| b == a
    ||| sort == SortType::Insertion && exists|p: int, v: u64|
        0 <= p < a.len() && b == #[trigger] a.update(p, v)
}

/// The step from one tick of the algorithm to the next: one more operation
/// counted and performed. Quick sort also ticks without an operation when a
/// recursive half returns.
pub open spec fn advances(sort: SortType, a: SnapshotView, b: SnapshotView) -> bool {
    ||| {
        &&& b.count.spec_kind() == a.count.spec_kind()
        &&& b.count.spec_value() == a.count.spec_value() + 1
        &&& operation(sort, a.data, b.data)
    }
    ||| sort == SortType::Quick && b.count == a.count && b.data == a.data
}

/// The step from the last tick of the algorithm to the closing tick: nothing
/// counted, nothing moved but a key that was still to be placed.
pub open spec fn closes(sort: SortType, a: SnapshotView, b: SnapshotView) -> bool {
    b.count == a.count && settled(sort, a.data, b.data)
}

/// Every tick of `ticks` follows from the one before it by one step of `sort`.
pub open spec fn chain(sort: SortType, ticks: Seq<Tick>) -> bool {
    forall|i: int, j: int|
        0 <= i && j == i + 1 && j < ticks.len() ==> advances(
            sort,
            (#[trigger] ticks[i]).snapshot,
            (#[trigger] ticks[j]).snapshot,
        )
}

/// All ticks are consistent snapshots of a run of `sort`.
pub open spec fn all_well_formed(sort: SortType, ticks: Seq<Tick>) -> bool {
    forall|k: int| 0 <= k < ticks.len() ==> well_formed(sort, (#[trigger] ticks[k]).snapshot)
}

/// The renderer accepted every tick of `ticks`.
pub open spec fn all_accepted(ticks: Seq<Tick>) -> bool {
    forall|k: int| 0 <= k < ticks.len() ==> (#[trigger] ticks[k]).outcome is Ok
}

/// Every tick of `ticks` asked for a pause of `rate` milliseconds.
pub open spec fn all_paced(rate: u64, ticks: Seq<Tick>) -> bool {
    forall|k: int| 0 <= k < ticks.len() ==> (#[trigger] ticks[k]).pause == duration_of_millis(rate)
}

/// The tick `t` is a call of `tick` on a renderer of type `R`: the renderer
/// was handed a snapshot that holds what `t` shows and the pause of `t`, and
/// what it answered is the outcome of `t`.
pub open spec fn answered<R: Renderer>(t: Tick) -> bool {
    exists|renderer: &mut R, snapshot: SortSnapshot|
        snapshot@ == t.snapshot && #[trigger] call_ensures(
            R::tick,
            (renderer, snapshot, t.pause),
            t.outcome,
        )
}

/// Every tick of `ticks` is a call of `tick` on a renderer of type `R`.
pub open spec fn all_answered<R: Renderer>(ticks: Seq<Tick>) -> bool {
    forall|k: int| 0 <= k < ticks.len() ==> answered::<R>(#[trigger] ticks[k])
}

/// Data that is in order to begin with is never changed: if the first tick
/// shows a sequence that never steps down, every tick shows that sequence.
pub open spec fn untouched_if_ordered(ticks: Seq<Tick>) -> bool {
    ticks.len() >= 1 && is_non_decreasing(ticks[0].snapshot.data) ==> forall|k: int|
        0 <= k < ticks.len() ==> (#[trigger] ticks[k]).snapshot.data == ticks[0].snapshot.data
}

/// Bogo sort goes on only while the data is out of order: under bogo sort,
/// each of the first `upto` ticks shows data that is not in order.
pub open spec fn searching(sort: SortType, ticks: Seq<Tick>, upto: int) -> bool {
    sort == SortType::Bogo ==> forall|k: int|
        0 <= k < upto && k < ticks.len() ==> !(#[trigger] ticks[k]).snapshot.is_sorted
}

/// The algorithm ran to its end and the closing tick was sent: the ticks
/// before the last are steps of the algorithm, all accepted; the last one
/// shows the sorted rearrangement of the initial data for [`FINAL_DELAY`],
/// with the count the algorithm arrives at on such data, and its outcome is
/// the outcome of the run. The ticks before the last show the whole script
/// of the run.
///
/// Over fewer than two items no algorithm is run: there are the first tick
/// and the closing tick. Over more, quick sort has ticked twice more for
/// every item, once after each half of every range it partitioned, and bogo
/// sort has shown data out of order until the tick before the closing one.
pub open spec fn finished(
    sort: SortType,
    rate: u64,
    initial: Seq<u64>,
    ticks: Seq<Tick>,
    result: Result<(), Error>,
) -> bool {
    &&& ticks.len() >= 2
    &&& chain(sort, ticks.drop_last())
    &&& all_accepted(ticks.drop_last())
    &&& all_paced(rate, ticks.drop_last())
    &&& closes(sort, ticks[ticks.len() - 2].snapshot, ticks.last().snapshot)
    &&& ticks.last().pause == duration_of_millis(FINAL_DELAY)
    &&& is_non_decreasing(ticks.last().snapshot.data)
    &&& same_items(ticks.last().snapshot.data, initial)
    &&& operations_counted(sort, initial, ticks.last().snapshot.count.spec_value() as nat)
    &&& initial.len() <= 1 ==> ticks.len() == 2
    &&& sort == SortType::Quick && initial.len() >= 2 ==> ticks.len()
        == ticks.last().snapshot.count.spec_value() + 2 * initial.len() + 2
    &&& searching(sort, ticks, ticks.len() - 2)
    &&& played(sort, initial, ticks.drop_last())
    &&& result == ticks.last().outcome
}

/// The renderer refused a tick while the algorithm was running: every tick
/// is a step of the algorithm, the ticks show what the script of the run
/// begins with, the last one is the only one refused, and the run ends
/// with what the renderer answered there.
pub open spec fn stopped(
    sort: SortType,
    rate: u64,
    initial: Seq<u64>,
    ticks: Seq<Tick>,
    result: Result<(), Error>,
) -> bool {
    &&& ticks.len() >= 1
    &&& playing(sort, initial, ticks)
    &&& chain(sort, ticks)
    &&& all_accepted(ticks.drop_last())
    &&& all_paced(rate, ticks)
    &&& searching(sort, ticks, ticks.len() - 1)
    &&& ticks.last().outcome is Err
    &&& result == ticks.last().outcome
}

/// Bogo sort gave up: every shuffle so far was shown and accepted, the data
/// is still out of order, and the counter cannot count another shuffle.
pub open spec fn exhausted(
    sort: SortType,
    rate: u64,
    ticks: Seq<Tick>,
    result: Result<(), Error>,
) -> bool {
    &&& sort == SortType::Bogo
    &&& ticks.len() >= 1
    &&& chain(sort, ticks)
    &&& all_accepted(ticks)
    &&& all_paced(rate, ticks)
    &&& searching(sort, ticks, ticks.len() - 1)
    &&& !is_non_decreasing(ticks.last().snapshot.data)
    &&& ticks.last().snapshot.count.spec_value() == usize::MAX
    &&& result == Err::<(), Error>(Error::CountExhausted)
}

/// `ticks` is what the renderer was handed, in order, by one run of `sort`
/// over `initial` at `rate` milliseconds per tick, and `result` is how that
/// run ended.
///
/// The first tick shows the initial data with a count of zero. After it the
/// run either finished, was stopped by the renderer, or (bogo sort only)
/// ran out of counter. Data that was in order to begin with is shown
/// unchanged throughout.
pub open spec fn is_run(
    sort: SortType,
    rate: u64,
    initial: Seq<u64>,
    ticks: Seq<Tick>,
    result: Result<(), Error>,
) -> bool {
    &&& ticks.len() >= 1
    &&& ticks[0].snapshot.data == initial
    &&& ticks[0].snapshot.count.spec_value() == 0
    &&& all_well_formed(sort, ticks)
    &&& untouched_if_ordered(ticks)
    &&& initial.len() <= 1 ==> ticks.len() <= 2
    &&& {
        ||| finished(sort, rate, initial, ticks, result)
        ||| stopped(sort, rate, initial, ticks, result)
        ||| exhausted(sort, rate, ticks, result)
    }
}

/// Whether `sort` only ever rearranges the sequence: bogo, bubble and quick
/// sort do; insertion and merge sort overwrite values they hold elsewhere.
pub open spec fn rearranges_only(sort: SortType) -> bool {
    sort == SortType::Bogo || sort == SortType::Bubble || sort == SortType::Quick
}

/// One step of an algorithm that only rearranges keeps the values.
proof fn lemma_step_keeps_items(sort: SortType, a: SnapshotView, b: SnapshotView)
    requires
        rearranges_only(sort),
        advances(sort, a, b) || closes(sort, a, b),
    ensures
        same_items(b.data, a.data),
{
    if b.data != a.data {
        if sort == SortType::Bubble {
            let j = choose|j: int|
                0 <= j && j + 1 < a.data.len() && a.data[j] > a.data[j + 1] && b.data
                    == #[trigger] adjacent_swap(a.data, j);
            lemma_swap_same_items(a.data, j, j + 1);
        } else if sort == SortType::Quick {
            let (i, j) = choose|i: int, j: int|
                0 <= i <= j < a.data.len() && b.data == #[trigger] swap_of(a.data, i, j);
            lemma_swap_same_items(a.data, i, j);
        }
    }
}

/// Along a chain of steps of an algorithm that only rearranges, every tick
/// shows the values of the first.
proof fn lemma_chain_keeps_items(sort: SortType, ticks: Seq<Tick>, k: int)
    requires
        rearranges_only(sort),
        chain(sort, ticks),
        0 <= k < ticks.len(),
    ensures
        same_items(ticks[k].snapshot.data, ticks[0].snapshot.data),
    decreases k,
{
    if k > 0 {
        lemma_chain_keeps_items(sort, ticks, k - 1);
        assert(advances(sort, ticks[k - 1].snapshot, ticks[k].snapshot));
        lemma_step_keeps_items(sort, ticks[k - 1].snapshot, ticks[k].snapshot);
    }
}

/// Along a chain of steps the count at tick `k` is at most `k` more than at
/// the first tick, and for every algorithm but quick sort exactly `k` more.
proof fn lemma_chain_counts(sort: SortType, ticks: Seq<Tick>, k: int)
    requires
        chain(sort, ticks),
        0 <= k < ticks.len(),
    ensures
        ticks[k].snapshot.count.spec_value() <= ticks[0].snapshot.count.spec_value() + k,
        sort != SortType::Quick ==> ticks[k].snapshot.count.spec_value()
            == ticks[0].snapshot.count.spec_value() + k,
        ticks[k].snapshot.count.spec_value() >= ticks[0].snapshot.count.spec_value(),
    decreases k,
{
    if k > 0 {
        lemma_chain_counts(sort, ticks, k - 1);
        assert(advances(sort, ticks[k - 1].snapshot, ticks[k].snapshot));
    }
}

/// With a renderer that accepts every tick, a run ends on the sorted
/// rearrangement of the initial data, shown for [`FINAL_DELAY`]
/// milliseconds, and succeeds; only bogo sort can instead fill its counter
/// first.
pub proof fn lemma_accepted_run_sorts(
    sort: SortType,
    rate: u64,
    initial: Seq<u64>,
    ticks: Seq<Tick>,
    result: Result<(), Error>,
)
    requires
        is_run(sort, rate, initial, ticks, result),
        all_accepted(ticks),
    ensures
        sort != SortType::Bogo ==> result is Ok,
        result is Ok ==> {
            &&& is_non_decreasing(ticks.last().snapshot.data)
            &&& same_items(ticks.last().snapshot.data, initial)
            &&& ticks.last().pause == duration_of_millis(FINAL_DELAY)
        },
        result is Err ==> exhausted(sort, rate, ticks, result),
{
    assert(ticks.last().outcome is Ok);
}

/// A run that succeeds has shown, last of all, the sorted rearrangement of
/// the initial data with the count that belongs to it, whatever the
/// algorithm, and no tick of it was refused.
pub proof fn lemma_success_is_sorted(
    sort: SortType,
    rate: u64,
    initial: Seq<u64>,
    ticks: Seq<Tick>,
    result: Result<(), Error>,
)
    requires
        is_run(sort, rate, initial, ticks, result),
        result is Ok,
    ensures
        is_non_decreasing(ticks.last().snapshot.data),
        same_items(ticks.last().snapshot.data, initial),
        ticks.last().snapshot.is_sorted,
        operations_counted(sort, initial, ticks.last().snapshot.count.spec_value() as nat),
        all_accepted(ticks),
{
    assert(finished(sort, rate, initial, ticks, result));
    assert forall|k: int| 0 <= k < ticks.len() implies (#[trigger] ticks[k]).outcome is Ok by {
        if k < ticks.len() - 1 {
            assert(ticks[k] == ticks.drop_last()[k]);
        }
    }
}

/// Every snapshot of a run holds the values of the initial data, each as
/// often as the initial data does, under bogo, bubble and quick sort, which
/// only rearrange, and under every algorithm when the initial data is in
/// order already. (Insertion and merge sort, at work on data out of order,
/// show values twice while they hold others outside the sequence.)
pub proof fn lemma_snapshots_keep_items(
    sort: SortType,
    rate: u64,
    initial: Seq<u64>,
    ticks: Seq<Tick>,
    result: Result<(), Error>,
    k: int,
)
    requires
        is_run(sort, rate, initial, ticks, result),
        rearranges_only(sort) || is_non_decreasing(initial),
        0 <= k < ticks.len(),
    ensures
        same_items(ticks[k].snapshot.data, initial),
{
    if is_non_decreasing(initial) {
        assert(ticks[k].snapshot.data == ticks[0].snapshot.data);
    } else if finished(sort, rate, initial, ticks, result) {
        let body = ticks.drop_last();
        if k < body.len() {
            lemma_chain_keeps_items(sort, body, k);
            assert(body[k] == ticks[k]);
            assert(body[0] == ticks[0]);
        }
    } else {
        lemma_chain_keeps_items(sort, ticks, k);
    }
}

/// The flag of every snapshot of a run says whether its data is in order.
pub proof fn lemma_flag_tells_order(
    sort: SortType,
    rate: u64,
    initial: Seq<u64>,
    ticks: Seq<Tick>,
    result: Result<(), Error>,
    k: int,
)
    requires
        is_run(sort, rate, initial, ticks, result),
        0 <= k < ticks.len(),
    ensures
        ticks[k].snapshot.is_sorted <==> is_non_decreasing(ticks[k].snapshot.data),
{
    assert(well_formed(sort, ticks[k].snapshot));
}

/// The count a snapshot shows is the number of operations performed before
/// it: tick `k` of the algorithm shows a count of `k`, and the closing tick
/// repeats the count of the tick before it. Quick sort, which also ticks
/// without an operation, shows at most that.
pub proof fn lemma_count_is_operations(
    sort: SortType,
    rate: u64,
    initial: Seq<u64>,
    ticks: Seq<Tick>,
    result: Result<(), Error>,
    k: int,
)
    requires
        is_run(sort, rate, initial, ticks, result),
        0 <= k < ticks.len(),
    ensures
        ticks[k].snapshot.count.spec_value() <= k,
        sort != SortType::Quick && k < ticks.len() - 1 ==> ticks[k].snapshot.count.spec_value() == k,
        sort != SortType::Quick && k == ticks.len() - 1 ==> {
            ||| ticks[k].snapshot.count.spec_value() == k
            ||| k >= 1 && ticks[k].snapshot.count.spec_value() == k - 1 && finished(
                sort,
                rate,
                initial,
                ticks,
                result,
            )
        },
{
    if finished(sort, rate, initial, ticks, result) {
        let body = ticks.drop_last();
        assert(body[0] == ticks[0]);
        if k < body.len() {
            lemma_chain_counts(sort, body, k);
            assert(body[k] == ticks[k]);
        } else {
            lemma_chain_counts(sort, body, k - 1);
            assert(body[k - 1] == ticks[k - 1]);
        }
    } else {
        lemma_chain_counts(sort, ticks, k);
    }
}

/// A run over fewer than two items that succeeds is its first tick and its
/// closing tick: both show the data as it was given, and nothing is counted.
pub proof fn lemma_short_run_only_opens_and_closes(
    sort: SortType,
    rate: u64,
    initial: Seq<u64>,
    ticks: Seq<Tick>,
    result: Result<(), Error>,
)
    requires
        is_run(sort, rate, initial, ticks, result),
        initial.len() <= 1,
        result is Ok,
    ensures
        ticks.len() == 2,
        ticks[0].snapshot.data == initial,
        ticks[1].snapshot.data == initial,
        ticks[0].snapshot.count.spec_value() == 0,
        ticks[1].snapshot.count.spec_value() == 0,
{
}

/// Bogo sort over data in order that succeeds shuffles nothing: the run is
/// its first tick and its closing tick, and nothing is counted.
pub proof fn lemma_bogo_leaves_order_alone(
    rate: u64,
    initial: Seq<u64>,
    ticks: Seq<Tick>,
    result: Result<(), Error>,
)
    requires
        is_run(SortType::Bogo, rate, initial, ticks, result),
        is_non_decreasing(initial),
        result is Ok,
    ensures
        ticks.len() == 2,
        ticks[1].snapshot.data == initial,
        ticks[1].snapshot.count.spec_value() == 0,
{
    lemma_count_is_operations(SortType::Bogo, rate, initial, ticks, result, ticks.len() - 1);
}

/// Under bogo sort, a tick that shows data in order is the last tick of the
/// algorithm: only the closing tick can follow it.
pub proof fn lemma_bogo_stops_at_order(
    rate: u64,
    initial: Seq<u64>,
    ticks: Seq<Tick>,
    result: Result<(), Error>,
    k: int,
)
    requires
        is_run(SortType::Bogo, rate, initial, ticks, result),
        0 <= k < ticks.len(),
        is_non_decreasing(ticks[k].snapshot.data),
    ensures
        k >= ticks.len() - 2,
{
    assert(well_formed(SortType::Bogo, ticks[k].snapshot));
}

/// The tick the renderer refuses is the last one of the run, and the run
/// ends with what the renderer answered there: nothing is shown after a
/// refusal.
pub proof fn lemma_refusal_ends_run(
    sort: SortType,
    rate: u64,
    initial: Seq<u64>,
    ticks: Seq<Tick>,
    result: Result<(), Error>,
    k: int,
)
    requires
        is_run(sort, rate, initial, ticks, result),
        0 <= k < ticks.len(),
        ticks[k].outcome is Err,
    ensures
        k == ticks.len() - 1,
        result == ticks[k].outcome,
{
    if k < ticks.len() - 1 {
        assert(ticks.drop_last()[k] == ticks[k]);
    }
}

} // verus!
