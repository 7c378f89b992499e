//! What each algorithm shows, tick by tick, as a function of the data it
//! starts from.

use vstd::prelude::*;
use crate::sequence::{adjacent_swap, same_outside, swap_of};
use crate::sort_type::SortType;
use crate::trace::Tick;

verus! {

/// What one tick shows of the run: the data and the count.
pub struct Shown {
    pub data: Seq<u64>,
    pub count: nat,
}

/// What `ticks` show, tick by tick.
pub open spec fn shown_by(ticks: Seq<Tick>) -> Seq<Shown> {
    Seq::new(
        ticks.len(),
        |k: int| Shown { data: ticks[k].snapshot.data, count: ticks[k].snapshot.count.spec_value() as nat },
    )
}

/// What bubble sort goes on to show from where it stands: in pass `i`, about
/// to look at the neighbours at `j` and `j + 1`, with `swapped` saying
/// whether the pass has exchanged anything yet, `count` exchanges counted.
/// A pair out of order is exchanged, counted and shown. A pass ends when it
/// has looked at all but the last `i` values; the next one follows if the
/// pass exchanged anything, and there are passes for all values but one.
pub open spec fn bubble_rest(s: Seq<u64>, count: nat, i: int, j: int, swapped: bool) -> Seq<Shown>
    decreases s.len() - i, s.len() - i - j,
{
    if i < 0 || j < 0 || i >= s.len() - 1 {
        Seq::empty()
    } else if j < s.len() - i - 1 {
        if s[j] > s[j + 1] {
            let exchanged = adjacent_swap(s, j);
            seq![Shown { data: exchanged, count: count + 1 }] + bubble_rest(
                exchanged,
                count + 1,
                i,
                j + 1,
                true,
            )
        } else {
            bubble_rest(s, count, i, j + 1, swapped)
        }
    } else if swapped {
        bubble_rest(s, count, i + 1, 0, false)
    } else {
        Seq::empty()
    }
}

/// What insertion sort goes on to show from where it stands: the value that
/// stood at `i` is held as `key`, the values before `i` are in order, and
/// the gap has reached `j`. While the value before the gap is larger than
/// the key it moves one place to the right, which is counted and shown.
/// Then the key is written into the gap, without a tick, and the value
/// after `i` is taken up as the next key.
pub open spec fn insertion_rest(s: Seq<u64>, count: nat, i: int, j: int, key: u64) -> Seq<Shown>
    decreases s.len() - i, j,
{
    if i < 1 || i >= s.len() || j < 0 || j > i {
        Seq::empty()
    } else if j > 0 && s[j - 1] > key {
        let shifted = s.update(j, s[j - 1]);
        seq![Shown { data: shifted, count: count + 1 }] + insertion_rest(
            shifted,
            count + 1,
            i,
            j - 1,
            key,
        )
    } else {
        let placed = s.update(j, key);
        insertion_rest(placed, count, i + 1, i + 1, placed[i + 1])
    }
}

/// What a merge goes on to show from where it stands, and the data it
/// leaves: `first` and `second` are the two sorted runs it merges, `i` and
/// `j` how many values of each are written back, and `k` the place the next
/// value goes to. The smaller head is written, the head of `first` where
/// they are equal, and where one run is used up the other is written out.
/// Every value written is counted and shown.
pub open spec fn merge_rest(
    s: Seq<u64>,
    count: nat,
    first: Seq<u64>,
    second: Seq<u64>,
    i: int,
    j: int,
    k: int,
) -> (Seq<u64>, Seq<Shown>)
    decreases first.len() - i + second.len() - j,
{
    if i < 0 || j < 0 || i > first.len() || j > second.len() {
        (s, Seq::empty())
    } else if i < first.len() && (j >= second.len() || first[i] <= second[j]) {
        let written = s.update(k, first[i]);
        let (end, rest) = merge_rest(written, count + 1, first, second, i + 1, j, k + 1);
        (end, seq![Shown { data: written, count: count + 1 }] + rest)
    } else if j < second.len() {
        let written = s.update(k, second[j]);
        let (end, rest) = merge_rest(written, count + 1, first, second, i, j + 1, k + 1);
        (end, seq![Shown { data: written, count: count + 1 }] + rest)
    } else {
        (s, Seq::empty())
    }
}

/// What merge sort of `s[left..right]` shows, the data it leaves and the
/// count it arrives at: a range of two values or more is split at
/// `left + (right - left) / 2`, its first part is sorted, then its second,
/// and the two are merged.
pub open spec fn merge_sort_rest(s: Seq<u64>, count: nat, left: int, right: int) -> (
    Seq<u64>,
    nat,
    Seq<Shown>,
)
    decreases right - left,
{
    if right - left <= 1 {
        (s, count, Seq::empty())
    } else {
        let mid = left + (right - left) / 2;
        let (low, low_count, low_shown) = merge_sort_rest(s, count, left, mid);
        let (high, high_count, high_shown) = merge_sort_rest(low, low_count, mid, right);
        let (merged, merge_shown) = merge_rest(
            high,
            high_count,
            high.subrange(left, mid),
            high.subrange(mid, right),
            0,
            0,
            left,
        );
        (merged, high_count + (right - left) as nat, low_shown + high_shown + merge_shown)
    }
}

/// What a partition goes on to show from where it stands, the data it
/// leaves, the place of the pivot and the count it arrives at: the values
/// from `j` up to `stop` are looked at in turn, and each one that is no
/// larger than `pivot` is exchanged into place `i`, which then moves on; at
/// `stop`, where the pivot stands, the pivot is exchanged into place `i`.
/// Every exchange is counted and shown.
pub open spec fn partition_rest(s: Seq<u64>, count: nat, pivot: u64, i: int, j: int, stop: int) -> (
    Seq<u64>,
    int,
    nat,
    Seq<Shown>,
)
    decreases stop - j,
{
    if j >= stop {
        let placed = swap_of(s, i, stop);
        (placed, i, count + 1, seq![Shown { data: placed, count: count + 1 }])
    } else if s[j] <= pivot {
        let exchanged = swap_of(s, i, j);
        let (end, place, arrived, rest) = partition_rest(
            exchanged,
            count + 1,
            pivot,
            i + 1,
            j + 1,
            stop,
        );
        (end, place, arrived, seq![Shown { data: exchanged, count: count + 1 }] + rest)
    } else {
        partition_rest(s, count, pivot, i, j + 1, stop)
    }
}

/// What quick sort of `s[start..end]` shows, the data it leaves and the
/// count it arrives at: a range that is not empty is partitioned around its
/// last value, the part before the pivot is sorted and the state shown,
/// then the part after the pivot is sorted and the state shown.
pub open spec fn quick_rest(s: Seq<u64>, count: nat, start: int, end: int) -> (
    Seq<u64>,
    nat,
    Seq<Shown>,
)
    decreases end - start,
{
    if start >= end {
        (s, count, Seq::empty())
    } else {
        let (split, pivot, split_count, split_shown) = partition_rest(
            s,
            count,
            s[end - 1],
            start,
            start,
            end - 1,
        );
        if start <= pivot < end {
            let (low, low_count, low_shown) = quick_rest(split, split_count, start, pivot);
            let (high, high_count, high_shown) = quick_rest(low, low_count, pivot + 1, end);
            (
                high,
                high_count,
                split_shown + low_shown + seq![Shown { data: low, count: low_count }] + high_shown
                    + seq![Shown { data: high, count: high_count }],
            )
        } else {
            (s, count, Seq::empty())
        }
    }
}

/// What a run of `sort` over `initial` shows before its closing tick, where
/// that is a function of the data: first the initial data with a count of
/// zero and then, over two items or more, every step of the algorithm.
/// What bogo sort shows is for chance to decide.
pub open spec fn script(sort: SortType, initial: Seq<u64>) -> Option<Seq<Shown>> {
    let opening = seq![Shown { data: initial, count: 0 }];
    if initial.len() <= 1 {
        Some(opening)
    } else {
        match sort {
            SortType::Bubble => Some(opening + bubble_rest(initial, 0, 0, 0, false)),
            SortType::Insertion => Some(opening + insertion_rest(initial, 0, 1, 1, initial[1])),
            SortType::Merge => Some(opening + merge_sort_rest(initial, 0, 0, initial.len() as int).2),
            SortType::Quick => Some(opening + quick_rest(initial, 0, 0, initial.len() as int).2),
            SortType::Bogo => None,
        }
    }
}

/// The ticks of a run that got to its closing tick showed, before it, all
/// that the script of the run holds.
pub open spec fn played(sort: SortType, initial: Seq<u64>, ticks: Seq<Tick>) -> bool {
    script(sort, initial) matches Some(all) ==> shown_by(ticks) == all
}

/// The ticks of a run that was stopped showed what the script of the run
/// begins with.
pub open spec fn playing(sort: SortType, initial: Seq<u64>, ticks: Seq<Tick>) -> bool {
    script(sort, initial) matches Some(all) ==> shown_by(ticks).is_prefix_of(all)
}

/// What was shown so far begins whatever it is followed by.
pub proof fn lemma_begins(shown: Seq<Shown>, rest: Seq<Shown>)
    ensures
        shown.is_prefix_of(shown + rest),
{
    assert(shown =~= (shown + rest).subrange(0, shown.len() as int));
}

/// What begins a script begins every longer script.
pub proof fn lemma_begins_longer(shown: Seq<Shown>, all: Seq<Shown>, more: Seq<Shown>)
    requires
        shown.is_prefix_of(all),
    ensures
        shown.is_prefix_of(all + more),
{
    assert(shown =~= (all + more).subrange(0, shown.len() as int));
}

/// What begins a part of what is still to come begins all of it.
pub proof fn lemma_begins_part(
    shown: Seq<Shown>,
    base: Seq<Shown>,
    part: Seq<Shown>,
    all: Seq<Shown>,
)
    requires
        shown.is_prefix_of(base + part),
        part.is_prefix_of(all),
    ensures
        shown.is_prefix_of(base + all),
{
    assert(shown =~= (base + all).subrange(0, shown.len() as int)) by {
        assert forall|k: int| 0 <= k < shown.len() implies shown[k] == (base + all)[k] by {
            assert(shown[k] == (base + part).subrange(0, shown.len() as int)[k]);
            if k >= base.len() {
                assert(part[k - base.len()] == all.subrange(0, part.len() as int)[k - base.len()]);
            }
        }
    }
}

/// A partition puts the pivot between where it starts and where the pivot
/// stood.
pub proof fn lemma_partition_place(s: Seq<u64>, count: nat, pivot: u64, i: int, j: int, stop: int)
    requires
        i <= j <= stop,
    ensures
        i <= partition_rest(s, count, pivot, i, j, stop).1 <= stop,
    decreases stop - j,
{
    if j < stop {
        if s[j] <= pivot {
            lemma_partition_place(swap_of(s, i, j), count + 1, pivot, i + 1, j + 1, stop);
        } else {
            lemma_partition_place(s, count, pivot, i, j + 1, stop);
        }
    }
}

/// The stages of quick sort over a range that is not empty, each a
/// beginning of what the whole shows: the partition; then the part before
/// the pivot; then the state as that leaves it; then the part after the
/// pivot; then the state at the end.
pub proof fn lemma_quick_stages(s: Seq<u64>, count: nat, start: int, end: int)
    requires
        start < end,
    ensures
        ({
            let parting = partition_rest(s, count, s[end - 1], start, start, end - 1);
            let lower = quick_rest(parting.0, parting.2, start, parting.1);
            let upper = quick_rest(lower.0, lower.1, parting.1 + 1, end);
            let half = parting.3 + lower.2 + seq![Shown { data: lower.0, count: lower.1 }];
            let all = quick_rest(s, count, start, end);
            &&& all.0 == upper.0
            &&& all.1 == upper.1
            &&& all.2 == half + upper.2 + seq![Shown { data: upper.0, count: upper.1 }]
            &&& parting.3.is_prefix_of(all.2)
            &&& (parting.3 + lower.2).is_prefix_of(all.2)
            &&& half.is_prefix_of(all.2)
            &&& (half + upper.2).is_prefix_of(all.2)
        }),
{
    lemma_partition_place(s, count, s[end - 1], start, start, end - 1);
    let parting = partition_rest(s, count, s[end - 1], start, start, end - 1);
    let lower = quick_rest(parting.0, parting.2, start, parting.1);
    let upper = quick_rest(lower.0, lower.1, parting.1 + 1, end);
    let turn = seq![Shown { data: lower.0, count: lower.1 }];
    let close = seq![Shown { data: upper.0, count: upper.1 }];
    let half = parting.3 + lower.2 + turn;
    let all = quick_rest(s, count, start, end);
    assert(all.2 == half + upper.2 + close);
    lemma_begins(half + upper.2, close);
    lemma_begins(half, upper.2);
    lemma_begins_longer(half, half + upper.2, close);
    lemma_begins(parting.3 + lower.2, turn);
    lemma_begins_longer(parting.3 + lower.2, half, upper.2);
    lemma_begins_longer(parting.3 + lower.2, half + upper.2, close);
    lemma_begins(parting.3, lower.2);
    lemma_begins_longer(parting.3, parting.3 + lower.2, turn);
    lemma_begins_longer(parting.3, half, upper.2);
    lemma_begins_longer(parting.3, half + upper.2, close);
}

/// What is left alone through one change and then another, the second
/// within the stretch of the first, is left alone through both.
proof fn lemma_left_alone(a: Seq<u64>, b: Seq<u64>, c: Seq<u64>, lo: int, hi: int, l: int, h: int)
    requires
        same_outside(a, b, lo, hi),
        same_outside(b, c, l, h),
        lo <= l,
        h <= hi,
    ensures
        same_outside(a, c, lo, hi),
{
    assert forall|x: int| 0 <= x < a.len() && !(lo <= x < hi) implies #[trigger] a[x] == #[trigger] c[x] by {
        assert(a[x] == b[x]);
        assert(b[x] == c[x]);
    }
}

/// A partition changes nothing outside the range it partitions, in what it
/// leaves and in all it shows.
pub proof fn lemma_partition_keeps_outside(
    s: Seq<u64>,
    count: nat,
    pivot: u64,
    i: int,
    j: int,
    stop: int,
    lo: int,
    hi: int,
)
    requires
        0 <= lo <= i <= j <= stop < hi <= s.len(),
    ensures
        same_outside(s, partition_rest(s, count, pivot, i, j, stop).0, lo, hi),
        forall|k: int|
            0 <= k < partition_rest(s, count, pivot, i, j, stop).3.len() ==> same_outside(
                s,
                (#[trigger] partition_rest(s, count, pivot, i, j, stop).3[k]).data,
                lo,
                hi,
            ),
    decreases stop - j,
{
    let all = partition_rest(s, count, pivot, i, j, stop);
    if j >= stop {
        assert(same_outside(s, swap_of(s, i, stop), lo, hi));
    } else if s[j] <= pivot {
        let exchanged = swap_of(s, i, j);
        let rest = partition_rest(exchanged, count + 1, pivot, i + 1, j + 1, stop);
        assert(same_outside(s, exchanged, lo, hi));
        lemma_partition_keeps_outside(exchanged, count + 1, pivot, i + 1, j + 1, stop, lo, hi);
        lemma_left_alone(s, exchanged, rest.0, lo, hi, lo, hi);
        assert forall|k: int| 0 <= k < all.3.len() implies same_outside(
            s,
            (#[trigger] all.3[k]).data,
            lo,
            hi,
        ) by {
            if k > 0 {
                assert(all.3[k] == rest.3[k - 1]);
                lemma_left_alone(s, exchanged, rest.3[k - 1].data, lo, hi, lo, hi);
            }
        }
    } else {
        lemma_partition_keeps_outside(s, count, pivot, i, j + 1, stop, lo, hi);
    }
}

/// Quick sort of a range changes nothing outside the range, in what it
/// leaves and in all it shows.
pub proof fn lemma_quick_keeps_outside(s: Seq<u64>, count: nat, start: int, end: int)
    requires
        0 <= start <= end <= s.len(),
    ensures
        same_outside(s, quick_rest(s, count, start, end).0, start, end),
        forall|k: int|
            0 <= k < quick_rest(s, count, start, end).2.len() ==> same_outside(
                s,
                (#[trigger] quick_rest(s, count, start, end).2[k]).data,
                start,
                end,
            ),
    decreases end - start,
{
    if start < end {
        lemma_quick_stages(s, count, start, end);
        lemma_partition_place(s, count, s[end - 1], start, start, end - 1);
        lemma_partition_keeps_outside(s, count, s[end - 1], start, start, end - 1, start, end);
        let parting = partition_rest(s, count, s[end - 1], start, start, end - 1);
        let place = parting.1;
        lemma_quick_keeps_outside(parting.0, parting.2, start, place);
        let lower = quick_rest(parting.0, parting.2, start, place);
        lemma_left_alone(s, parting.0, lower.0, start, end, start, place);
        lemma_quick_keeps_outside(lower.0, lower.1, place + 1, end);
        let upper = quick_rest(lower.0, lower.1, place + 1, end);
        lemma_left_alone(s, lower.0, upper.0, start, end, place + 1, end);
        let all = quick_rest(s, count, start, end);
        let a = parting.3.len() as int;
        let b = a + lower.2.len();
        let c = b + 1 + upper.2.len();
        assert forall|k: int| 0 <= k < all.2.len() implies same_outside(
            s,
            (#[trigger] all.2[k]).data,
            start,
            end,
        ) by {
            if k < a {
                assert(all.2[k] == parting.3[k]);
            } else if k < b {
                assert(all.2[k] == lower.2[k - a]);
                lemma_left_alone(s, parting.0, lower.2[k - a].data, start, end, start, place);
            } else if k == b {
                assert(all.2[k].data == lower.0);
            } else if k < c {
                assert(all.2[k] == upper.2[k - b - 1]);
                lemma_left_alone(s, lower.0, upper.2[k - b - 1].data, start, end, place + 1, end);
            } else {
                assert(all.2[k].data == upper.0);
            }
        }
    }
}

/// Once a partition has put the pivot in its place, quick sort of the range
/// never moves it again: everything shown after the partition holds at the
/// pivot's place what the partition left there, and neither part that is
/// sorted afterwards takes in that place.
pub proof fn lemma_pivot_stays(s: Seq<u64>, count: nat, start: int, end: int, k: int)
    requires
        0 <= start < end <= s.len(),
        partition_rest(s, count, s[end - 1], start, start, end - 1).3.len() <= k < quick_rest(
            s,
            count,
            start,
            end,
        ).2.len(),
    ensures
        ({
            let parting = partition_rest(s, count, s[end - 1], start, start, end - 1);
            &&& start <= parting.1 < end
            &&& quick_rest(s, count, start, end).2[k].data[parting.1] == parting.0[parting.1]
        }),
{
    lemma_quick_stages(s, count, start, end);
    lemma_partition_place(s, count, s[end - 1], start, start, end - 1);
    lemma_partition_keeps_outside(s, count, s[end - 1], start, start, end - 1, start, end);
    let parting = partition_rest(s, count, s[end - 1], start, start, end - 1);
    let place = parting.1;
    lemma_quick_keeps_outside(parting.0, parting.2, start, place);
    let lower = quick_rest(parting.0, parting.2, start, place);
    lemma_quick_keeps_outside(lower.0, lower.1, place + 1, end);
    let upper = quick_rest(lower.0, lower.1, place + 1, end);
    let all = quick_rest(s, count, start, end);
    let a = parting.3.len() as int;
    let b = a + lower.2.len();
    let c = b + 1 + upper.2.len();
    assert(lower.0[place] == parting.0[place]);
    assert(upper.0[place] == lower.0[place]);
    if k < b {
        assert(all.2[k] == lower.2[k - a]);
        assert(lower.2[k - a].data[place] == parting.0[place]);
    } else if k == b {
        assert(all.2[k].data == lower.0);
    } else if k < c {
        assert(all.2[k] == upper.2[k - b - 1]);
        assert(upper.2[k - b - 1].data[place] == lower.0[place]);
    } else {
        assert(all.2[k].data == upper.0);
    }
}

/// One more tick shows one more state.
pub proof fn lemma_shown_push(ticks: Seq<Tick>, t: Tick)
    ensures
        shown_by(ticks.push(t)) == shown_by(ticks).push(
            Shown { data: t.snapshot.data, count: t.snapshot.count.spec_value() as nat },
        ),
{
    assert(shown_by(ticks.push(t)) =~= shown_by(ticks).push(
        Shown { data: t.snapshot.data, count: t.snapshot.count.spec_value() as nat },
    ));
}

} // verus!
