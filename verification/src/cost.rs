//! How many operations a run counts, as a function of the data it starts from.

use vstd::prelude::*;
use crate::script::quick_rest;
use crate::sequence::{adjacent_swap, is_non_decreasing, ordered_between, swap_of};
use crate::sort_type::SortType;

verus! {

/// The number of values of `s` that are larger than `v`.
pub open spec fn count_above(s: Seq<u64>, v: u64) -> nat
    decreases s.len(),
{
    if s.len() == 0 {
        0
    } else {
        count_above(s.drop_last(), v) + if s.last() > v {
            1nat
        } else {
            0nat
        }
    }
}

/// The number of pairs of places of `s` whose values stand in the wrong
/// order: the larger one first.
pub open spec fn inversions(s: Seq<u64>) -> nat
    decreases s.len(),
{
    if s.len() == 0 {
        0
    } else {
        inversions(s.drop_last()) + count_above(s.drop_last(), s.last())
    }
}

/// The number of values merge sort writes while sorting `m` items: every
/// merge writes each value of its range once, and a range of `m` items is
/// split into its first `m / 2` and the rest.
pub open spec fn merge_writes(m: nat) -> nat
    decreases m,
{
    if m <= 1 {
        0
    } else {
        merge_writes(m / 2) + merge_writes((m - m / 2) as nat) + m
    }
}

/// What a finished run of `sort` over `initial` has counted.
///
/// Fewer than two items are in order as they stand: no algorithm is run
/// over them and nothing is counted. Over two items or more:
///
/// - Bubble and insertion sort: one per pair that stood in the wrong order.
/// - Merge sort: one per value written, which depends on the length alone.
/// - Quick sort: one per exchange of [`quick_rest`], which is at least
///   one per item, the exchange that puts it in place as a pivot, and at
///   most one per item of every range that is partitioned.
/// - Bogo sort: one per shuffle, which chance decides; none exactly when the
///   data was in order to begin with.
pub open spec fn operations_counted(sort: SortType, initial: Seq<u64>, count: nat) -> bool {
    if initial.len() <= 1 {
        count == 0
    } else {
        match sort {
            SortType::Bogo => is_non_decreasing(initial) <==> count == 0,
            SortType::Bubble | SortType::Insertion => count == inversions(initial),
            SortType::Merge => count == merge_writes(initial.len()),
            SortType::Quick => {
                &&& count == quick_rest(initial, 0, 0, initial.len() as int).1
                &&& initial.len() <= count
                &&& 2 * count <= initial.len() * (initial.len() + 1)
            },
        }
    }
}

/// Merge sort never writes more than `m * m` values while sorting `m` items.
pub proof fn lemma_merge_writes_bound(m: nat)
    ensures
        merge_writes(m) <= m * m,
    decreases m,
{
    if m > 1 {
        let a = m / 2;
        let b = (m - m / 2) as nat;
        lemma_merge_writes_bound(a);
        lemma_merge_writes_bound(b);
        assert(a * a + b * b + (a + b) <= (a + b) * (a + b)) by (nonlinear_arith)
            requires
                a >= 1,
                b >= 1,
        ;
    }
}

/// Replacing one value changes the number of values above `v` by what the
/// old and the new value contribute.
pub proof fn lemma_count_above_update(s: Seq<u64>, i: int, x: u64, v: u64)
    requires
        0 <= i < s.len(),
    ensures
        count_above(s.update(i, x), v) + (if s[i] > v {
            1nat
        } else {
            0nat
        }) == count_above(s, v) + (if x > v {
            1nat
        } else {
            0nat
        }),
    decreases s.len(),
{
    let t = s.update(i, x);
    if i == s.len() - 1 {
        assert(t.drop_last() =~= s.drop_last());
    } else {
        assert(t.drop_last() =~= s.drop_last().update(i, x));
        lemma_count_above_update(s.drop_last(), i, x, v);
    }
}

/// Exchanging two values leaves the number of values above `v` as it was.
pub proof fn lemma_count_above_swap(s: Seq<u64>, i: int, j: int, v: u64)
    requires
        0 <= i < s.len(),
        0 <= j < s.len(),
    ensures
        count_above(swap_of(s, i, j), v) == count_above(s, v),
{
    let mid = s.update(i, s[j]);
    lemma_count_above_update(s, i, s[j], v);
    lemma_count_above_update(mid, j, s[i], v);
    if i == j {
        assert(swap_of(s, i, j) =~= s);
    }
}

/// Exchanging two neighbours that stand in the wrong order removes exactly
/// one inversion.
pub proof fn lemma_adjacent_swap_inversions(s: Seq<u64>, j: int)
    requires
        0 <= j,
        j + 1 < s.len(),
        s[j] > s[j + 1],
    ensures
        inversions(adjacent_swap(s, j)) + 1 == inversions(s),
    decreases s.len(),
{
    let t = adjacent_swap(s, j);
    let n = s.len() as int;
    if j + 1 < n - 1 {
        assert(t.drop_last() =~= adjacent_swap(s.drop_last(), j));
        assert(t.last() == s.last());
        lemma_adjacent_swap_inversions(s.drop_last(), j);
        lemma_count_above_swap(s.drop_last(), j, j + 1, s.last());
    } else {
        // The last two values are the pair: `s` ends in `a, b` and `t` in `b, a`.
        let a = s[j];
        let b = s[j + 1];
        let sd = s.drop_last();
        let td = t.drop_last();
        let p = sd.drop_last();
        assert(td.drop_last() =~= p);
        assert(inversions(sd) == inversions(p) + count_above(p, a));
        assert(count_above(sd, b) == count_above(p, b) + 1);
        assert(inversions(td) == inversions(p) + count_above(p, b));
        assert(count_above(td, a) == count_above(p, a));
    }
}

/// None of the values of a stretch exceeds a value that bounds them all.
proof fn lemma_none_above(s: Seq<u64>, v: u64)
    requires
        forall|x: int| 0 <= x < s.len() ==> #[trigger] s[x] <= v,
    ensures
        count_above(s, v) == 0,
    decreases s.len(),
{
    if s.len() > 0 {
        assert forall|x: int| 0 <= x < s.drop_last().len() implies #[trigger] s.drop_last()[x] <= v by {
            assert(s.drop_last()[x] == s[x]);
        }
        lemma_none_above(s.drop_last(), v);
    }
}

/// A sequence in order has no inversions.
pub proof fn lemma_ordered_has_no_inversions(s: Seq<u64>)
    requires
        ordered_between(s, 0, s.len() as int),
    ensures
        inversions(s) == 0,
    decreases s.len(),
{
    if s.len() > 0 {
        let front = s.drop_last();
        assert forall|x: int, y: int| 0 <= x <= y < front.len() implies #[trigger] front[x]
            <= #[trigger] front[y] by {
            assert(front[x] == s[x] && front[y] == s[y]);
        }
        lemma_ordered_has_no_inversions(front);
        assert forall|x: int| 0 <= x < front.len() implies #[trigger] front[x] <= s.last() by {
            assert(front[x] == s[x]);
            assert(s[x] <= s[s.len() - 1]);
        }
        lemma_none_above(front, s.last());
    }
}

} // verus!
