//! The mathematical model of the working sequence: order, rearrangement and
//! the single-element operations the algorithms are built from.

use vstd::prelude::*;
use vstd::seq_lib::{lemma_multiset_commutative, to_multiset_len, to_multiset_update};

verus! {

/// Every adjacent pair is in order: the sequence never steps down.
pub open spec fn is_non_decreasing(s: Seq<u64>) -> bool {
    forall|i: int, j: int| 0 <= i && j == i + 1 && j < s.len() ==> #[trigger] s[i] <= #[trigger] s[j]
}

/// Every pair inside `[lo, hi)` is in order, adjacent or not.
pub open spec fn ordered_between(s: Seq<u64>, lo: int, hi: int) -> bool {
    forall|i: int, j: int| lo <= i <= j < hi ==> #[trigger] s[i] <= #[trigger] s[j]
}

/// `a` and `b` hold the same values the same number of times.
pub open spec fn same_items(a: Seq<u64>, b: Seq<u64>) -> bool {
    a.to_multiset() == b.to_multiset()
}

/// `s` with the values at `i` and `j` exchanged.
pub open spec fn swap_of(s: Seq<u64>, i: int, j: int) -> Seq<u64> {
    s.update(i, s[j]).update(j, s[i])
}

/// `s` with the neighbours at `j` and `j + 1` exchanged.
pub open spec fn adjacent_swap(s: Seq<u64>, j: int) -> Seq<u64> {
    swap_of(s, j, j + 1)
}

/// `s` with the value at `j - 1` copied one place to the right.
pub open spec fn shift_right(s: Seq<u64>, j: int) -> Seq<u64> {
    s.update(j, s[j - 1])
}

/// The values `1, 2, .., n` in rising order.
pub open spec fn ascending(n: nat) -> Seq<u64> {
    Seq::new(n, |i: int| (i + 1) as u64)
}

/// `a` and `b` agree everywhere outside `[lo, hi)`.
pub open spec fn same_outside(a: Seq<u64>, b: Seq<u64>, lo: int, hi: int) -> bool {
    &&& a.len() == b.len()
    &&& forall|i: int| 0 <= i < a.len() && !(lo <= i < hi) ==> #[trigger] a[i] == #[trigger] b[i]
}

/// A sequence that never steps down between neighbours has all its pairs in order.
pub proof fn lemma_non_decreasing_orders_all_pairs(s: Seq<u64>)
    requires
        is_non_decreasing(s),
    ensures
        ordered_between(s, 0, s.len() as int),
{
    assert forall|i: int, j: int| 0 <= i <= j < s.len() implies #[trigger] s[i] <= #[trigger] s[j] by {
        lemma_reach(s, i, j);
    }
}

proof fn lemma_reach(s: Seq<u64>, i: int, j: int)
    requires
        is_non_decreasing(s),
        0 <= i <= j < s.len(),
    ensures
        s[i] <= s[j],
    decreases j - i,
{
    if i < j {
        lemma_reach(s, i, j - 1);
        assert(s[j - 1] <= s[j]);
    }
}

/// A sequence with all its pairs in order never steps down between neighbours.
pub proof fn lemma_all_pairs_ordered_is_non_decreasing(s: Seq<u64>)
    requires
        ordered_between(s, 0, s.len() as int),
    ensures
        is_non_decreasing(s),
{
}

/// Sequences of fewer than two values are in order.
pub proof fn lemma_short_is_non_decreasing(s: Seq<u64>)
    requires
        s.len() <= 1,
    ensures
        is_non_decreasing(s),
{
}

/// Rearranging keeps the length.
pub proof fn lemma_same_items_same_len(a: Seq<u64>, b: Seq<u64>)
    requires
        same_items(a, b),
    ensures
        a.len() == b.len(),
{
    to_multiset_len(a);
    to_multiset_len(b);
}

/// Exchanging two values rearranges the sequence and changes nothing else.
pub proof fn lemma_swap_same_items(s: Seq<u64>, i: int, j: int)
    requires
        0 <= i < s.len(),
        0 <= j < s.len(),
    ensures
        same_items(swap_of(s, i, j), s),
        swap_of(s, i, j).len() == s.len(),
{
    let mid = s.update(i, s[j]);
    to_multiset_update(s, i, s[j]);
    to_multiset_update(mid, j, s[i]);
    s.to_multiset_ensures();
    assert(swap_of(s, i, j).to_multiset() =~= s.to_multiset());
}

/// A value that occurs in one of two rearrangements of each other occurs in the other.
pub proof fn lemma_same_items_member(a: Seq<u64>, b: Seq<u64>, i: int) -> (k: int)
    requires
        same_items(a, b),
        0 <= i < a.len(),
    ensures
        0 <= k < b.len(),
        b[k] == a[i],
{
    a.to_multiset_ensures();
    b.to_multiset_ensures();
    assert(a.contains(a[i]));
    assert(b.to_multiset().count(a[i]) > 0);
    assert(b.contains(a[i]));
    choose|k: int| 0 <= k < b.len() && b[k] == a[i]
}

/// Rearranging one stretch of a sequence rearranges the whole.
pub proof fn lemma_rearranged_stretch(a: Seq<u64>, b: Seq<u64>, lo: int, hi: int)
    requires
        0 <= lo <= hi <= a.len(),
        same_outside(a, b, lo, hi),
        same_items(a.subrange(lo, hi), b.subrange(lo, hi)),
    ensures
        same_items(a, b),
{
    let n = a.len() as int;
    assert(a =~= a.subrange(0, lo) + a.subrange(lo, hi) + a.subrange(hi, n));
    assert(b =~= b.subrange(0, lo) + b.subrange(lo, hi) + b.subrange(hi, n));
    assert(a.subrange(0, lo) =~= b.subrange(0, lo));
    assert(a.subrange(hi, n) =~= b.subrange(hi, n));
    lemma_multiset_commutative(a.subrange(0, lo), a.subrange(lo, hi));
    lemma_multiset_commutative(a.subrange(0, lo) + a.subrange(lo, hi), a.subrange(hi, n));
    lemma_multiset_commutative(b.subrange(0, lo), b.subrange(lo, hi));
    lemma_multiset_commutative(b.subrange(0, lo) + b.subrange(lo, hi), b.subrange(hi, n));
}

/// Rearranging a stretch of a sequence rearranges every longer stretch
/// around it, and leaves what lies outside the longer stretch alone.
pub proof fn lemma_stretch_within(a: Seq<u64>, b: Seq<u64>, lo: int, hi: int, l: int, r: int)
    requires
        0 <= l <= lo <= hi <= r <= a.len(),
        same_outside(a, b, lo, hi),
        same_items(a.subrange(lo, hi), b.subrange(lo, hi)),
    ensures
        same_outside(a, b, l, r),
        same_items(a.subrange(l, r), b.subrange(l, r)),
{
    let x = a.subrange(l, r);
    let y = b.subrange(l, r);
    assert(x.subrange(lo - l, hi - l) =~= a.subrange(lo, hi));
    assert(y.subrange(lo - l, hi - l) =~= b.subrange(lo, hi));
    lemma_rearranged_stretch(x, y, lo - l, hi - l);
}

/// Exchanging two values inside a stretch rearranges the stretch and leaves
/// what lies outside it alone.
pub proof fn lemma_swap_within(s: Seq<u64>, lo: int, hi: int, i: int, j: int)
    requires
        0 <= lo <= i < hi <= s.len(),
        lo <= j < hi,
    ensures
        same_outside(s, swap_of(s, i, j), lo, hi),
        same_items(swap_of(s, i, j).subrange(lo, hi), s.subrange(lo, hi)),
{
    let part = s.subrange(lo, hi);
    assert(swap_of(s, i, j).subrange(lo, hi) =~= swap_of(part, i - lo, j - lo));
    lemma_swap_same_items(part, i - lo, j - lo);
}

/// Rearranging a stretch keeps every upper bound on its values.
pub proof fn lemma_upper_bound_kept(a: Seq<u64>, b: Seq<u64>, lo: int, hi: int, bound: u64)
    requires
        0 <= lo <= hi <= a.len(),
        a.len() == b.len(),
        same_items(a.subrange(lo, hi), b.subrange(lo, hi)),
        forall|x: int| lo <= x < hi ==> #[trigger] a[x] <= bound,
    ensures
        forall|x: int| lo <= x < hi ==> #[trigger] b[x] <= bound,
{
    assert forall|x: int| lo <= x < hi implies #[trigger] b[x] <= bound by {
        let k = lemma_same_items_member(b.subrange(lo, hi), a.subrange(lo, hi), x - lo);
        assert(a.subrange(lo, hi)[k] == a[k + lo]);
        assert(b.subrange(lo, hi)[x - lo] == b[x]);
    }
}

/// Rearranging a stretch keeps every strict lower bound on its values.
pub proof fn lemma_lower_bound_kept(a: Seq<u64>, b: Seq<u64>, lo: int, hi: int, bound: u64)
    requires
        0 <= lo <= hi <= a.len(),
        a.len() == b.len(),
        same_items(a.subrange(lo, hi), b.subrange(lo, hi)),
        forall|x: int| lo <= x < hi ==> #[trigger] a[x] > bound,
    ensures
        forall|x: int| lo <= x < hi ==> #[trigger] b[x] > bound,
{
    assert forall|x: int| lo <= x < hi implies #[trigger] b[x] > bound by {
        let k = lemma_same_items_member(b.subrange(lo, hi), a.subrange(lo, hi), x - lo);
        assert(a.subrange(lo, hi)[k] == a[k + lo]);
        assert(b.subrange(lo, hi)[x - lo] == b[x]);
    }
}

} // verus!
