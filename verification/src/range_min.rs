//! What the tree keeps and what a query answers, as functions of the
//! sequence of written values alone.
//!
//! The values live in the slots `n - 1 ..= 2n - 2`; every slot above them
//! keeps the smaller of the two slots below it, and every slot after them
//! keeps the sentinel `usize::MAX`. A query walks the bisection of `1..=n`
//! from the root and reads those slots.

use vstd::prelude::*;
use crate::heap_layout::{beneath, lemma_beneath_parent};

verus! {

/// The smaller of two values.
pub open spec fn least(x: usize, y: usize) -> usize {
    if x <= y {
        x
    } else {
        y
    }
}

/// The value that slot `k` keeps when `vals` are the values written so far.
pub open spec fn stored(vals: Seq<usize>, k: nat) -> usize
    decreases 2 * vals.len() - k,
{
    if k + 1 < vals.len() {
        least(stored(vals, 2 * k + 1), stored(vals, 2 * k + 2))
    } else if k + 1 < 2 * vals.len() {
        vals[k + 1 - vals.len()]
    } else {
        usize::MAX
    }
}

/// What the walk answers from slot `k`, whose range is `(l, r)`, for the query `(a, b)`.
///
/// A slot whose range ends at or before `a`, or starts at or after `b`, gives the
/// sentinel. Otherwise a slot whose range lies within `a..=b` gives the value it keeps.
/// Any other slot gives the smaller of what the two slots below it give.
pub open spec fn descend(vals: Seq<usize>, a: int, b: int, k: nat, l: int, r: int) -> usize
    decreases r - l,
{
    if r <= a || b <= l {
        usize::MAX
    } else if a <= l && r <= b {
        stored(vals, k)
    } else {
        least(
            descend(vals, a, b, 2 * k + 1, l, (l + r) / 2),
            descend(vals, a, b, 2 * k + 2, (l + r) / 2 + 1, r),
        )
    }
}

/// The answer to the query `(a, b)` on a tree holding `vals`.
pub open spec fn range_min(vals: Seq<usize>, a: int, b: int) -> usize {
    descend(vals, a, b, 0, 1, vals.len() as int)
}

/// Whether no position holds a value other than the sentinel.
pub open spec fn blank(vals: Seq<usize>) -> bool {
    forall|i: int| 0 <= i < vals.len() ==> vals[i] == usize::MAX
}

/// Where only the sentinel was written, every slot keeps the sentinel.
pub proof fn lemma_stored_blank(vals: Seq<usize>, k: nat)
    requires
        blank(vals),
    ensures
        stored(vals, k) == usize::MAX,
    decreases 2 * vals.len() - k,
{
    if k + 1 < vals.len() {
        lemma_stored_blank(vals, 2 * k + 1);
        lemma_stored_blank(vals, 2 * k + 2);
    }
}

/// The value written at position `i` is what slot `n - 1 + i` keeps.
pub proof fn lemma_stored_value_slot(vals: Seq<usize>, i: int)
    requires
        0 <= i < vals.len(),
    ensures
        stored(vals, (vals.len() - 1 + i) as nat) == vals[i],
{
}

/// Writing position `i` changes only the slot that holds it and the slots above that one.
pub proof fn lemma_stored_frame(vals: Seq<usize>, i: int, x: usize, j: nat)
    requires
        0 <= i < vals.len(),
        !beneath(j, (vals.len() - 1 + i) as nat),
    ensures
        stored(vals.update(i, x), j) == stored(vals, j),
    decreases 2 * vals.len() - j,
{
    let s = (vals.len() - 1 + i) as nat;
    if j + 1 < vals.len() {
        if beneath(2 * j + 1, s) {
            lemma_beneath_parent(2 * j + 1, s);
        }
        if beneath(2 * j + 2, s) {
            lemma_beneath_parent(2 * j + 2, s);
        }
        lemma_stored_frame(vals, i, x, 2 * j + 1);
        lemma_stored_frame(vals, i, x, 2 * j + 2);
    }
}

/// No slot keeps more than either slot below it.
pub proof fn lemma_stored_heap_order(vals: Seq<usize>, k: nat)
    ensures
        stored(vals, k) <= stored(vals, 2 * k + 1),
        stored(vals, k) <= stored(vals, 2 * k + 2),
{
}

/// The walk from a slot never answers less than the slot keeps.
pub proof fn lemma_descend_at_least_stored(vals: Seq<usize>, a: int, b: int, k: nat, l: int, r: int)
    ensures
        stored(vals, k) <= descend(vals, a, b, k, l, r),
    decreases r - l,
{
    if !(r <= a || b <= l) && !(a <= l && r <= b) {
        lemma_stored_heap_order(vals, k);
        lemma_descend_at_least_stored(vals, a, b, 2 * k + 1, l, (l + r) / 2);
        lemma_descend_at_least_stored(vals, a, b, 2 * k + 2, (l + r) / 2 + 1, r);
    }
}

/// From any slot, the walk for a wider query answers no more than the walk for
/// a query within it.
pub proof fn lemma_descend_monotone(
    vals: Seq<usize>,
    a: int,
    b: int,
    wide_a: int,
    wide_b: int,
    k: nat,
    l: int,
    r: int,
)
    requires
        wide_a <= a,
        b <= wide_b,
    ensures
        descend(vals, wide_a, wide_b, k, l, r) <= descend(vals, a, b, k, l, r),
    decreases r - l,
{
    if r <= a || b <= l {
    } else if a <= l && r <= b {
    } else if wide_a <= l && r <= wide_b {
        lemma_descend_at_least_stored(vals, a, b, k, l, r);
    } else {
        lemma_descend_monotone(vals, a, b, wide_a, wide_b, 2 * k + 1, l, (l + r) / 2);
        lemma_descend_monotone(vals, a, b, wide_a, wide_b, 2 * k + 2, (l + r) / 2 + 1, r);
    }
}

/// Where only the sentinel was written, the walk from any slot answers the sentinel.
pub proof fn lemma_descend_blank(vals: Seq<usize>, a: int, b: int, k: nat, l: int, r: int)
    requires
        blank(vals),
    ensures
        descend(vals, a, b, k, l, r) == usize::MAX,
    decreases r - l,
{
    if r <= a || b <= l {
    } else if a <= l && r <= b {
        lemma_stored_blank(vals, k);
    } else {
        lemma_descend_blank(vals, a, b, 2 * k + 1, l, (l + r) / 2);
        lemma_descend_blank(vals, a, b, 2 * k + 2, (l + r) / 2 + 1, r);
    }
}

/// A query whose two ends coincide reads no slot.
pub proof fn lemma_descend_point(vals: Seq<usize>, a: int, k: nat, l: int, r: int)
    ensures
        descend(vals, a, a, k, l, r) == usize::MAX,
    decreases r - l,
{
    if !(r <= a || a <= l) {
        lemma_descend_point(vals, a, 2 * k + 1, l, (l + r) / 2);
        lemma_descend_point(vals, a, 2 * k + 2, (l + r) / 2 + 1, r);
    }
}

/// On a tree where only the sentinel was written, every query answers the sentinel.
pub proof fn lemma_range_min_blank(vals: Seq<usize>, a: int, b: int)
    requires
        blank(vals),
    ensures
        range_min(vals, a, b) == usize::MAX,
{
    lemma_descend_blank(vals, a, b, 0, 1, vals.len() as int);
}

/// A query whose two ends coincide answers the sentinel, whatever was written.
pub proof fn lemma_range_min_point(vals: Seq<usize>, a: int)
    ensures
        range_min(vals, a, a) == usize::MAX,
{
    lemma_descend_point(vals, a, 0, 1, vals.len() as int);
}

/// A query with both ends at a position just written answers the value written
/// there if that value is the sentinel. It answers the sentinel for any other
/// value too: see `lemma_range_min_point`.
pub proof fn lemma_update_then_point_query(vals: Seq<usize>, i: int, x: usize)
    requires
        0 <= i < vals.len(),
        x == usize::MAX,
    ensures
        range_min(vals.update(i, x), i, i) == x,
        range_min(vals.update(i, x), i + 1, i + 1) == x,
{
    lemma_range_min_point(vals.update(i, x), i);
    lemma_range_min_point(vals.update(i, x), i + 1);
}

/// A query over a wider range answers no more than a query over a range within it.
pub proof fn lemma_range_min_monotone(vals: Seq<usize>, a: int, b: int, wide_a: int, wide_b: int)
    requires
        wide_a <= a,
        b <= wide_b,
    ensures
        range_min(vals, wide_a, wide_b) <= range_min(vals, a, b),
{
    lemma_descend_monotone(vals, a, b, wide_a, wide_b, 0, 1, vals.len() as int);
}

/// Whether `n` is 1, 2, 4, 8, ...
pub open spec fn is_power_of_two(n: nat) -> bool
    decreases n,
{
    n == 1 || (n >= 2 && n % 2 == 0 && is_power_of_two(n / 2))
}

/// Slot `k` with range `(l, r)` sits where a tree over a power of two puts it:
/// the range has a power of two as its length, and the slots that hold its
/// positions are exactly the value slots below `k`.
pub open spec fn aligned(n: nat, k: nat, l: int, r: int) -> bool {
    &&& 1 <= l <= r <= n
    &&& is_power_of_two((r - l + 1) as nat)
    &&& (k + 1) * (r - l + 1) == n + l - 1
}

/// The two halves of an aligned slot's range are aligned at the slots below it,
/// and the slot itself lies above the value slots.
proof fn lemma_aligned_halves(n: nat, k: nat, l: int, r: int)
    requires
        aligned(n, k, l, r),
        l < r,
    ensures
        k + 1 < n,
        aligned(n, 2 * k + 1, l, (l + r) / 2),
        aligned(n, 2 * k + 2, (l + r) / 2 + 1, r),
{
    let m = r - l + 1;
    let h = m / 2;
    let mid = (l + r) / 2;
    assert(m == 2 * h);
    assert(mid == l + h - 1);
    assert((2 * k + 2) * h == (k + 1) * m && (2 * k + 3) * h == (k + 1) * m + h && 2 * (k + 1) <= (k
        + 1) * m) by (nonlinear_arith)
        requires
            m == 2 * h,
            h >= 1,
            k >= 0,
    ;
}

/// An aligned slot with a single position is the value slot of that position.
proof fn lemma_aligned_single(n: nat, k: nat, l: int)
    requires
        aligned(n, k, l, l),
    ensures
        k + 1 == n + l - 1,
{
    assert((k + 1) * 1 == k + 1) by (nonlinear_arith);
}

/// In a tree over a power of two, an aligned slot keeps the smallest value of its range.
pub proof fn lemma_stored_is_least_of_range(vals: Seq<usize>, k: nat, l: int, r: int)
    requires
        aligned(vals.len(), k, l, r),
    ensures
        forall|i: int| l <= i + 1 <= r ==> stored(vals, k) <= #[trigger] vals[i],
        exists|i: int| l <= i + 1 <= r && stored(vals, k) == #[trigger] vals[i],
    decreases r - l,
{
    if l == r {
        lemma_aligned_single(vals.len(), k, l);
        assert(stored(vals, k) == vals[l - 1]);
    } else {
        let mid = (l + r) / 2;
        lemma_aligned_halves(vals.len(), k, l, r);
        lemma_stored_is_least_of_range(vals, 2 * k + 1, l, mid);
        lemma_stored_is_least_of_range(vals, 2 * k + 2, mid + 1, r);
        let i1 = choose|i: int| l <= i + 1 <= mid && stored(vals, 2 * k + 1) == #[trigger] vals[i];
        let i2 = choose|i: int| mid + 1 <= i + 1 <= r && stored(vals, 2 * k + 2) == #[trigger] vals[i];
        assert(stored(vals, k) == vals[i1] || stored(vals, k) == vals[i2]);
    }
}

/// What `lemma_range_min_within_range` says, for the walk from any aligned slot.
proof fn lemma_descend_within_range(vals: Seq<usize>, a: int, b: int, k: nat, l: int, r: int)
    requires
        aligned(vals.len(), k, l, r),
    ensures
        forall|i: int|
            l <= i + 1 <= r && a < i + 1 < b ==> descend(vals, a, b, k, l, r) <= #[trigger] vals[i],
        descend(vals, a, b, k, l, r) == usize::MAX || exists|i: int|
            l <= i + 1 <= r && a <= i + 1 <= b && descend(vals, a, b, k, l, r) == #[trigger] vals[i],
    decreases r - l,
{
    if r <= a || b <= l {
    } else if a <= l && r <= b {
        lemma_stored_is_least_of_range(vals, k, l, r);
        let i0 = choose|i: int| l <= i + 1 <= r && stored(vals, k) == #[trigger] vals[i];
        assert(a <= i0 + 1 <= b);
    } else {
        let mid = (l + r) / 2;
        let left = descend(vals, a, b, 2 * k + 1, l, mid);
        let right = descend(vals, a, b, 2 * k + 2, mid + 1, r);
        lemma_aligned_halves(vals.len(), k, l, r);
        lemma_descend_within_range(vals, a, b, 2 * k + 1, l, mid);
        lemma_descend_within_range(vals, a, b, 2 * k + 2, mid + 1, r);
        if left <= right && left != usize::MAX {
            let i1 = choose|i: int| l <= i + 1 <= mid && a <= i + 1 <= b && left == #[trigger] vals[i];
            assert(l <= i1 + 1 <= r);
        } else if right != usize::MAX {
            let i2 = choose|i: int| mid + 1 <= i + 1 <= r && a <= i + 1 <= b && right == #[trigger] vals[i];
            assert(l <= i2 + 1 <= r);
        }
    }
}

/// Over a power of two many positions, a query `(a, b)` answers no more than any
/// value strictly between its ends, and what it answers is the sentinel or a
/// value between its ends, these included. Position `i`, counted from 0, has
/// the coordinate `i + 1`.
pub proof fn lemma_range_min_within_range(vals: Seq<usize>, a: int, b: int)
    requires
        is_power_of_two(vals.len()),
    ensures
        forall|i: int|
            0 <= i < vals.len() && a < i + 1 < b ==> range_min(vals, a, b) <= #[trigger] vals[i],
        range_min(vals, a, b) == usize::MAX || exists|i: int|
            0 <= i < vals.len() && a <= i + 1 <= b && range_min(vals, a, b) == #[trigger] vals[i],
{
    let n = vals.len();
    assert(1 * n == n) by (nonlinear_arith);
    lemma_descend_within_range(vals, a, b, 0, 1, n as int);
    if range_min(vals, a, b) != usize::MAX {
        let i0 = choose|i: int|
            1 <= i + 1 <= n && a <= i + 1 <= b && range_min(vals, a, b) == #[trigger] vals[i];
        assert(0 <= i0 < vals.len());
    }
}

/// Over a power of two many positions, a query answers the sentinel as long as
/// nothing but the sentinel was written between its ends.
pub proof fn lemma_range_min_untouched(vals: Seq<usize>, a: int, b: int)
    requires
        is_power_of_two(vals.len()),
        forall|i: int| 0 <= i < vals.len() && a <= i + 1 <= b ==> #[trigger] vals[i] == usize::MAX,
    ensures
        range_min(vals, a, b) == usize::MAX,
{
    lemma_range_min_within_range(vals, a, b);
}

} // verus!
