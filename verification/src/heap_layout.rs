//! Slot arithmetic of a binary tree laid out in an array: the root is slot 0
//! and the slots below slot `k` are `2k + 1` and `2k + 2`. On top of it, the
//! shape that repeated bisection of `1..=n` gives such a tree.

use vstd::prelude::*;

verus! {

/// The slot directly above slot `k`, for `k > 0`.
pub open spec fn parent(k: nat) -> nat {
    ((k - 1) / 2) as nat
}

/// Whether slot `j` is slot `k` itself or lies somewhere below it.
pub open spec fn beneath(k: nat, j: nat) -> bool
    decreases j,
{
    j == k || (j > 0 && beneath(k, parent(j)))
}

/// The first slot count of the row that slot `k` lies in: 1 for the root,
/// doubling with every step down.
pub open spec fn row_width(k: nat) -> nat
    decreases k,
{
    if k == 0 {
        1
    } else {
        2 * row_width(parent(k))
    }
}

/// The range of positions, both ends included, that slot `k` stands for when
/// `1..=n` is bisected from the root down: a slot with range `(l, r)`, `l < r`,
/// hands `(l, mid)` to slot `2k + 1` and `(mid + 1, r)` to slot `2k + 2`, where
/// `mid = (l + r) / 2`. A slot that the bisection never reaches has no range.
pub open spec fn span(n: nat, k: nat) -> Option<(int, int)>
    decreases k,
{
    if k == 0 {
        Some((1int, n as int))
    } else {
        match span(n, parent(k)) {
            Some((l, r)) => if l < r {
                if k % 2 == 1 {
                    Some((l, (l + r) / 2))
                } else {
                    Some(((l + r) / 2 + 1, r))
                }
            } else {
                None
            },
            None => None,
        }
    }
}

/// What the slot's range field holds: its range, or `(0, 0)` where it has none.
pub open spec fn extent(n: nat, k: nat) -> (usize, usize) {
    match span(n, k) {
        Some((l, r)) => (l as usize, r as usize),
        None => (0usize, 0usize),
    }
}

/// Nothing lies beneath a slot with a larger number.
pub proof fn lemma_beneath_at_least(k: nat, j: nat)
    requires
        beneath(k, j),
    ensures
        k <= j,
    decreases j,
{
    if j != k {
        lemma_beneath_at_least(k, parent(j));
    }
}

/// Everything lies beneath the root.
pub proof fn lemma_beneath_root(j: nat)
    ensures
        beneath(0, j),
    decreases j,
{
    if j > 0 {
        lemma_beneath_root(parent(j));
    }
}

/// The slots beneath `k` are `k`, the slots beneath `2k + 1` and those beneath `2k + 2`.
pub proof fn lemma_beneath_split(k: nat, j: nat)
    ensures
        beneath(k, j) <==> (j == k || beneath(2 * k + 1, j) || beneath(2 * k + 2, j)),
    decreases j,
{
    if j > 0 {
        lemma_beneath_split(k, parent(j));
    }
}

/// What lies beneath a slot lies beneath the slot above it too.
pub proof fn lemma_beneath_parent(c: nat, j: nat)
    requires
        c > 0,
        beneath(c, j),
    ensures
        beneath(parent(c), j),
    decreases j,
{
    if j == c {
        assert(beneath(parent(c), parent(c)));
    } else {
        lemma_beneath_parent(c, parent(j));
    }
}

/// Row `w` holds the slots `w - 1 ..= 2w - 2`.
pub proof fn lemma_row_width_bounds(k: nat)
    ensures
        row_width(k) <= k + 1 < 2 * row_width(k),
    decreases k,
{
    if k > 0 {
        lemma_row_width_bounds(parent(k));
    }
}

/// A slot's range lies within `1..=n`, and it is short enough that a whole row
/// of ranges of that length fits: `row_width(k) * (r - l) < n`.
pub proof fn lemma_span_bounds(n: nat, k: nat)
    requires
        n >= 1,
        span(n, k) is Some,
    ensures
        span(n, k) matches Some((l, r)) && 1 <= l <= r <= n && row_width(k) * (r - l) < n,
    decreases k,
{
    if k > 0 {
        let p = parent(k);
        lemma_span_bounds(n, p);
        let (lp, rp) = span(n, p)->0;
        let (l, r) = span(n, k)->0;
        let w = row_width(p) as int;
        assert(2 * (r - l) <= rp - lp);
        assert((2 * w) * (r - l) <= w * (rp - lp)) by (nonlinear_arith)
            requires
                2 * (r - l) <= rp - lp,
                w >= 0,
        ;
        assert(row_width(k) == 2 * w);
    } else {
        assert(row_width(k) == 1);
    }
}

/// Every slot that the bisection of `1..=n` reaches is among the first `4n`.
pub proof fn lemma_span_fits(n: nat, k: nat)
    requires
        n >= 1,
        span(n, k) is Some,
    ensures
        k + 4 <= 4 * n,
{
    if k > 0 {
        let p = parent(k);
        lemma_span_bounds(n, p);
        lemma_row_width_bounds(k);
        let (lp, rp) = span(n, p)->0;
        let w = row_width(p) as int;
        assert(w <= w * (rp - lp)) by (nonlinear_arith)
            requires
                1 <= rp - lp,
                w >= 0,
        ;
    }
}

/// Below a slot whose range is a single position, or that has none, no slot has a range.
pub proof fn lemma_span_none_below(n: nat, k: nat, j: nat)
    requires
        beneath(k, j),
        j != k,
        span(n, k) matches Some((l, r)) ==> l >= r,
    ensures
        span(n, j) is None,
    decreases j,
{
    if parent(j) != k {
        lemma_span_none_below(n, k, parent(j));
    }
}

} // verus!
