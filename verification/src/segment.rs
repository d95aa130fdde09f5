//! A range-minimum tree over the positions `0..n`, kept in `4n` array slots.
//!
//! `update` counts positions from 0. `query` takes its two ends in the
//! coordinates of the slots' ranges, where position `i` is `i + 1`.

use core::cmp::Ordering;
use vstd::prelude::*;
use vstd::std_specs::cmp::PartialOrdSpec;
use crate::heap_layout::{
    beneath, extent, span, lemma_beneath_at_least, lemma_beneath_root, lemma_beneath_split,
    lemma_span_bounds, lemma_span_fits, lemma_span_none_below,
};
use crate::range_min::{
    descend, least, range_min, stored, lemma_range_min_blank, lemma_stored_blank,
    lemma_stored_frame,
};

verus! {

/// One slot of the tree: the value kept there and the range of positions it stands for.
#[derive(Debug, Eq)]
pub struct Node {
    pub elm: usize,
    pub interval: (usize, usize),
}

/// Two nodes are equal when they keep the same value, whatever their ranges.
impl PartialEq for Node {
    fn eq(&self, other: &Self) -> (r: bool) {
        self.elm == other.elm
    }
}

impl vstd::std_specs::cmp::PartialEqSpecImpl for Node {
    open spec fn obeys_eq_spec() -> bool {
        true
    }

    open spec fn eq_spec(&self, other: &Self) -> bool {
        self.elm == other.elm
    }
}

/// Nodes are ordered by the value they keep.
impl PartialOrd for Node {
    fn partial_cmp(&self, other: &Self) -> (r: Option<Ordering>) {
        if self.elm < other.elm {
            Some(Ordering::Less)
        } else if self.elm == other.elm {
            Some(Ordering::Equal)
        } else {
            Some(Ordering::Greater)
        }
    }
}

impl vstd::std_specs::cmp::PartialOrdSpecImpl for Node {
    open spec fn obeys_partial_cmp_spec() -> bool {
        true
    }

    open spec fn partial_cmp_spec(&self, other: &Self) -> Option<Ordering> {
        if self.elm < other.elm {
            Some(Ordering::Less)
        } else if self.elm == other.elm {
            Some(Ordering::Equal)
        } else {
            Some(Ordering::Greater)
        }
    }
}

impl Node {
    /// Orders two nodes by the value they keep.
    pub fn cmp(&self, other: &Self) -> (r: Ordering)
        ensures
            Some(r) == self.partial_cmp_spec(other),
    {
        if self.elm < other.elm {
            Ordering::Less
        } else if self.elm == other.elm {
            Ordering::Equal
        } else {
            Ordering::Greater
        }
    }

    /// The node every slot starts as: no value yet, no range.
    pub fn zero() -> (r: Self)
        ensures
            r.elm == usize::MAX,
            r.interval == (0usize, 0usize),
    {
        Self { elm: usize::MAX, interval: (0, 0) }
    }

    /// A node that keeps `elm` and stands for `interval`.
    pub fn new(elm: usize, interval: (usize, usize)) -> (r: Self)
        ensures
            r.elm == elm,
            r.interval == interval,
    {
        Self { elm: elm, interval: interval }
    }
}

/// The node that slot `k` holds in a tree over `vals`.
pub open spec fn slot(vals: Seq<usize>, k: nat) -> Node {
    Node { elm: stored(vals, k), interval: extent(vals.len(), k) }
}

/// The `4n` slots of a tree over the `n` values `vals`.
pub open spec fn layout(vals: Seq<usize>) -> Seq<Node> {
    Seq::new(4 * vals.len(), |k: int| slot(vals, k as nat))
}

/// The range field of slot `j` once slot `k` and the slots below it have their
/// ranges: the slot's own range if it lies beneath `k` and has one, else what
/// the field held before.
spec fn bisected(n: nat, k: nat, j: nat, before: (usize, usize)) -> (usize, usize) {
    if beneath(k, j) && span(n, j) is Some {
        extent(n, j)
    } else {
        before
    }
}

/// The smaller of two values.
fn least_of(x: usize, y: usize) -> (m: usize)
    ensures
        m == least(x, y),
{
    if x <= y {
        x
    } else {
        y
    }
}

/// A range-minimum tree over a fixed number of positions.
///
/// Its view is the sequence of values written so far, position by position,
/// with `usize::MAX` where nothing was written.
#[derive(Debug, PartialEq)]
pub struct SegTree {
    max_n: usize,
    dat: Vec<Node>,
}

impl View for SegTree {
    type V = Seq<usize>;

    closed spec fn view(&self) -> Seq<usize> {
        Seq::new(self.max_n as nat, |i: int| self.dat@[self.max_n - 1 + i].elm)
    }
}

impl SegTree {
    /// The slots are exactly those that `layout` gives for the written values.
    pub closed spec fn wf(&self) -> bool {
        &&& 1 <= self.max_n
        &&& 4 * self.max_n <= usize::MAX
        &&& self.dat@ == layout(self@)
    }

    /// Gives slot `k` and the slots below it their ranges, by bisection of `range`.
    fn bisect(v: &mut Vec<Node>, k: usize, range: (usize, usize), Ghost(n): Ghost<nat>)
        requires
            1 <= n,
            4 * n <= usize::MAX,
            old(v)@.len() == 4 * n,
            span(n, k as nat) == Some((range.0 as int, range.1 as int)),
        ensures
            final(v)@.len() == old(v)@.len(),
            forall|j: int| 0 <= j < 4 * n ==> (#[trigger] final(v)@[j]).elm == old(v)@[j].elm,
            forall|j: int|
                0 <= j < 4 * n ==> (#[trigger] final(v)@[j]).interval == bisected(n, k as nat, j as nat, old(v)@[j].interval),
        decreases range.1 - range.0,
    {
        let (l, r) = range;
        proof {
            lemma_span_fits(n, k as nat);
            lemma_span_bounds(n, k as nat);
        }
        v[k].interval = (l, r);
        if l == r {
            proof {
                assert forall|j: int| 0 <= j < 4 * n implies (#[trigger] v@[j]).interval == bisected(n, k as nat, j as nat, old(v)@[j].interval) by {
                    if j != k && beneath(k as nat, j as nat) {
                        lemma_span_none_below(n, k as nat, j as nat);
                    }
                }
            }
        } else {
            let mid = (l + r) / 2;
            proof {
                assert(span(n, (2 * k + 1) as nat) == Some((l as int, mid as int)));
                assert(span(n, (2 * k + 2) as nat) == Some((mid as int + 1, r as int)));
                lemma_span_fits(n, (2 * k + 2) as nat);
            }
            Self::bisect(v, 2 * k + 1, (l, mid), Ghost(n));
            Self::bisect(v, 2 * k + 2, (mid + 1, r), Ghost(n));
            proof {
                assert forall|j: int| 0 <= j < 4 * n implies (#[trigger] v@[j]).interval == bisected(n, k as nat, j as nat, old(v)@[j].interval) by {
                    lemma_beneath_split(k as nat, j as nat);
                }
            }
        }
    }

    /// A tree over `max_n` positions, none of them written yet.
    pub fn new(max_n: usize) -> (r: Self)
        requires
            1 <= max_n,
            4 * max_n <= usize::MAX,
        ensures
            r.wf(),
            r@ == Seq::new(max_n as nat, |i: int| usize::MAX),
            forall|a: int, b: int| #[trigger] range_min(r@, a, b) == usize::MAX,
    {
        let total = 4 * max_n;
        let mut initial_data: Vec<Node> = Vec::new();
        while initial_data.len() < total
            invariant
                initial_data@.len() <= total,
                forall|j: int|
                    0 <= j < initial_data@.len() ==> (#[trigger] initial_data@[j]).elm == usize::MAX
                        && initial_data@[j].interval == (0usize, 0usize),
            decreases total - initial_data@.len(),
        {
            initial_data.push(Node::zero());
        }
        Self::bisect(&mut initial_data, 0, (1, max_n), Ghost(max_n as nat));
        let r = Self { max_n: max_n, dat: initial_data };
        proof {
            let vals = Seq::new(max_n as nat, |i: int| usize::MAX);
            assert(r@ =~= vals);
            assert forall|k: int| 0 <= k < r.dat@.len() implies r.dat@[k] == slot(vals, k as nat) by {
                lemma_stored_blank(vals, k as nat);
                lemma_beneath_root(k as nat);
            }
            assert(r.dat@ =~= layout(vals));
            assert forall|a: int, b: int| #[trigger] range_min(vals, a, b) == usize::MAX by {
                lemma_range_min_blank(vals, a, b);
            }
        }
        r
    }

    /// Writes `x` at position `i`, counted from 0.
    pub fn update(self, i: usize, x: usize) -> (r: Self)
        requires
            self.wf(),
            i < self@.len(),
        ensures
            r.wf(),
            r@ == self@.update(i as int, x),
    {
        let mut tree = self;
        let ghost n = tree.max_n as nat;
        let ghost before = tree@;
        let ghost vals = tree@.update(i as int, x);
        let mut current = tree.max_n + i - 1;
        tree.dat[current].elm = x;
        proof {
            assert forall|j: int|
                0 <= j < 4 * n && (j == current || !beneath(j as nat, current as nat))
            implies (#[trigger] tree.dat@[j]).elm == stored(vals, j as nat) by {
                if j != current {
                    lemma_stored_frame(before, i as int, x, j as nat);
                }
            }
        }
        while current > 0
            invariant
                tree.max_n == n,
                1 <= n,
                4 * n <= usize::MAX,
                vals.len() == n,
                tree.dat@.len() == 4 * n,
                current + 1 < 2 * n,
                forall|j: int| 0 <= j < 4 * n ==> (#[trigger] tree.dat@[j]).interval == extent(n, j as nat),
                forall|j: int|
                    0 <= j < 4 * n && (j == current || !beneath(j as nat, current as nat))
                        ==> (#[trigger] tree.dat@[j]).elm == stored(vals, j as nat),
            decreases current,
        {
            let ghost below = current;
            let ghost prior = tree.dat@;
            current = (current - 1) / 2;
            proof {
                if beneath((2 * current + 1) as nat, current as nat) {
                    lemma_beneath_at_least((2 * current + 1) as nat, current as nat);
                }
                if beneath((2 * current + 2) as nat, current as nat) {
                    lemma_beneath_at_least((2 * current + 2) as nat, current as nat);
                }
                assert(prior[2 * current + 1].elm == stored(vals, (2 * current + 1) as nat));
                assert(prior[2 * current + 2].elm == stored(vals, (2 * current + 2) as nat));
            }
            let m = least_of(tree.dat[current * 2 + 1].elm, tree.dat[current * 2 + 2].elm);
            tree.dat[current].elm = m;
            proof {
                assert forall|j: int|
                    0 <= j < 4 * n && (j == current || !beneath(j as nat, current as nat))
                implies (#[trigger] tree.dat@[j]).elm == stored(vals, j as nat) by {
                    if j != current {
                        assert(tree.dat@[j] == prior[j]);
                        assert(j == below || !beneath(j as nat, below as nat));
                    }
                }
            }
        }
        proof {
            assert(tree@ =~= vals);
            assert(tree.dat@ =~= layout(vals));
        }
        tree
    }

    /// What the walk from slot `k` answers for the query `range`.
    fn walk(&self, range: (usize, usize), k: usize) -> (m: usize)
        requires
            self.wf(),
            span(self@.len(), k as nat) is Some,
        ensures
            span(self@.len(), k as nat) matches Some((l, r))
                && m == descend(self@, range.0 as int, range.1 as int, k as nat, l, r),
        decreases self.dat@[k as int].interval.1 - self.dat@[k as int].interval.0,
    {
        let (a, b) = range;
        proof {
            lemma_span_fits(self@.len(), k as nat);
            lemma_span_bounds(self@.len(), k as nat);
        }
        let (l, r) = self.dat[k].interval;
        if r <= a || b <= l {
            usize::MAX
        } else if a <= l && r <= b {
            self.dat[k].elm
        } else {
            proof {
                let n = self@.len();
                let mid = (l + r) / 2;
                assert(span(n, (2 * k + 1) as nat) == Some((l as int, mid as int)));
                assert(span(n, (2 * k + 2) as nat) == Some((mid as int + 1, r as int)));
                lemma_span_fits(n, (2 * k + 2) as nat);
            }
            let vl = self.walk(range, k * 2 + 1);
            let vr = self.walk(range, k * 2 + 2);
            least_of(vl, vr)
        }
    }

    /// The smallest value that the query `range` finds, or `usize::MAX` if it finds none.
    pub fn query(&self, range: (usize, usize)) -> (m: usize)
        requires
            self.wf(),
        ensures
            m == range_min(self@, range.0 as int, range.1 as int),
    {
        self.walk(range, 0)
    }

    /// The slots of the tree, root first.
    pub fn nodes(&self) -> (v: &Vec<Node>)
        requires
            self.wf(),
        ensures
            v@ == layout(self@),
    {
        &self.dat
    }
}

} // verus!
