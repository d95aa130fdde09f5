//! Disjoint sets over the elements `0..n`: a forest of parent links with
//! path compression and plain linking of one root below the other.

use vstd::prelude::*;
use crate::forest::{
    ancestor, compressed, depth, is_forest, merged, on_path, root_after_link, root_of,
    lemma_compressed_at_root,
    lemma_compressed_forest, lemma_compressed_step, lemma_depth_step, lemma_merged_connects,
    lemma_merged_forest, lemma_repointed_cycle, lemma_repointed_forest, lemma_root_of,
    lemma_root_stays,
};

verus! {

/// Disjoint sets over the elements `0..maxN`, kept as a forest of parent links.
#[allow(non_snake_case)]
#[derive(Debug)]
pub struct UnionFindData {
    pub maxN: usize,
    pub par: Vec<usize>,
}

/// Two values are equal when they have the same size and the same parent links.
impl PartialEq for UnionFindData {
    fn eq(&self, other: &Self) -> (r: bool) {
        if self.maxN != other.maxN || self.par.len() != other.par.len() {
            return false;
        }
        let mut k: usize = 0;
        while k < self.par.len()
            invariant
                k <= self.par@.len(),
                self.par@.len() == other.par@.len(),
                forall|j: int| 0 <= j < k ==> self.par@[j] == other.par@[j],
            decreases self.par@.len() - k,
        {
            if self.par[k] != other.par[k] {
                return false;
            }
            k += 1;
        }
        proof {
            assert(self.par@ =~= other.par@);
        }
        true
    }
}

impl vstd::std_specs::cmp::PartialEqSpecImpl for UnionFindData {
    open spec fn obeys_eq_spec() -> bool {
        true
    }

    open spec fn eq_spec(&self, other: &Self) -> bool {
        self.maxN == other.maxN && self.par@ == other.par@
    }
}

impl UnionFindData {
    /// There are `maxN` parent links and they form a forest.
    pub open spec fn wf(&self) -> bool {
        self.par@.len() == self.maxN && is_forest(self.par@)
    }

    /// The representative of the set that `i` is in.
    pub open spec fn root(&self, i: int) -> int {
        root_of(self.par@, i)
    }

    /// Whether `a` and `b` are in one set.
    pub open spec fn connected(&self, a: int, b: int) -> bool {
        self.root(a) == self.root(b)
    }

    /// `maxN` sets of one element each.
    #[allow(non_snake_case)]
    pub fn new(maxN: usize) -> (r: Self)
        ensures
            r.maxN == maxN,
            r.par@ == Seq::new(maxN as nat, |i: int| i as usize),
            r.wf(),
            forall|i: int| 0 <= i < maxN ==> r.root(i) == i,
    {
        let mut par: Vec<usize> = Vec::new();
        let mut i: usize = 0;
        while i < maxN
            invariant
                i <= maxN,
                par@.len() == i,
                forall|j: int| 0 <= j < i ==> par@[j] == j,
            decreases maxN - i,
        {
            par.push(i);
            i += 1;
        }
        proof {
            assert(par@ =~= Seq::new(maxN as nat, |i: int| i as usize));
            assert forall|i: int| 0 <= i < maxN implies #[trigger] ancestor(par@, i, par@.len()) == i by {
                lemma_root_stays(par@, i, par@.len());
            }
        }
        Self { maxN: maxN, par: par }
    }

    /// Points element `i` at `x`, whatever that does to the forest.
    pub fn set_path(self, i: usize, x: usize) -> (r: Self)
        requires
            i < self.par@.len(),
        ensures
            r.maxN == self.maxN,
            r.par@ == self.par@.update(i as int, x),
            self.wf() ==> (r.wf() <==> x < self.par@.len()
                && (x == i || !on_path(self.par@, x as int, i as int))),
    {
        let mut changed = self;
        changed.par[i] = x;
        proof {
            if self.wf() {
                if x >= self.par@.len() {
                    assert(changed.par@[i as int] == x);
                } else if x == i || !on_path(self.par@, x as int, i as int) {
                    lemma_repointed_forest(self.par@, i as int, x);
                } else {
                    lemma_repointed_cycle(self.par@, i as int, x);
                }
            }
        }
        changed
    }

    /// The representative of the set of `i`. On the way every element passed is
    /// pointed straight at that representative; no element changes its set.
    pub fn find_root(&mut self, i: usize) -> (r: usize)
        requires
            old(self).wf(),
            i < old(self).par@.len(),
        ensures
            r == old(self).root(i as int),
            final(self).maxN == old(self).maxN,
            final(self).par@ == compressed(old(self).par@, i as int),
            final(self).par@[i as int] == r,
            final(self).wf(),
            forall|j: int| 0 <= j < old(self).par@.len() ==> final(self).root(j) == old(self).root(j),
        decreases depth(old(self).par@, i as int),
    {
        proof {
            lemma_root_of(self.par@, i as int);
            lemma_compressed_forest(self.par@, i as int);
        }
        if self.par[i] == i {
            proof {
                lemma_compressed_at_root(self.par@, i as int);
            }
            i
        } else {
            proof {
                lemma_depth_step(self.par@, i as int);
                lemma_compressed_step(self.par@, i as int);
            }
            let up = self.par[i];
            let r = self.find_root(up);
            self.par[i] = r;
            self.par[i]
        }
    }

    /// Whether `a` and `b` are in one set. Flattens the ways from both.
    pub fn same(&mut self, a: usize, b: usize) -> (r: bool)
        requires
            old(self).wf(),
            a < old(self).par@.len(),
            b < old(self).par@.len(),
        ensures
            r == old(self).connected(a as int, b as int),
            final(self).maxN == old(self).maxN,
            final(self).par@ == compressed(compressed(old(self).par@, a as int), b as int),
            final(self).wf(),
            forall|j: int| 0 <= j < old(self).par@.len() ==> final(self).root(j) == old(self).root(j),
    {
        let ra = self.find_root(a);
        let rb = self.find_root(b);
        ra == rb
    }

    /// Merges the sets of `x` and `y`: the representative of `x` is hung below
    /// the representative of `y`, after the ways from both were flattened.
    pub fn union(self, x: usize, y: usize) -> (r: Self)
        requires
            self.wf(),
            x < self.par@.len(),
            y < self.par@.len(),
        ensures
            r.maxN == self.maxN,
            r.par@ == merged(self.par@, x as int, y as int),
            r.wf(),
            r.connected(x as int, y as int),
            forall|j: int|
                0 <= j < self.par@.len() ==> r.root(j) == root_after_link(
                    self.par@,
                    self.root(x as int),
                    self.root(y as int),
                    j,
                ),
    {
        let mut joined = self;
        proof {
            lemma_merged_forest(self.par@, x as int, y as int);
            lemma_root_of(self.par@, x as int);
            lemma_root_of(self.par@, y as int);
        }
        let rx = joined.find_root(x);
        let ry = joined.find_root(y);
        if rx != ry {
            joined.par[rx] = ry;
        } else {
            proof {
                lemma_root_of(joined.par@, rx as int);
                assert(joined.par@ =~= joined.par@.update(rx as int, ry));
            }
        }
        joined
    }
}

/// Being in one set is reflexive, symmetric and transitive, whatever unions came before.
pub proof fn lemma_connected_is_equivalence(sets: UnionFindData, a: int, b: int, c: int)
    ensures
        sets.connected(a, a),
        sets.connected(a, b) == sets.connected(b, a),
        sets.connected(a, b) && sets.connected(b, c) ==> sets.connected(a, c),
{
}

/// A union joins the sets of `x` and `y` and nothing else: afterwards two
/// elements are in one set exactly if they were before, or one of them was
/// with `x` and the other with `y`.
pub proof fn lemma_union_connects(before: UnionFindData, after: UnionFindData, x: int, y: int, a: int, b: int)
    requires
        before.wf(),
        0 <= x < before.par@.len(),
        0 <= y < before.par@.len(),
        0 <= a < before.par@.len(),
        0 <= b < before.par@.len(),
        after.par@ == merged(before.par@, x, y),
    ensures
        after.connected(a, b) <==> (before.connected(a, b)
            || (before.connected(a, x) && before.connected(b, y))
            || (before.connected(a, y) && before.connected(b, x))),
{
    lemma_merged_connects(before.par@, x, y, a, b);
}

} // verus!
