//! Parent-pointer forests as plain sequences: element `i` points at `par[i]`,
//! and an element that points at itself is a root.

use vstd::prelude::*;
use vstd::set_lib::{lemma_int_range, lemma_len_subset, set_int_range};

verus! {

/// Whether `i` points at itself.
pub open spec fn is_root(par: Seq<usize>, i: int) -> bool {
    par[i] == i
}

/// The element reached from `i` by following `steps` parent links.
pub open spec fn ancestor(par: Seq<usize>, i: int, steps: nat) -> int
    decreases steps,
{
    if steps == 0 {
        i
    } else {
        ancestor(par, par[i] as int, (steps - 1) as nat)
    }
}

/// Every parent link stays inside the sequence, and from every element as many
/// links as there are elements lead to a root. With `n` elements a path that
/// ends at a root at all does so within `n` links, so this says that there is
/// no cycle but the roots' own.
pub open spec fn is_forest(par: Seq<usize>) -> bool {
    &&& forall|i: int| 0 <= i < par.len() ==> (#[trigger] par[i]) < par.len()
    &&& forall|i: int| 0 <= i < par.len() ==> is_root(par, #[trigger] ancestor(par, i, par.len()))
}

/// The root of the tree that `i` is in.
pub open spec fn root_of(par: Seq<usize>, i: int) -> int {
    ancestor(par, i, par.len())
}

/// Whether `j` lies on the way from `i` up to its root, both ends included.
pub open spec fn on_path(par: Seq<usize>, i: int, j: int) -> bool {
    exists|steps: nat| ancestor(par, i, steps) == j
}

/// The forest after the way from `i` to its root was flattened: every element
/// on it points straight at the root, every other element where it did.
pub open spec fn compressed(par: Seq<usize>, i: int) -> Seq<usize> {
    Seq::new(
        par.len(),
        |j: int|
            if on_path(par, i, j) {
                root_of(par, i) as usize
            } else {
                par[j]
            },
    )
}

/// The forest after the ways from `x` and then from `y` were flattened and the
/// root of `x` was hung below the root of `y`.
pub open spec fn merged(par: Seq<usize>, x: int, y: int) -> Seq<usize> {
    compressed(compressed(par, x), y).update(root_of(par, x), root_of(par, y) as usize)
}

/// The root of `j` once the root `a` hangs below the root `b`.
pub open spec fn root_after_link(par: Seq<usize>, a: int, b: int, j: int) -> int {
    if root_of(par, j) == a {
        b
    } else {
        root_of(par, j)
    }
}

/// The root of `j` once `i` points at `x`: its own unless the way up from `j`
/// led through `i`.
pub open spec fn root_after_repoint(par: Seq<usize>, i: int, x: usize, j: int) -> int {
    if !on_path(par, j, i) {
        root_of(par, j)
    } else if x == i {
        i
    } else {
        root_of(par, x as int)
    }
}

/// The number of links from `i` to its root, counted up to `fuel`.
pub open spec fn depth_within(par: Seq<usize>, i: int, fuel: nat) -> nat
    decreases fuel,
{
    if fuel == 0 || par[i] == i {
        0
    } else {
        1 + depth_within(par, par[i] as int, (fuel - 1) as nat)
    }
}

/// The number of links from `i` to its root.
pub open spec fn depth(par: Seq<usize>, i: int) -> nat {
    depth_within(par, i, par.len())
}

/// `rank` falls strictly along every link that does not start at a root.
pub open spec fn ranked(par: Seq<usize>, rank: Seq<nat>) -> bool {
    &&& rank.len() == par.len()
    &&& forall|i: int| 0 <= i < par.len() ==> (#[trigger] par[i]) < par.len()
    &&& forall|i: int| 0 <= i < par.len() && par[i] != i ==> rank[par[i] as int] < #[trigger] rank[i]
}

/// Links that stay inside the sequence lead nowhere else.
pub proof fn lemma_ancestor_in_range(par: Seq<usize>, i: int, steps: nat)
    requires
        forall|j: int| 0 <= j < par.len() ==> (#[trigger] par[j]) < par.len(),
        0 <= i < par.len(),
    ensures
        0 <= ancestor(par, i, steps) < par.len(),
    decreases steps,
{
    if steps > 0 {
        lemma_ancestor_in_range(par, par[i] as int, (steps - 1) as nat);
    }
}

/// From a root every number of links leads back to it.
pub proof fn lemma_root_stays(par: Seq<usize>, r: int, steps: nat)
    requires
        is_root(par, r),
    ensures
        ancestor(par, r, steps) == r,
    decreases steps,
{
    if steps > 0 {
        lemma_root_stays(par, r, (steps - 1) as nat);
    }
}

/// Following `a + b` links is following `a` links and then `b` more.
pub proof fn lemma_ancestor_add(par: Seq<usize>, i: int, a: nat, b: nat)
    ensures
        ancestor(par, i, a + b) == ancestor(par, ancestor(par, i, a), b),
    decreases a,
{
    if a > 0 {
        lemma_ancestor_add(par, par[i] as int, (a - 1) as nat, b);
    }
}

/// Once a path has reached a root, more links lead nowhere else.
pub proof fn lemma_settled(par: Seq<usize>, i: int, a: nat, b: nat)
    requires
        is_root(par, ancestor(par, i, a)),
        a <= b,
    ensures
        ancestor(par, i, b) == ancestor(par, i, a),
{
    lemma_ancestor_add(par, i, a, (b - a) as nat);
    lemma_root_stays(par, ancestor(par, i, a), (b - a) as nat);
}

/// In a forest the root of `i` is an element, it is a root, and the parent of
/// `i` has the same one; a root is its own.
pub proof fn lemma_root_of(par: Seq<usize>, i: int)
    requires
        is_forest(par),
        0 <= i < par.len(),
    ensures
        0 <= root_of(par, i) < par.len(),
        is_root(par, root_of(par, i)),
        root_of(par, par[i] as int) == root_of(par, i),
        is_root(par, i) ==> root_of(par, i) == i,
{
    lemma_ancestor_in_range(par, i, par.len());
    if par[i] == i {
        lemma_root_stays(par, i, par.len());
    } else {
        lemma_settled(par, par[i] as int, (par.len() - 1) as nat, par.len());
    }
}

/// Every element on the way from `i` to its root has the root that `i` has.
pub proof fn lemma_path_same_root(par: Seq<usize>, i: int, steps: nat)
    requires
        is_forest(par),
        0 <= i < par.len(),
    ensures
        root_of(par, ancestor(par, i, steps)) == root_of(par, i),
    decreases steps,
{
    if steps > 0 {
        lemma_root_of(par, i);
        lemma_path_same_root(par, par[i] as int, (steps - 1) as nat);
    }
}

/// Once a path has reached a root within `a` links, counting further finds no more.
pub proof fn lemma_depth_settled(par: Seq<usize>, i: int, a: nat, b: nat)
    requires
        is_root(par, ancestor(par, i, a)),
        a <= b,
    ensures
        depth_within(par, i, b) == depth_within(par, i, a),
    decreases a,
{
    if a > 0 && par[i] != i {
        lemma_depth_settled(par, par[i] as int, (a - 1) as nat, (b - 1) as nat);
    }
}

/// One link up, the root is one link nearer.
pub proof fn lemma_depth_step(par: Seq<usize>, i: int)
    requires
        is_forest(par),
        0 <= i < par.len(),
        par[i] != i,
    ensures
        depth(par, par[i] as int) + 1 == depth(par, i),
{
    assert(is_root(par, ancestor(par, i, par.len())));
    lemma_depth_settled(par, par[i] as int, (par.len() - 1) as nat, par.len());
}

/// Along a path that has not reached a root yet, the rank falls with every link.
proof fn lemma_rank_descends(par: Seq<usize>, rank: Seq<nat>, i: int, steps: nat)
    requires
        ranked(par, rank),
        0 <= i < par.len(),
        steps >= 1,
        !is_root(par, ancestor(par, i, (steps - 1) as nat)),
    ensures
        rank[ancestor(par, i, steps)] + steps <= rank[i],
    decreases steps,
{
    if is_root(par, i) {
        lemma_root_stays(par, i, (steps - 1) as nat);
    }
    let up = par[i] as int;
    assert(rank[up] < rank[i]);
    assert(ancestor(par, i, steps) == ancestor(par, up, (steps - 1) as nat));
    if steps > 1 {
        assert(ancestor(par, i, (steps - 1) as nat) == ancestor(par, up, (steps - 2) as nat));
        lemma_rank_descends(par, rank, up, (steps - 1) as nat);
    } else {
        assert(ancestor(par, up, 0) == up);
    }
}

/// A path of `n` links that has not reached a root visits `n + 1` different
/// elements, which `n` elements cannot supply.
proof fn lemma_ranked_path_ends(par: Seq<usize>, rank: Seq<nat>, i: int)
    requires
        ranked(par, rank),
        0 <= i < par.len(),
    ensures
        is_root(par, ancestor(par, i, par.len())),
{
    let n = par.len();
    if !is_root(par, ancestor(par, i, n)) {
        let visited = Seq::new(n + 1, |k: int| ancestor(par, i, k as nat));
        assert forall|a: int, b: int| 0 <= a < b <= n implies visited[a] != visited[b] by {
            let from = ancestor(par, i, a as nat);
            lemma_ancestor_in_range(par, i, a as nat);
            lemma_ancestor_add(par, i, a as nat, (b - a - 1) as nat);
            lemma_ancestor_add(par, i, a as nat, (b - a) as nat);
            if is_root(par, ancestor(par, i, (b - 1) as nat)) {
                lemma_settled(par, i, (b - 1) as nat, n);
            }
            lemma_rank_descends(par, rank, from, (b - a) as nat);
        }
        assert(visited.no_duplicates());
        visited.unique_seq_to_set();
        lemma_int_range(0, n as int);
        assert forall|e: int| visited.to_set().contains(e) implies set_int_range(0, n as int).contains(e) by {
            let k = choose|k: int| 0 <= k < visited.len() && visited[k] == e;
            lemma_ancestor_in_range(par, i, k as nat);
        }
        lemma_len_subset(visited.to_set(), set_int_range(0, n as int));
    }
}

/// A sequence of parent links with a rank that falls along them is a forest.
pub proof fn lemma_ranked_is_forest(par: Seq<usize>, rank: Seq<nat>)
    requires
        ranked(par, rank),
    ensures
        is_forest(par),
{
    assert forall|i: int| 0 <= i < par.len() implies is_root(par, #[trigger] ancestor(par, i, par.len())) by {
        lemma_ranked_path_ends(par, rank, i);
    }
}

/// In a forest the depth is such a rank.
pub proof fn lemma_forest_is_ranked(par: Seq<usize>)
    requires
        is_forest(par),
    ensures
        ranked(par, Seq::new(par.len(), |i: int| depth(par, i))),
{
    let rank = Seq::new(par.len(), |i: int| depth(par, i));
    assert forall|i: int| 0 <= i < par.len() && par[i] != i implies rank[par[i] as int] < #[trigger] rank[i] by {
        lemma_depth_step(par, i);
    }
}

/// The way up from `i` is `i` and the way up from its parent.
pub proof fn lemma_on_path_step(par: Seq<usize>, i: int, j: int)
    ensures
        on_path(par, i, j) <==> (j == i || on_path(par, par[i] as int, j)),
{
    if on_path(par, i, j) && j != i {
        let steps = choose|steps: nat| ancestor(par, i, steps) == j;
        assert(ancestor(par, par[i] as int, (steps - 1) as nat) == j);
    }
    if on_path(par, par[i] as int, j) {
        let steps = choose|steps: nat| ancestor(par, par[i] as int, steps) == j;
        assert(ancestor(par, i, steps + 1) == j);
    }
    assert(ancestor(par, i, 0) == i);
}

/// A root that lies on the way up from `i` is the root of `i`.
pub proof fn lemma_root_on_path(par: Seq<usize>, i: int, j: int)
    requires
        is_forest(par),
        0 <= i < par.len(),
        on_path(par, i, j),
    ensures
        0 <= j < par.len(),
        root_of(par, j) == root_of(par, i),
        is_root(par, j) ==> j == root_of(par, i),
{
    let steps = choose|steps: nat| ancestor(par, i, steps) == j;
    lemma_ancestor_in_range(par, i, steps);
    lemma_path_same_root(par, i, steps);
    lemma_root_of(par, j);
}

/// Flattening the way from a root changes nothing.
pub proof fn lemma_compressed_at_root(par: Seq<usize>, i: int)
    requires
        0 <= i < par.len(),
        is_root(par, i),
    ensures
        compressed(par, i) == par,
{
    lemma_root_stays(par, i, par.len());
    assert forall|j: int| 0 <= j < par.len() implies compressed(par, i)[j] == par[j] by {
        if on_path(par, i, j) {
            let steps = choose|steps: nat| ancestor(par, i, steps) == j;
            lemma_root_stays(par, i, steps);
        }
    }
    assert(compressed(par, i) =~= par);
}

/// Flattening the way from `i` is flattening the way from its parent and then
/// pointing `i` at the root.
pub proof fn lemma_compressed_step(par: Seq<usize>, i: int)
    requires
        is_forest(par),
        0 <= i < par.len(),
    ensures
        compressed(par, i) == compressed(par, par[i] as int).update(i, root_of(par, i) as usize),
{
    lemma_root_of(par, i);
    assert forall|j: int| 0 <= j < par.len() implies compressed(par, i)[j] == compressed(
        par,
        par[i] as int,
    ).update(i, root_of(par, i) as usize)[j] by {
        lemma_on_path_step(par, i, j);
    }
    assert(compressed(par, i) =~= compressed(par, par[i] as int).update(
        i,
        root_of(par, i) as usize,
    ));
}

/// One element's part of `lemma_compressed_forest`, by induction on its depth.
proof fn lemma_compressed_root(par: Seq<usize>, i: int, j: int)
    requires
        is_forest(par),
        is_forest(compressed(par, i)),
        0 <= i < par.len(),
        0 <= j < par.len(),
    ensures
        root_of(compressed(par, i), j) == root_of(par, j),
    decreases depth(par, j),
{
    let flat = compressed(par, i);
    lemma_root_of(par, i);
    lemma_root_of(par, j);
    lemma_root_of(flat, j);
    if on_path(par, i, j) {
        lemma_root_on_path(par, i, j);
        let r = root_of(par, i);
        assert(on_path(par, i, r)) by {
            assert(ancestor(par, i, par.len()) == r);
        }
        assert(flat[r] == r);
        lemma_root_of(flat, r);
    } else if par[j] != j {
        lemma_depth_step(par, j);
        lemma_compressed_root(par, i, par[j] as int);
    }
}

/// Flattening the way from `i` leaves a forest in which every element has the
/// root it had.
pub proof fn lemma_compressed_forest(par: Seq<usize>, i: int)
    requires
        is_forest(par),
        0 <= i < par.len(),
    ensures
        is_forest(compressed(par, i)),
        forall|j: int| 0 <= j < par.len() ==> #[trigger] root_of(compressed(par, i), j) == root_of(par, j),
{
    let flat = compressed(par, i);
    let rank = Seq::new(par.len(), |j: int| depth(par, j));
    lemma_forest_is_ranked(par);
    lemma_root_of(par, i);
    assert forall|j: int| 0 <= j < par.len() && flat[j] != j implies rank[flat[j] as int] < #[trigger] rank[j] by {
        if on_path(par, i, j) {
            lemma_root_on_path(par, i, j);
            assert(rank[j] > 0);
        } else {
            assert(rank[par[j] as int] < rank[j]);
        }
    }
    lemma_ranked_is_forest(flat, rank);
    assert forall|j: int| 0 <= j < par.len() implies root_of(flat, j) == root_of(par, j) by {
        lemma_compressed_root(par, i, j);
    }
}

/// One element's part of `lemma_linked_forest`, by induction on its depth.
proof fn lemma_linked_root(par: Seq<usize>, a: int, b: int, j: int)
    requires
        is_forest(par),
        is_forest(par.update(a, b as usize)),
        0 <= a < par.len(),
        0 <= b < par.len(),
        is_root(par, a),
        is_root(par, b),
        0 <= j < par.len(),
    ensures
        root_of(par.update(a, b as usize), j) == root_after_link(par, a, b, j),
    decreases depth(par, j),
{
    let linked = par.update(a, b as usize);
    lemma_root_of(par, j);
    lemma_root_of(linked, j);
    if j == a {
        lemma_root_of(linked, b);
    } else if par[j] != j {
        lemma_depth_step(par, j);
        lemma_linked_root(par, a, b, par[j] as int);
    }
}

/// Hanging the root `a` below another root `b` leaves a forest in which the
/// elements that had the root `a` have the root `b`, and every other element
/// the root it had.
pub proof fn lemma_linked_forest(par: Seq<usize>, a: int, b: int)
    requires
        is_forest(par),
        0 <= a < par.len(),
        0 <= b < par.len(),
        is_root(par, a),
        is_root(par, b),
    ensures
        is_forest(par.update(a, b as usize)),
        forall|j: int|
            0 <= j < par.len() ==> #[trigger] root_of(par.update(a, b as usize), j) == root_after_link(
                par,
                a,
                b,
                j,
            ),
{
    let linked = par.update(a, b as usize);
    let rank = Seq::new(
        par.len(),
        |j: int|
            if j == b {
                0nat
            } else {
                depth(par, j) + 1
            },
    );
    lemma_forest_is_ranked(par);
    assert forall|j: int| 0 <= j < par.len() && linked[j] != j implies rank[linked[j] as int] < #[trigger] rank[j] by {
        if j != a {
            lemma_depth_step(par, j);
        }
    }
    lemma_ranked_is_forest(linked, rank);
    assert forall|j: int| 0 <= j < par.len() implies #[trigger] root_of(linked, j) == root_after_link(
        par,
        a,
        b,
        j,
    ) by {
        lemma_linked_root(par, a, b, j);
    }
}

/// Merging the trees of `x` and `y` leaves a forest in which the elements of
/// the tree of `x` have the root of `y`, and every other element the root it had.
pub proof fn lemma_merged_forest(par: Seq<usize>, x: int, y: int)
    requires
        is_forest(par),
        0 <= x < par.len(),
        0 <= y < par.len(),
    ensures
        is_forest(merged(par, x, y)),
        merged(par, x, y).len() == par.len(),
        forall|j: int|
            0 <= j < par.len() ==> #[trigger] root_of(merged(par, x, y), j) == root_after_link(
                par,
                root_of(par, x),
                root_of(par, y),
                j,
            ),
{
    let once = compressed(par, x);
    let twice = compressed(once, y);
    lemma_compressed_forest(par, x);
    lemma_compressed_forest(once, y);
    lemma_root_of(par, x);
    lemma_root_of(par, y);
    lemma_root_of(twice, x);
    lemma_root_of(twice, y);
    lemma_linked_forest(twice, root_of(par, x), root_of(par, y));
    assert forall|j: int| 0 <= j < par.len() implies #[trigger] root_of(merged(par, x, y), j)
        == root_after_link(par, root_of(par, x), root_of(par, y), j) by {
        assert(root_of(twice, j) == root_of(once, j));
        assert(root_of(once, j) == root_of(par, j));
    }
}

/// After a merge two elements have one root exactly if they had one before,
/// or one of them was with `x` and the other with `y`.
pub proof fn lemma_merged_connects(par: Seq<usize>, x: int, y: int, a: int, b: int)
    requires
        is_forest(par),
        0 <= x < par.len(),
        0 <= y < par.len(),
        0 <= a < par.len(),
        0 <= b < par.len(),
    ensures
        root_of(merged(par, x, y), a) == root_of(merged(par, x, y), b) <==> (root_of(par, a) == root_of(par, b)
            || (root_of(par, a) == root_of(par, x) && root_of(par, b) == root_of(par, y))
            || (root_of(par, a) == root_of(par, y) && root_of(par, b) == root_of(par, x))),
{
    lemma_merged_forest(par, x, y);
}

/// The rank that shows a forest to stay one when `i` is pointed at `x`: the
/// depth, raised for the elements whose way up leads through `i` by what the
/// way from `x` adds.
pub open spec fn repointed_rank(par: Seq<usize>, i: int, x: usize, j: int) -> nat {
    if x != i && on_path(par, j, i) {
        depth(par, j) + depth(par, x as int) + 1
    } else {
        depth(par, j)
    }
}

/// `repointed_rank` falls along every link of the repointed sequence.
proof fn lemma_repointed_ranked(par: Seq<usize>, i: int, x: usize)
    requires
        is_forest(par),
        0 <= i < par.len(),
        x < par.len(),
        x == i || !on_path(par, x as int, i),
    ensures
        ranked(par.update(i, x), Seq::new(par.len(), |j: int| repointed_rank(par, i, x, j))),
{
    let moved = par.update(i, x);
    let rank = Seq::new(par.len(), |j: int| repointed_rank(par, i, x, j));
    assert forall|j: int| 0 <= j < par.len() implies (#[trigger] moved[j]) < par.len() by {
        assert(par[j] < par.len());
    }
    assert forall|j: int| 0 <= j < par.len() && moved[j] != j implies rank[moved[j] as int] < #[trigger] rank[j] by {
        let up = moved[j] as int;
        assert(rank[up] == repointed_rank(par, i, x, up));
        assert(rank[j] == repointed_rank(par, i, x, j));
        lemma_on_path_step(par, j, i);
        if j != i {
            assert(up == par[j]);
            lemma_depth_step(par, j);
        }
    }
}

/// One element's part of `lemma_repointed_forest`, by induction on its rank.
proof fn lemma_repointed_root(par: Seq<usize>, i: int, x: usize, j: int)
    requires
        is_forest(par),
        is_forest(par.update(i, x)),
        0 <= i < par.len(),
        x < par.len(),
        x == i || !on_path(par, x as int, i),
        0 <= j < par.len(),
    ensures
        root_of(par.update(i, x), j) == root_after_repoint(par, i, x, j),
    decreases repointed_rank(par, i, x, j),
{
    let moved = par.update(i, x);
    lemma_root_of(par, j);
    lemma_root_of(moved, j);
    lemma_on_path_step(par, j, i);
    if j == i {
        if x != i {
            lemma_repointed_root(par, i, x, x as int);
        }
    } else if par[j] == j {
        if on_path(par, j, i) {
            let steps = choose|steps: nat| ancestor(par, j, steps) == i;
            lemma_root_stays(par, j, steps);
        }
    } else {
        lemma_depth_step(par, j);
        lemma_repointed_root(par, i, x, par[j] as int);
    }
}

/// Pointing `i` at itself, or at an element whose way up does not lead
/// through `i`, leaves a forest. The elements whose way up led through `i`
/// get the root of `x` (or `i`, where `x` is `i`); every other element keeps its root.
pub proof fn lemma_repointed_forest(par: Seq<usize>, i: int, x: usize)
    requires
        is_forest(par),
        0 <= i < par.len(),
        x < par.len(),
        x == i || !on_path(par, x as int, i),
    ensures
        is_forest(par.update(i, x)),
        forall|j: int|
            0 <= j < par.len() ==> #[trigger] root_of(par.update(i, x), j) == root_after_repoint(par, i, x, j),
{
    let moved = par.update(i, x);
    lemma_repointed_ranked(par, i, x);
    lemma_ranked_is_forest(moved, Seq::new(par.len(), |j: int| repointed_rank(par, i, x, j)));
    assert forall|j: int| 0 <= j < par.len() implies #[trigger] root_of(moved, j) == root_after_repoint(
        par,
        i,
        x,
        j,
    ) by {
        lemma_repointed_root(par, i, x, j);
    }
}

/// If the repointed sequence were a forest, no element whose way up led
/// through `i` would be nearer to its root than `i` is.
proof fn lemma_repointed_no_nearer(par: Seq<usize>, i: int, x: usize, c: int, steps: nat)
    requires
        is_forest(par),
        is_forest(par.update(i, x)),
        0 <= i < par.len(),
        0 <= c < par.len(),
        ancestor(par, c, steps) == i,
    ensures
        depth(par.update(i, x), i) <= depth(par.update(i, x), c),
    decreases steps,
{
    if c != i {
        if par[c] == c {
            lemma_root_stays(par, c, steps);
        }
        lemma_depth_step(par.update(i, x), c);
        lemma_repointed_no_nearer(par, i, x, par[c] as int, (steps - 1) as nat);
    }
}

/// Pointing `i` at another element whose way up leads through `i` closes a cycle.
pub proof fn lemma_repointed_cycle(par: Seq<usize>, i: int, x: usize)
    requires
        is_forest(par),
        0 <= i < par.len(),
        x < par.len(),
        x != i,
        on_path(par, x as int, i),
    ensures
        !is_forest(par.update(i, x)),
{
    let moved = par.update(i, x);
    if is_forest(moved) {
        let steps = choose|steps: nat| ancestor(par, x as int, steps) == i;
        lemma_repointed_no_nearer(par, i, x, x as int, steps);
        lemma_depth_step(moved, i);
    }
}

} // verus!
