//! The depth of every node in its board's tree, for laying out generations.
//!
//! Each node points at its parent by position. A node without a parent has
//! depth 0 and any other node sits one below its parent. Broken data can
//! make parents form a cycle; every node on a cycle gets the cycle's length
//! as its depth, so nodes hanging below a cycle still get finite depths.

use vstd::prelude::*;

use crate::boards::{Board, BoardNode};
use crate::strings::same_text;

verus! {

/// The node `k` parent steps above `i`, or `None` once a root was passed.
pub open spec fn ancestor(parents: Seq<Option<usize>>, i: int, k: nat) -> Option<int>
    decreases k,
{
    if k == 0 {
        Some(i)
    } else {
        match ancestor(parents, i, (k - 1) as nat) {
            Some(j) => match parents[j] {
                Some(p) => Some(p as int),
                None => None,
            },
            None => None,
        }
    }
}

/// Whether following parents from `i` comes back to `i`.
pub open spec fn on_cycle(parents: Seq<Option<usize>>, i: int) -> bool {
    exists|k: nat| k >= 1 && ancestor(parents, i, k) == Some(i)
}

/// Whether every parent is a node.
pub open spec fn parents_in_range(parents: Seq<Option<usize>>) -> bool {
    forall|i: int| 0 <= i < parents.len() ==> match #[trigger] parents[i] {
        Some(p) => p < parents.len(),
        None => true,
    }
}

/// Whether `depth` is the length of the cycle through `i`: following
/// parents from `i` comes back to it after `depth` steps and not before.
pub open spec fn cycle_length_is(parents: Seq<Option<usize>>, i: int, depth: nat) -> bool {
    &&& depth >= 1
    &&& ancestor(parents, i, depth) == Some(i)
    &&& forall|k: nat| 1 <= k < depth ==> ancestor(parents, i, k) != Some(i)
}

/// What the depth of node `i` must be, given the depths of the others: 0
/// for a root, the cycle's length on a cycle, one more than the parent's
/// otherwise.
pub open spec fn depth_fits(parents: Seq<Option<usize>>, depths: Seq<usize>, i: int) -> bool {
    match parents[i] {
        None => depths[i] == 0,
        Some(p) => if on_cycle(parents, i) {
            cycle_length_is(parents, i, depths[i] as nat)
        } else {
            depths[i] == depths[p as int] + 1
        },
    }
}

/// Whether `depths` gives every node the depth it must have. These
/// equations have exactly one solution.
pub open spec fn depths_fit(parents: Seq<Option<usize>>, depths: Seq<usize>) -> bool {
    &&& depths.len() == parents.len()
    &&& forall|i: int| 0 <= i < parents.len() ==> #[trigger] depth_fits(parents, depths, i)
}

/// A node's chain of parents cannot stay clear of roots for more steps than
/// there are nodes without passing some node twice.
proof fn lemma_path_repeats(parents: Seq<Option<usize>>, i: int)
    requires
        parents_in_range(parents),
        0 <= i < parents.len(),
        forall|k: nat| k <= parents.len() ==> #[trigger] ancestor(parents, i, k) is Some,
    ensures
        exists|a: nat, b: nat|
            a < b <= parents.len() && #[trigger] ancestor(parents, i, a) == #[trigger] ancestor(
                parents,
                i,
                b,
            ),
{
    let n = parents.len();
    if !(exists|a: nat, b: nat|
        a < b <= n && #[trigger] ancestor(parents, i, a) == #[trigger] ancestor(parents, i, b)) {
        let steps = vstd::set_lib::set_int_range(0, n + 1int);
        let at = |k: int| ancestor(parents, i, k as nat)->0;
        assert forall|x: int, y: int| steps.contains(x) && steps.contains(y) && #[trigger] at(x)
            == #[trigger] at(y) implies x == y by {
            if x < y {
                assert(ancestor(parents, i, x as nat) is Some);
                assert(ancestor(parents, i, y as nat) is Some);
                assert(ancestor(parents, i, x as nat) == ancestor(parents, i, y as nat));
            } else if y < x {
                assert(ancestor(parents, i, x as nat) is Some);
                assert(ancestor(parents, i, y as nat) is Some);
                assert(ancestor(parents, i, y as nat) == ancestor(parents, i, x as nat));
            }
        }
        assert(vstd::relations::injective_on(at, steps));
        vstd::set_lib::lemma_int_range(0, n + 1int);
        vstd::set_lib::lemma_map_size(steps, steps.map(at), at);
        let nodes = vstd::set_lib::set_int_range(0, n as int);
        vstd::set_lib::lemma_int_range(0, n as int);
        assert forall|j: int| steps.map(at).contains(j) implies nodes.contains(j) by {
            let k = choose|k: int| steps.contains(k) && at(k) == j;
            lemma_ancestor_in_range(parents, i, k as nat);
        }
        vstd::set_lib::lemma_len_subset(steps.map(at), nodes);
    }
}

/// Roots and nodes on a cycle have the same depth in any two solutions.
proof fn lemma_fixed_depths_agree(
    parents: Seq<Option<usize>>,
    first: Seq<usize>,
    second: Seq<usize>,
    j: int,
)
    requires
        depths_fit(parents, first),
        depths_fit(parents, second),
        0 <= j < parents.len(),
        parents[j] is None || on_cycle(parents, j),
    ensures
        first[j] == second[j],
{
    assert(depth_fits(parents, first, j));
    assert(depth_fits(parents, second, j));
    if parents[j] is Some {
        let a = first[j] as nat;
        let b = second[j] as nat;
        if a < b {
            assert(ancestor(parents, j, a) == Some(j));
        } else if b < a {
            assert(ancestor(parents, j, b) == Some(j));
        }
    }
}

/// Along the parents of a node where two solutions differ, every ancestor
/// is neither a root nor on a cycle, and the solutions differ there by the
/// same amount.
proof fn lemma_difference_climbs(
    parents: Seq<Option<usize>>,
    first: Seq<usize>,
    second: Seq<usize>,
    i: int,
    k: nat,
)
    requires
        parents_in_range(parents),
        depths_fit(parents, first),
        depths_fit(parents, second),
        0 <= i < parents.len(),
        first[i] != second[i],
    ensures
        ancestor(parents, i, k) matches Some(j) && 0 <= j < parents.len() && parents[j] is Some
            && !on_cycle(parents, j) && first[j] - second[j] == first[i] - second[i],
    decreases k,
{
    if k == 0 {
        if parents[i] is None || on_cycle(parents, i) {
            lemma_fixed_depths_agree(parents, first, second, i);
        }
    } else {
        lemma_difference_climbs(parents, first, second, i, (k - 1) as nat);
        let j = ancestor(parents, i, (k - 1) as nat)->0;
        let p = parents[j]->0 as int;
        assert(depth_fits(parents, first, j));
        assert(depth_fits(parents, second, j));
        assert(match parents[j] {
            Some(q) => q < parents.len(),
            None => true,
        });
        assert(ancestor(parents, i, k) == Some(p));
        if parents[p] is None || on_cycle(parents, p) {
            lemma_fixed_depths_agree(parents, first, second, p);
        }
    }
}

/// The depth equations have exactly one solution: two assignments that
/// both give every node the depth it must have are the same.
pub proof fn lemma_depths_unique(parents: Seq<Option<usize>>, first: Seq<usize>, second: Seq<usize>)
    requires
        parents_in_range(parents),
        depths_fit(parents, first),
        depths_fit(parents, second),
    ensures
        first == second,
{
    assert forall|i: int| 0 <= i < parents.len() implies first[i] == second[i] by {
        if first[i] != second[i] {
            assert forall|k: nat| k <= parents.len() implies #[trigger] ancestor(parents, i, k)
                is Some by {
                lemma_difference_climbs(parents, first, second, i, k);
            }
            lemma_path_repeats(parents, i);
            let (a, b) = choose|a: nat, b: nat|
                a < b <= parents.len() && #[trigger] ancestor(parents, i, a) == #[trigger] ancestor(
                    parents,
                    i,
                    b,
                );
            let y = ancestor(parents, i, a)->0;
            lemma_ancestor_add(parents, i, a, (b - a) as nat);
            assert(ancestor(parents, y, (b - a) as nat) == Some(y));
            assert(on_cycle(parents, y));
            lemma_difference_climbs(parents, first, second, i, a);
        }
    }
    assert(first =~= second);
}

// ---------------------------------------------------------------------------
// Facts about following parents.

proof fn lemma_ancestor_add(parents: Seq<Option<usize>>, i: int, a: nat, b: nat)
    ensures
        ancestor(parents, i, a + b) == match ancestor(parents, i, a) {
            Some(j) => ancestor(parents, j, b),
            None => None,
        },
    decreases b,
{
    if b > 0 {
        lemma_ancestor_add(parents, i, a, (b - 1) as nat);
        assert((a + b - 1) as nat == a + (b - 1) as nat);
    }
}

proof fn lemma_ancestor_none_stays(parents: Seq<Option<usize>>, i: int, a: nat, b: nat)
    requires
        a <= b,
        ancestor(parents, i, a) is None,
    ensures
        ancestor(parents, i, b) is None,
    decreases b - a,
{
    if a < b {
        lemma_ancestor_none_stays(parents, i, a, (b - 1) as nat);
    }
}

proof fn lemma_ancestor_in_range(parents: Seq<Option<usize>>, i: int, k: nat)
    requires
        parents_in_range(parents),
        0 <= i < parents.len(),
    ensures
        ancestor(parents, i, k) matches Some(j) ==> 0 <= j < parents.len(),
    decreases k,
{
    if k > 0 {
        lemma_ancestor_in_range(parents, i, (k - 1) as nat);
        match ancestor(parents, i, (k - 1) as nat) {
            Some(j) => {
                assert(match parents[j] {
                    Some(p) => p < parents.len(),
                    None => true,
                });
            },
            None => {},
        }
    }
}

proof fn lemma_cycle_repeats(parents: Seq<Option<usize>>, x: int, m: nat, t: nat)
    requires
        m >= 1,
        ancestor(parents, x, m) == Some(x),
    ensures
        ancestor(parents, x, t * m) == Some(x),
    decreases t,
{
    if t == 0 {
        assert(t * m == 0);
    } else {
        let previous = (t - 1) as nat;
        lemma_cycle_repeats(parents, x, m, previous);
        let steps = previous * m;
        lemma_ancestor_add(parents, x, steps, m);
        assert(steps + m == t * m) by (nonlinear_arith)
            requires
                steps == previous * m,
                previous + 1 == t,
        ;
    }
}

/// Following parents from a node on a cycle comes back to it from any of
/// its ancestors.
proof fn lemma_cycle_returns(parents: Seq<Option<usize>>, x: int, m: nat, a: nat, y: int)
    requires
        m >= 1,
        ancestor(parents, x, m) == Some(x),
        ancestor(parents, x, a) == Some(y),
    ensures
        exists|b: nat| ancestor(parents, y, b) == Some(x),
{
    lemma_cycle_repeats(parents, x, m, a);
    assert(a * m >= a) by (nonlinear_arith)
        requires
            m >= 1,
    ;
    let b = (a * m - a) as nat;
    lemma_ancestor_add(parents, x, a, b);
    assert(a + b == a * m);
    assert(ancestor(parents, y, b) == Some(x));
}

/// A node whose parents lead to a root is not on a cycle.
proof fn lemma_root_breaks_cycle(parents: Seq<Option<usize>>, x: int, a: nat)
    requires
        ancestor(parents, x, a) is None,
    ensures
        !on_cycle(parents, x),
{
    if on_cycle(parents, x) {
        let m = choose|k: nat| k >= 1 && ancestor(parents, x, k) == Some(x);
        lemma_cycle_repeats(parents, x, m, a);
        assert(a * m >= a) by (nonlinear_arith)
            requires
                m >= 1,
        ;
        lemma_ancestor_none_stays(parents, x, a, a * m);
    }
}

/// The depths assigned so far: each assigned node's parent is assigned,
/// and its depth is the one it must have, at most `count`.
pub open spec fn settled(parents: Seq<Option<usize>>, depths: Seq<Option<usize>>, count: nat) -> bool {
    &&& depths.len() == parents.len()
    &&& forall|i: int|
        0 <= i < parents.len() && #[trigger] depths[i] is Some ==> {
            let d = depths[i]->0;
            &&& d <= count
            &&& match parents[i] {
                None => d == 0,
                Some(p) => {
                    &&& depths[p as int] is Some
                    &&& if on_cycle(parents, i) {
                        cycle_length_is(parents, i, d as nat)
                    } else {
                        d == depths[p as int]->0 + 1
                    }
                },
            }
        }
}

/// An assigned node's ancestors are all assigned.
proof fn lemma_settled_ancestors(
    parents: Seq<Option<usize>>,
    depths: Seq<Option<usize>>,
    count: nat,
    x: int,
    k: nat,
)
    requires
        parents_in_range(parents),
        settled(parents, depths, count),
        0 <= x < parents.len(),
        depths[x] is Some,
    ensures
        ancestor(parents, x, k) matches Some(y) ==> depths[y] is Some,
    decreases k,
{
    if k > 0 {
        lemma_settled_ancestors(parents, depths, count, x, (k - 1) as nat);
        lemma_ancestor_in_range(parents, x, (k - 1) as nat);
    }
}

/// The number of assigned depths.
pub open spec fn assigned_count(depths: Seq<Option<usize>>) -> nat
    decreases depths.len(),
{
    if depths.len() == 0 {
        0
    } else {
        assigned_count(depths.drop_last()) + if depths.last() is Some {
            1nat
        } else {
            0nat
        }
    }
}

proof fn lemma_assigned_count_bound(depths: Seq<Option<usize>>)
    ensures
        assigned_count(depths) <= depths.len(),
    decreases depths.len(),
{
    if depths.len() > 0 {
        lemma_assigned_count_bound(depths.drop_last());
    }
}

proof fn lemma_assigned_count_set(depths: Seq<Option<usize>>, j: int, value: usize)
    requires
        0 <= j < depths.len(),
        depths[j] is None,
    ensures
        assigned_count(depths.update(j, Some(value))) == assigned_count(depths) + 1,
    decreases depths.len(),
{
    let updated = depths.update(j, Some(value));
    if j == depths.len() - 1 {
        assert(updated.drop_last() =~= depths.drop_last());
    } else {
        assert(updated.drop_last() =~= depths.drop_last().update(j, Some(value)));
        lemma_assigned_count_set(depths.drop_last(), j, value);
    }
}

/// The number of nodes the current walk has not visited.
pub open spec fn unvisited(generation: Seq<usize>, start: usize) -> nat
    decreases generation.len(),
{
    if generation.len() == 0 {
        0
    } else {
        unvisited(generation.drop_last(), start) + if generation.last() != start {
            1nat
        } else {
            0nat
        }
    }
}

proof fn lemma_unvisited_set(generation: Seq<usize>, start: usize, j: int)
    requires
        0 <= j < generation.len(),
        generation[j] != start,
    ensures
        unvisited(generation.update(j, start), start) + 1 == unvisited(generation, start),
    decreases generation.len(),
{
    let updated = generation.update(j, start);
    if j == generation.len() - 1 {
        assert(updated.drop_last() =~= generation.drop_last());
    } else {
        assert(updated.drop_last() =~= generation.drop_last().update(j, start));
        lemma_unvisited_set(generation.drop_last(), start, j);
    }
}

/// A node below an assigned one that is not itself assigned is not on a
/// cycle: its cycle would run through the assigned node.
proof fn lemma_unassigned_below_assigned(
    parents: Seq<Option<usize>>,
    depths: Seq<Option<usize>>,
    count: nat,
    x: int,
    current: int,
    a: nat,
)
    requires
        parents_in_range(parents),
        settled(parents, depths, count),
        0 <= x < parents.len(),
        0 <= current < parents.len(),
        ancestor(parents, x, a) == Some(current),
        depths[current] is Some,
        depths[x] is None,
    ensures
        !on_cycle(parents, x),
{
    if on_cycle(parents, x) {
        let m = choose|k: nat| k >= 1 && ancestor(parents, x, k) == Some(x);
        lemma_cycle_returns(parents, x, m, a, current);
        let b = choose|b: nat| ancestor(parents, current, b) == Some(x);
        lemma_settled_ancestors(parents, depths, count, current, b);
    }
}

/// The nodes walked from `start`: `path[j]` is `j` steps above `start`,
/// all different.
pub open spec fn walked(parents: Seq<Option<usize>>, start: int, path: Seq<usize>) -> bool {
    &&& forall|j: int|
        0 <= j < path.len() ==> ancestor(parents, start, j as nat) == Some(#[trigger] path[j] as int)
    &&& forall|a: int, b: int| 0 <= a < b < path.len() ==> path[a] != path[b]
}

proof fn lemma_path_step(parents: Seq<Option<usize>>, start: int, path: Seq<usize>, j: int, m: nat)
    requires
        walked(parents, start, path),
        0 <= j < path.len(),
    ensures
        ancestor(parents, path[j] as int, m) == ancestor(parents, start, (j + m) as nat),
{
    lemma_ancestor_add(parents, start, j as nat, m);
    assert(path[j] == path[j]);
}

proof fn lemma_cycle_reduce(
    parents: Seq<Option<usize>>,
    start: int,
    path: Seq<usize>,
    c: int,
    t: nat,
)
    requires
        walked(parents, start, path),
        0 <= c < path.len(),
        ancestor(parents, start, path.len() as nat) == Some(path[c] as int),
        t >= c,
    ensures
        exists|u: int| c <= u < path.len() && ancestor(parents, start, t) == Some(#[trigger] path[u] as int),
    decreases t,
{
    let k = path.len() as int;
    if t < k {
        assert(ancestor(parents, start, t) == Some(path[t as int] as int));
    } else {
        let rest = (t - k) as nat;
        lemma_ancestor_add(parents, start, k as nat, rest);
        lemma_ancestor_add(parents, start, c as nat, rest);
        assert(ancestor(parents, start, c as nat) == Some(path[c] as int));
        let smaller = (c + rest) as nat;
        assert(k as nat + rest == t);
        lemma_cycle_reduce(parents, start, path, c, smaller);
    }
}

/// When the walk from `start` comes back to `path[c]`, the walked nodes
/// from `c` on form a cycle of length `path.len() - c`, and the nodes before
/// are not on any cycle.
proof fn lemma_cycle_found(parents: Seq<Option<usize>>, start: int, path: Seq<usize>, c: int)
    requires
        walked(parents, start, path),
        0 <= c < path.len(),
        ancestor(parents, start, path.len() as nat) == Some(path[c] as int),
    ensures
        forall|j: int|
            c <= j < path.len() ==> on_cycle(parents, #[trigger] path[j] as int) && cycle_length_is(
                parents,
                path[j] as int,
                (path.len() - c) as nat,
            ),
        forall|j: int| 0 <= j < c ==> !on_cycle(parents, #[trigger] path[j] as int),
{
    let k = path.len() as int;
    let cycle = (k - c) as nat;
    assert forall|j: int| c <= j < k implies on_cycle(parents, #[trigger] path[j] as int)
        && cycle_length_is(parents, path[j] as int, cycle) by {
        let x = path[j] as int;
        lemma_path_step(parents, start, path, j, cycle);
        lemma_ancestor_add(parents, start, k as nat, (j - c) as nat);
        lemma_ancestor_add(parents, start, c as nat, (j - c) as nat);
        assert(ancestor(parents, start, c as nat) == Some(path[c] as int));
        assert((j + cycle) as nat == k as nat + (j - c) as nat);
        assert(ancestor(parents, start, j as nat) == Some(x));
        assert(ancestor(parents, x, cycle) == Some(x));
        assert forall|m: nat| 1 <= m < cycle implies ancestor(parents, x, m) != Some(x) by {
            lemma_path_step(parents, start, path, j, m);
            if j + m < k {
                assert(ancestor(parents, start, (j + m) as nat) == Some(path[j + m] as int));
                assert(path[j] != path[j + m]);
            } else {
                let over = (j + m - k) as nat;
                lemma_ancestor_add(parents, start, k as nat, over);
                lemma_ancestor_add(parents, start, c as nat, over);
                assert((j + m) as nat == k as nat + over);
                let u = c + over;
                assert(ancestor(parents, start, u as nat) == Some(path[u] as int));
                assert(path[u] != path[j]);
            }
        }
    }
    assert forall|j: int| 0 <= j < c implies !on_cycle(parents, #[trigger] path[j] as int) by {
        let x = path[j] as int;
        if on_cycle(parents, x) {
            let m = choose|m: nat| m >= 1 && ancestor(parents, x, m) == Some(x);
            lemma_path_step(parents, start, path, j, m);
            if j + m < k {
                assert(ancestor(parents, start, (j + m) as nat) == Some(path[j + m] as int));
                assert(path[j] != path[j + m]);
            } else {
                lemma_cycle_reduce(parents, start, path, c, (j + m) as nat);
                let u = choose|u: int| c <= u < k && ancestor(parents, start, (j + m) as nat) == Some(
                    #[trigger] path[u] as int,
                );
                assert(path[u] != path[j]);
            }
        }
    }
}

/// When the walk from `start` ends at a root, none of the walked nodes is
/// on a cycle.
proof fn lemma_root_found(parents: Seq<Option<usize>>, start: int, path: Seq<usize>)
    requires
        walked(parents, start, path),
        path.len() > 0,
        ancestor(parents, start, path.len() as nat) is None,
    ensures
        forall|j: int| 0 <= j < path.len() ==> !on_cycle(parents, #[trigger] path[j] as int),
{
    assert forall|j: int| 0 <= j < path.len() implies !on_cycle(parents, #[trigger] path[j] as int) by {
        let rest = (path.len() - j) as nat;
        lemma_path_step(parents, start, path, j, rest);
        assert((j + rest) as nat == path.len() as nat);
        lemma_root_breaks_cycle(parents, path[j] as int, rest);
    }
}

proof fn lemma_assigned_count_empty(depths: Seq<Option<usize>>)
    requires
        forall|i: int| 0 <= i < depths.len() ==> #[trigger] depths[i] is None,
    ensures
        assigned_count(depths) == 0,
    decreases depths.len(),
{
    if depths.len() > 0 {
        lemma_assigned_count_empty(depths.drop_last());
    }
}

proof fn lemma_assigned_count_below(depths: Seq<Option<usize>>, j: int)
    requires
        0 <= j < depths.len(),
        depths[j] is None,
    ensures
        assigned_count(depths) < depths.len(),
{
    lemma_assigned_count_set(depths, j, 0);
    lemma_assigned_count_bound(depths.update(j, Some(0usize)));
}

/// Assigns `value` to a node that had no depth, keeping the count.
fn assign(depths: &mut Vec<Option<usize>>, count: &mut usize, node: usize, value: usize, total: usize)
    requires
        total == old(depths)@.len(),
        node < old(depths)@.len(),
        old(depths)@[node as int] is None,
        *old(count) == assigned_count(old(depths)@),
    ensures
        final(depths)@ == old(depths)@.update(node as int, Some(value)),
        *final(count) == *old(count) + 1,
        *final(count) == assigned_count(final(depths)@),
        *final(count) <= final(depths)@.len(),
{
    proof {
        lemma_assigned_count_set(depths@, node as int, value);
        lemma_assigned_count_bound(depths@.update(node as int, Some(value)));
    }
    depths.set(node, Some(value));
    *count = *count + 1;
}

/// The depth of every node, given each node's parent position.
pub fn tree_depths(parents: &Vec<Option<usize>>) -> (depths: Vec<usize>)
    requires
        parents_in_range(parents@),
    ensures
        depths_fit(parents@, depths@),
{
    let ghost ps = parents@;
    let n = parents.len();
    let mut depths: Vec<Option<usize>> = Vec::new();
    let mut generation: Vec<usize> = Vec::new();
    let mut position: Vec<usize> = Vec::new();
    let mut k: usize = 0;
    while k < n
        invariant
            k <= n,
            n == ps.len(),
            depths@.len() == k,
            generation@.len() == k,
            position@.len() == k,
            forall|i: int| 0 <= i < k ==> #[trigger] depths@[i] is None,
            forall|i: int| 0 <= i < k ==> #[trigger] generation@[i] == usize::MAX,
        decreases n - k,
    {
        depths.push(None);
        generation.push(usize::MAX);
        position.push(0);
        k += 1;
    }
    let mut count: usize = 0;
    proof {
        lemma_assigned_count_empty(depths@);
    }
    let mut path: Vec<usize> = Vec::new();
    let mut start: usize = 0;
    while start < n
        invariant
            n == ps.len(),
            ps == parents@,
            parents_in_range(ps),
            start <= n,
            depths@.len() == n,
            generation@.len() == n,
            position@.len() == n,
            count == assigned_count(depths@),
            settled(ps, depths@, count as nat),
            forall|i: int| 0 <= i < start ==> #[trigger] depths@[i] is Some,
            forall|x: int|
                0 <= x < n ==> #[trigger] generation@[x] == usize::MAX || generation@[x] < start,
        decreases n - start,
    {
        if depths[start].is_some() {
            start += 1;
            continue;
        }
        path.clear();
        let mut current = start;
        loop
            invariant_except_break
                depths@[start as int] is None,
                current < n,
                walked(ps, start as int, path@),
                ancestor(ps, start as int, path@.len() as nat) == Some(current as int),
                forall|j: int|
                    0 <= j < path@.len() ==> #[trigger] path@[j] < n && depths@[path@[j] as int] is None
                        && generation@[path@[j] as int] == start && position@[path@[j] as int] == j,
                forall|x: int|
                    0 <= x < n && #[trigger] generation@[x] == start ==> position@[x] < path@.len()
                        && path@[position@[x] as int] == x,
            invariant
                n == ps.len(),
                ps == parents@,
                parents_in_range(ps),
                start < n,
                depths@.len() == n,
                generation@.len() == n,
                position@.len() == n,
                count == assigned_count(depths@),
                settled(ps, depths@, count as nat),
                forall|i: int| 0 <= i < start ==> #[trigger] depths@[i] is Some,
                forall|x: int|
                    0 <= x < n ==> #[trigger] generation@[x] == usize::MAX || generation@[x] <= start,
            ensures
                depths@.len() == n,
                generation@.len() == n,
                position@.len() == n,
                count == assigned_count(depths@),
                settled(ps, depths@, count as nat),
                forall|i: int| 0 <= i <= start ==> #[trigger] depths@[i] is Some,
                forall|x: int|
                    0 <= x < n ==> #[trigger] generation@[x] == usize::MAX || generation@[x] <= start,
            decreases unvisited(generation@, start),
        {
            if let Some(depth) = depths[current] {
                // The walk reached an assigned node: the walked nodes sit
                // one below each other above it.
                let ghost walk = path@;
                let ghost top = current;
                proof {
                    if walk.len() == 0 {
                        assert(current == start);
                    }
                    assert(walk[0] == start);
                    lemma_assigned_count_bound(depths@);
                }
                let mut value = depth;
                while path.len() > 0
                    invariant
                        n == ps.len(),
                        parents_in_range(ps),
                        start < n,
                        depths@.len() == n,
                        generation@.len() == n,
                        position@.len() == n,
                        count == assigned_count(depths@),
                        count <= n,
                        settled(ps, depths@, count as nat),
                        forall|i: int| 0 <= i < start ==> #[trigger] depths@[i] is Some,
                        walked(ps, start as int, walk),
                        walk.len() > 0,
                        walk[0] == start,
                        ancestor(ps, start as int, walk.len() as nat) == Some(top as int),
                        top < n,
                        depths@[top as int] is Some,
                        path@ == walk.take(path@.len() as int),
                        path@.len() <= walk.len(),
                        forall|j: int|
                            0 <= j < walk.len() ==> #[trigger] walk[j] < n,
                        forall|j: int|
                            0 <= j < path@.len() ==> #[trigger] depths@[walk[j] as int] is None,
                        forall|j: int|
                            path@.len() <= j < walk.len() ==> #[trigger] depths@[walk[j] as int] is Some,
                        value <= count,
                        path@.len() < walk.len() ==> depths@[walk[path@.len() as int] as int] == Some(value),
                        path@.len() == walk.len() ==> depths@[top as int] == Some(value),
                        forall|x: int|
                            0 <= x < n ==> #[trigger] generation@[x] == usize::MAX || generation@[x]
                                <= start,
                    decreases path@.len(),
                {
                    let r = path.len() - 1;
                    assert(path@[r as int] == walk[r as int]);
                    let node = path.pop().unwrap();
                    assert(node == walk[r as int]);
                    assert(path@ =~= walk.take(r as int));
                    let ghost parent_node: int = if r + 1 < walk.len() {
                        walk[r + 1] as int
                    } else {
                        top as int
                    };
                    proof {
                        lemma_path_step(ps, start as int, walk, r as int, 1);
                        if r + 1 < walk.len() {
                            assert(ancestor(ps, start as int, (r + 1) as nat) == Some(
                                walk[r + 1] as int,
                            ));
                        }
                        assert(ancestor(ps, node as int, 1) == Some(parent_node));
                        lemma_path_step(ps, start as int, walk, r as int, (walk.len() - r) as nat);
                        assert((r + (walk.len() - r)) as nat == walk.len() as nat);
                        lemma_unassigned_below_assigned(
                            ps,
                            depths@,
                            count as nat,
                            node as int,
                            top as int,
                            (walk.len() - r) as nat,
                        );
                    }
                    let ghost before = depths@;
                    let ghost old_count = count;
                    proof {
                        lemma_assigned_count_below(depths@, node as int);
                    }
                    value = value + 1;
                    assign(&mut depths, &mut count, node, value, n);
                    proof {
                        assert(depths@[node as int] == Some(value));
                        assert forall|i: int|
                            0 <= i < ps.len() && #[trigger] depths@[i] is Some implies {
                            let d = depths@[i]->0;
                            &&& d <= count as nat
                            &&& match ps[i] {
                                None => d == 0,
                                Some(p) => {
                                    &&& depths@[p as int] is Some
                                    &&& if on_cycle(ps, i) {
                                        cycle_length_is(ps, i, d as nat)
                                    } else {
                                        d == depths@[p as int]->0 + 1
                                    }
                                },
                            }
                        } by {
                            if i != node {
                                assert(before[i] is Some);
                                match ps[i] {
                                    Some(p) => {
                                        assert(before[p as int] is Some);
                                    },
                                    None => {},
                                }
                            } else {
                                assert(ps[node as int] == Some(parent_node as usize));
                            }
                        }
                    }
                }
                break;
            }
            if generation[current] == start {
                // The walk came back to a node it passed: the nodes from
                // there on form a cycle.
                let c = position[current];
                let ghost walk = path@;
                proof {
                    assert(walk[c as int] == current);
                    lemma_cycle_found(ps, start as int, walk, c as int);
                    assert(walk[0] == start);
                    lemma_assigned_count_bound(depths@);
                }
                let length = path.len() - c;
                let ghost before = depths@;
                let ghost old_count = count;
                let mut j = c;
                while j < path.len()
                    invariant
                        n == ps.len(),
                        path@ == walk,
                        c < walk.len(),
                        c <= j <= walk.len(),
                        length == walk.len() - c,
                        depths@.len() == n,
                        count == assigned_count(depths@),
                        count == old_count + (j - c),
                        count <= n,
                        old_count == assigned_count(before),
                        forall|q: int| 0 <= q < walk.len() ==> #[trigger] walk[q] < n,
                        forall|q: int| 0 <= q < walk.len() ==> #[trigger] before[walk[q] as int] is None,
                        forall|a: int, b: int| 0 <= a < b < walk.len() ==> walk[a] != walk[b],
                        forall|x: int|
                            0 <= x < n ==> (#[trigger] depths@[x] == if exists|q: int|
                                c <= q < j && walk[q] == x {
                                Some(length)
                            } else {
                                before[x]
                            }),
                    decreases walk.len() - j,
                {
                    let node = path[j];
                    proof {
                        assert(depths@[node as int] == before[node as int]) by {
                            if exists|q: int| c <= q < j && walk[q] == node {
                                let q = choose|q: int| c <= q < j && walk[q] == node;
                                assert(walk[q] == walk[j as int]);
                            }
                        }
                    }
                    assign(&mut depths, &mut count, node, length, n);
                    proof {
                        assert forall|x: int| 0 <= x < n implies (#[trigger] depths@[x] == if exists|q: int|
                            c <= q < j + 1 && walk[q] == x {
                            Some(length)
                        } else {
                            before[x]
                        }) by {
                            if x == node {
                                assert(walk[j as int] == x);
                            } else if exists|q: int| c <= q < j + 1 && walk[q] == x {
                                let q = choose|q: int| c <= q < j + 1 && walk[q] == x;
                                assert(q != j);
                            }
                        }
                    }
                    j += 1;
                }
                proof {
                    assert(count <= n);
                    assert forall|i: int|
                        0 <= i < ps.len() && #[trigger] depths@[i] is Some implies {
                        let d = depths@[i]->0;
                        &&& d <= count as nat
                        &&& match ps[i] {
                            None => d == 0,
                            Some(p) => {
                                &&& depths@[p as int] is Some
                                &&& if on_cycle(ps, i) {
                                    cycle_length_is(ps, i, d as nat)
                                } else {
                                    d == depths@[p as int]->0 + 1
                                }
                            },
                        }
                    } by {
                        if exists|q: int| c <= q < walk.len() && walk[q] == i {
                            let q = choose|q: int| c <= q < walk.len() && walk[q] == i;
                            assert(on_cycle(ps, walk[q] as int));
                            lemma_path_step(ps, start as int, walk, q, 1);
                            let next: int = if q + 1 < walk.len() {
                                q + 1
                            } else {
                                c as int
                            };
                            if q + 1 < walk.len() {
                                assert(ancestor(ps, start as int, (q + 1) as nat) == Some(
                                    walk[q + 1] as int,
                                ));
                            }
                            assert(ancestor(ps, i, 1) == Some(walk[next] as int));
                            assert(exists|r: int| c <= r < walk.len() && walk[r] == walk[next]);
                            assert(depths@[walk[next] as int] == Some(length));
                        } else {
                            assert(before[i] is Some);
                            match ps[i] {
                                Some(p) => {
                                    assert(before[p as int] is Some);
                                    if exists|q: int| c <= q < walk.len() && walk[q] == p as int {
                                        let q = choose|q: int| c <= q < walk.len() && walk[q] == p as int;
                                        assert(before[walk[q] as int] is None);
                                    }
                                },
                                None => {},
                            }
                        }
                    }
                }
                // The nodes before the cycle sit one above each other over it.
                let mut value = length;
                let mut j = c;
                while j > 0
                    invariant
                        n == ps.len(),
                        parents_in_range(ps),
                        path@ == walk,
                        walked(ps, start as int, walk),
                        c < walk.len(),
                        j <= c,
                        length == walk.len() - c,
                        walk[0] == start,
                        depths@.len() == n,
                        count == assigned_count(depths@),
                        count <= n,
                        settled(ps, depths@, count as nat),
                        forall|i: int| 0 <= i < start ==> #[trigger] depths@[i] is Some,
                        value <= count,
                        depths@[walk[j as int] as int] == Some(value),
                        forall|q: int| 0 <= q < walk.len() ==> #[trigger] walk[q] < n,
                        forall|q: int| 0 <= q < j ==> #[trigger] depths@[walk[q] as int] is None,
                        forall|q: int| j <= q < walk.len() ==> #[trigger] depths@[walk[q] as int] is Some,
                        forall|q: int| 0 <= q < c ==> !on_cycle(ps, #[trigger] walk[q] as int),
                    decreases j,
                {
                    j = j - 1;
                    let node = path[j];
                    let ghost before_step = depths@;
                    proof {
                        lemma_path_step(ps, start as int, walk, j as int, 1);
                        assert(ancestor(ps, start as int, (j + 1) as nat) == Some(walk[j + 1] as int));
                        assert(ps[node as int] == Some(walk[j + 1]));
                        assert(!on_cycle(ps, walk[j as int] as int));
                        lemma_assigned_count_below(depths@, node as int);
                    }
                    value = value + 1;
                    assign(&mut depths, &mut count, node, value, n);
                    proof {
                        assert forall|i: int|
                            0 <= i < ps.len() && #[trigger] depths@[i] is Some implies {
                            let d = depths@[i]->0;
                            &&& d <= count as nat
                            &&& match ps[i] {
                                None => d == 0,
                                Some(p) => {
                                    &&& depths@[p as int] is Some
                                    &&& if on_cycle(ps, i) {
                                        cycle_length_is(ps, i, d as nat)
                                    } else {
                                        d == depths@[p as int]->0 + 1
                                    }
                                },
                            }
                        } by {
                            if i != node {
                                assert(before_step[i] is Some);
                                match ps[i] {
                                    Some(p) => {
                                        assert(before_step[p as int] is Some);
                                    },
                                    None => {},
                                }
                            }
                        }
                    }
                }
                proof {
                    assert forall|i: int| 0 <= i <= start implies #[trigger] depths@[i] is Some by {
                        if i == start {
                            assert(depths@[walk[0] as int] is Some);
                        }
                    }
                }
                break;
            }
            // A node not seen on this walk: step to its parent.
            let ghost before_generation = generation@;
            proof {
                lemma_unvisited_set(generation@, start, current as int);
            }
            generation.set(current, start);
            let k = path.len();
            position.set(current, k);
            let ghost walk_before = path@;
            path.push(current);
            proof {
                assert forall|a: int, b: int| 0 <= a < b < path@.len() implies path@[a] != path@[b] by {
                    if b == k {
                        assert(path@[a] == walk_before[a]);
                        assert(generation@[walk_before[a] as int] == start);
                        assert(before_generation[path@[a] as int] == start);
                    }
                }
                assert forall|j: int| 0 <= j < path@.len() implies ancestor(ps, start as int, j as nat)
                    == Some(#[trigger] path@[j] as int) by {
                    if j < k {
                        assert(path@[j] == walk_before[j]);
                    }
                }
            }
            match parents[current] {
                None => {
                    // A root: the walked nodes sit one above each other on it.
                    let ghost walk = path@;
                    proof {
                        assert(ancestor(ps, start as int, (walk.len()) as nat) is None);
                        lemma_root_found(ps, start as int, walk);
                        assert(walk[0] == start);
                        lemma_assigned_count_bound(depths@);
                    }
                    let mut value: usize = 0;
                    let node = path.pop().unwrap();
                    let ghost before_root = depths@;
                    assign(&mut depths, &mut count, node, 0, n);
                    proof {
                        assert forall|i: int|
                            0 <= i < ps.len() && #[trigger] depths@[i] is Some implies {
                            let d = depths@[i]->0;
                            &&& d <= count as nat
                            &&& match ps[i] {
                                None => d == 0,
                                Some(p) => {
                                    &&& depths@[p as int] is Some
                                    &&& if on_cycle(ps, i) {
                                        cycle_length_is(ps, i, d as nat)
                                    } else {
                                        d == depths@[p as int]->0 + 1
                                    }
                                },
                            }
                        } by {
                            if i != node {
                                assert(before_root[i] is Some);
                                match ps[i] {
                                    Some(p) => {
                                        assert(before_root[p as int] is Some);
                                    },
                                    None => {},
                                }
                            }
                        }
                    }
                    while path.len() > 0
                        invariant
                            n == ps.len(),
                            parents_in_range(ps),
                            walked(ps, start as int, walk),
                            walk.len() > 0,
                            walk[0] == start,
                            depths@.len() == n,
                            count == assigned_count(depths@),
                            count <= n,
                            settled(ps, depths@, count as nat),
                            forall|i: int| 0 <= i < start ==> #[trigger] depths@[i] is Some,
                            path@ == walk.take(path@.len() as int),
                            path@.len() < walk.len(),
                            value <= count,
                            depths@[walk[path@.len() as int] as int] == Some(value),
                            forall|q: int| 0 <= q < walk.len() ==> #[trigger] walk[q] < n,
                            forall|q: int| 0 <= q < path@.len() ==> #[trigger] depths@[walk[q] as int] is None,
                            forall|q: int|
                                path@.len() <= q < walk.len() ==> #[trigger] depths@[walk[q] as int] is Some,
                            forall|q: int| 0 <= q < walk.len() ==> !on_cycle(ps, #[trigger] walk[q] as int),
                        decreases path@.len(),
                    {
                        let r = path.len() - 1;
                        assert(path@[r as int] == walk[r as int]);
                        let node = path.pop().unwrap();
                        assert(node == walk[r as int]);
                        assert(path@ =~= walk.take(r as int));
                        proof {
                            lemma_path_step(ps, start as int, walk, r as int, 1);
                            assert(ancestor(ps, start as int, (r + 1) as nat) == Some(walk[r + 1] as int));
                            assert(ps[node as int] == Some(walk[r + 1]));
                            lemma_assigned_count_below(depths@, node as int);
                        }
                        let ghost before_step = depths@;
                        value = value + 1;
                        assign(&mut depths, &mut count, node, value, n);
                        proof {
                            assert forall|i: int|
                                0 <= i < ps.len() && #[trigger] depths@[i] is Some implies {
                                let d = depths@[i]->0;
                                &&& d <= count as nat
                                &&& match ps[i] {
                                    None => d == 0,
                                    Some(p) => {
                                        &&& depths@[p as int] is Some
                                        &&& if on_cycle(ps, i) {
                                            cycle_length_is(ps, i, d as nat)
                                        } else {
                                            d == depths@[p as int]->0 + 1
                                        }
                                    },
                                }
                            } by {
                                if i != node {
                                    assert(before_step[i] is Some);
                                    match ps[i] {
                                        Some(p) => {
                                            assert(before_step[p as int] is Some);
                                        },
                                        None => {},
                                    }
                                }
                            }
                        }
                    }
                    proof {
                        assert forall|i: int| 0 <= i <= start implies #[trigger] depths@[i] is Some by {
                            if i == start {
                                assert(depths@[walk[0] as int] is Some);
                            }
                        }
                    }
                    break;
                },
                Some(parent) => {
                    proof {
                        assert(match ps[current as int] {
                            Some(p) => p < ps.len(),
                            None => true,
                        });
                    }
                    current = parent;
                },
            }
        }
        start += 1;
    }
    let mut result: Vec<usize> = Vec::new();
    let mut index: usize = 0;
    while index < n
        invariant
            n == ps.len(),
            index <= n,
            depths@.len() == n,
            forall|i: int| 0 <= i < n ==> #[trigger] depths@[i] is Some,
            result@.len() == index,
            forall|i: int| 0 <= i < index ==> Some(#[trigger] result@[i]) == depths@[i],
        decreases n - index,
    {
        let value = match depths[index] {
            Some(value) => value,
            None => 0,
        };
        result.push(value);
        index += 1;
    }
    proof {
        assert forall|i: int| 0 <= i < ps.len() implies #[trigger] depth_fits(ps, result@, i) by {
            assert(depths@[i] is Some);
            match ps[i] {
                Some(p) => {
                    assert(match ps[i] {
                        Some(p) => p < ps.len(),
                        None => true,
                    });
                    assert(Some(result@[p as int]) == depths@[p as int]);
                },
                None => {},
            }
        }
    }
    result
}

/// The position of the last node carrying `id`: the one a map from ids to
/// positions built in node order keeps.
pub open spec fn last_position(nodes: Seq<BoardNode>, id: Seq<char>) -> Option<int>
    decreases nodes.len(),
{
    if nodes.len() == 0 {
        None
    } else if nodes.last().id@ == id {
        Some(nodes.len() - 1)
    } else {
        last_position(nodes.drop_last(), id)
    }
}

/// Each node's parent, by position.
pub open spec fn parent_positions(nodes: Seq<BoardNode>) -> Seq<Option<usize>> {
    Seq::new(
        nodes.len(),
        |i: int|
            match nodes[i].parent_id {
                Some(parent) => match last_position(nodes, parent@) {
                    Some(j) => Some(j as usize),
                    None => None,
                },
                None => None,
            },
    )
}

proof fn lemma_last_position(nodes: Seq<BoardNode>, id: Seq<char>)
    ensures
        last_position(nodes, id) matches Some(j) ==> 0 <= j < nodes.len(),
    decreases nodes.len(),
{
    if nodes.len() > 0 && nodes.last().id@ != id {
        lemma_last_position(nodes.drop_last(), id);
    }
}

fn find_last(nodes: &Vec<BoardNode>, id: &str) -> (position: Option<usize>)
    ensures
        match position {
            Some(j) => last_position(nodes@, id@) == Some(j as int),
            None => last_position(nodes@, id@) is None,
        },
{
    let mut remaining = nodes.len();
    assert(nodes@.take(remaining as int) =~= nodes@);
    while remaining > 0
        invariant
            remaining <= nodes@.len(),
            last_position(nodes@, id@) == last_position(nodes@.take(remaining as int), id@),
        decreases remaining,
    {
        let ghost prefix = nodes@.take(remaining as int);
        assert(prefix.last() == nodes@[remaining - 1]);
        if same_text(nodes[remaining - 1].id.as_str(), id) {
            return Some(remaining - 1);
        }
        assert(prefix.drop_last() =~= nodes@.take(remaining - 1));
        remaining -= 1;
    }
    None
}

/// The depth of every node of the board, paired with its id, in node order.
pub fn node_depths(board: &Board) -> (depths: Vec<(String, usize)>)
    ensures
        depths@.len() == board.nodes@.len(),
        forall|i: int| 0 <= i < depths@.len() ==> (#[trigger] depths@[i]).0@ == board.nodes@[i].id@,
        depths_fit(parent_positions(board.nodes@), depths@.map_values(|entry: (String, usize)| entry.1)),
{
    let nodes = &board.nodes;
    let ghost all = nodes@;
    let mut parents: Vec<Option<usize>> = Vec::new();
    let mut index: usize = 0;
    while index < nodes.len()
        invariant
            all == nodes@,
            index <= all.len(),
            parents@ == parent_positions(all).take(index as int),
        decreases all.len() - index,
    {
        let parent = match &nodes[index].parent_id {
            Some(parent) => find_last(nodes, parent.as_str()),
            None => None,
        };
        parents.push(parent);
        assert(parents@ =~= parent_positions(all).take(index + 1));
        index += 1;
    }
    assert(parent_positions(all).take(all.len() as int) =~= parent_positions(all));
    proof {
        assert forall|i: int| 0 <= i < parents@.len() implies match #[trigger] parents@[i] {
            Some(p) => p < parents@.len(),
            None => true,
        } by {
            match all[i].parent_id {
                Some(parent) => {
                    lemma_last_position(all, parent@);
                },
                None => {},
            }
        }
    }
    let depths = tree_depths(&parents);
    let mut result: Vec<(String, usize)> = Vec::new();
    let mut k: usize = 0;
    while k < nodes.len()
        invariant
            all == nodes@,
            k <= all.len(),
            depths@.len() == all.len(),
            result@.len() == k,
            forall|i: int| 0 <= i < k ==> (#[trigger] result@[i]).0@ == all[i].id@ && result@[i].1
                == depths@[i],
        decreases all.len() - k,
    {
        result.push((nodes[k].id.clone(), depths[k]));
        k += 1;
    }
    assert(result@.map_values(|entry: (String, usize)| entry.1) =~= depths@);
    result
}

} // verus!
