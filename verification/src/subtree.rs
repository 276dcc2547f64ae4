//! Deleting a node with everything generated from it, and putting it back.
//!
//! A node's subtree holds the node's id and the id of every node whose
//! parent id is already in the subtree. Deletion removes every node whose id
//! is in the subtree; undo appends the removed nodes whose ids the board does
//! not hold again.

use vstd::prelude::*;

use crate::boards::BoardNode;
use crate::strings::{push_string, same_text};

verus! {

/// Whether `node`'s parent id is `id`.
pub open spec fn parent_is(node: BoardNode, id: Seq<char>) -> bool {
    match node.parent_id {
        Some(parent) => parent@ == id,
        None => false,
    }
}

/// Whether `id` is reached from `root` in at most `steps` steps from a
/// parent to a child.
pub open spec fn within_steps(nodes: Seq<BoardNode>, root: Seq<char>, id: Seq<char>, steps: nat) -> bool
    decreases steps,
{
    if steps == 0 {
        id == root
    } else {
        ||| within_steps(nodes, root, id, (steps - 1) as nat)
        ||| exists|j: int|
            0 <= j < nodes.len() && (#[trigger] nodes[j]).id@ == id && match nodes[j].parent_id {
                Some(parent) => within_steps(nodes, root, parent@, (steps - 1) as nat),
                None => false,
            }
    }
}

/// Whether `id` belongs to the subtree of `root`.
pub open spec fn in_subtree(nodes: Seq<BoardNode>, root: Seq<char>, id: Seq<char>) -> bool {
    exists|steps: nat| within_steps(nodes, root, id, steps)
}

/// The nodes of `part`, in order, whose ids are in (or, with `inside`
/// false, outside) the subtree of `root` among `nodes`.
pub open spec fn select(
    part: Seq<BoardNode>,
    nodes: Seq<BoardNode>,
    root: Seq<char>,
    inside: bool,
) -> Seq<BoardNode>
    decreases part.len(),
{
    if part.len() == 0 {
        Seq::empty()
    } else {
        let rest = select(part.drop_last(), nodes, root, inside);
        if in_subtree(nodes, root, part.last().id@) == inside {
            rest.push(part.last())
        } else {
            rest
        }
    }
}

/// The nodes a subtree deletion keeps, in order.
pub open spec fn kept_nodes(nodes: Seq<BoardNode>, root: Seq<char>) -> Seq<BoardNode> {
    select(nodes, nodes, root, false)
}

/// The nodes a subtree deletion removes, in order.
pub open spec fn deleted_nodes(nodes: Seq<BoardNode>, root: Seq<char>) -> Seq<BoardNode> {
    select(nodes, nodes, root, true)
}

/// Whether some node carries `id`.
pub open spec fn has_id(nodes: Seq<BoardNode>, id: Seq<char>) -> bool {
    exists|i: int| 0 <= i < nodes.len() && (#[trigger] nodes[i]).id@ == id
}

/// The trashed nodes, in order, whose ids `existing` does not hold.
pub open spec fn restorable(existing: Seq<BoardNode>, trashed: Seq<BoardNode>) -> Seq<BoardNode>
    decreases trashed.len(),
{
    if trashed.len() == 0 {
        Seq::empty()
    } else {
        let rest = restorable(existing, trashed.drop_last());
        if has_id(existing, trashed.last().id@) {
            rest
        } else {
            rest.push(trashed.last())
        }
    }
}

pub open spec fn ids_of(nodes: Seq<BoardNode>) -> Seq<Seq<char>> {
    nodes.map_values(|node: BoardNode| node.id@)
}

// ---------------------------------------------------------------------------
// Reachability facts.

proof fn lemma_within_grows(nodes: Seq<BoardNode>, root: Seq<char>, id: Seq<char>, k: nat, m: nat)
    requires
        k <= m,
        within_steps(nodes, root, id, k),
    ensures
        within_steps(nodes, root, id, m),
    decreases m - k,
{
    if k < m {
        lemma_within_grows(nodes, root, id, k, (m - 1) as nat);
    }
}

/// A child of a node in the subtree is in the subtree.
pub proof fn lemma_child_in_subtree(nodes: Seq<BoardNode>, root: Seq<char>, j: int)
    requires
        0 <= j < nodes.len(),
        nodes[j].parent_id is Some,
        in_subtree(nodes, root, nodes[j].parent_id->0@),
    ensures
        in_subtree(nodes, root, nodes[j].id@),
{
    let parent = nodes[j].parent_id->0@;
    let k = choose|k: nat| within_steps(nodes, root, parent, k);
    assert(within_steps(nodes, root, nodes[j].id@, k + 1));
}

/// Whether some marked node carries `id`.
pub open spec fn id_marked(nodes: Seq<BoardNode>, marked: Seq<bool>, id: Seq<char>) -> bool {
    exists|i: int| 0 <= i < nodes.len() && #[trigger] marked[i] && nodes[i].id@ == id
}

/// Every child of a marked node is marked.
pub open spec fn closed_marks(nodes: Seq<BoardNode>, marked: Seq<bool>) -> bool {
    forall|i: int, j: int|
        0 <= i < nodes.len() && 0 <= j < nodes.len() && marked[i] && #[trigger] parent_is(
            nodes[j],
            nodes[i].id@,
        ) ==> marked[j]
}

proof fn lemma_marks_cover(
    nodes: Seq<BoardNode>,
    marked: Seq<bool>,
    root: Seq<char>,
    id: Seq<char>,
    k: nat,
)
    requires
        marked.len() == nodes.len(),
        id_marked(nodes, marked, root),
        closed_marks(nodes, marked),
        within_steps(nodes, root, id, k),
    ensures
        id_marked(nodes, marked, id),
    decreases k,
{
    if k > 0 {
        if within_steps(nodes, root, id, (k - 1) as nat) {
            lemma_marks_cover(nodes, marked, root, id, (k - 1) as nat);
        } else {
            let j = choose|j: int|
                0 <= j < nodes.len() && (#[trigger] nodes[j]).id@ == id && match nodes[j].parent_id {
                    Some(parent) => within_steps(nodes, root, parent@, (k - 1) as nat),
                    None => false,
                };
            let parent = nodes[j].parent_id->0@;
            lemma_marks_cover(nodes, marked, root, parent, (k - 1) as nat);
            let i = choose|i: int| 0 <= i < nodes.len() && #[trigger] marked[i] && nodes[i].id@ == parent;
            assert(parent_is(nodes[j], nodes[i].id@));
            assert(marked[j]);
        }
    }
}

/// The number of marked entries.
pub open spec fn marked_count(marked: Seq<bool>) -> nat
    decreases marked.len(),
{
    if marked.len() == 0 {
        0
    } else {
        marked_count(marked.drop_last()) + if marked.last() {
            1nat
        } else {
            0nat
        }
    }
}

proof fn lemma_marked_count_bound(marked: Seq<bool>)
    ensures
        marked_count(marked) <= marked.len(),
    decreases marked.len(),
{
    if marked.len() > 0 {
        lemma_marked_count_bound(marked.drop_last());
    }
}

proof fn lemma_marked_count_set(marked: Seq<bool>, j: int)
    requires
        0 <= j < marked.len(),
        !marked[j],
    ensures
        marked_count(marked.update(j, true)) == marked_count(marked) + 1,
    decreases marked.len(),
{
    let updated = marked.update(j, true);
    if j == marked.len() - 1 {
        assert(updated.drop_last() =~= marked.drop_last());
    } else {
        assert(updated.drop_last() =~= marked.drop_last().update(j, true));
        lemma_marked_count_set(marked.drop_last(), j);
    }
}

proof fn lemma_contains_push(items: Seq<usize>, x: usize)
    ensures
        forall|i: usize| items.contains(i) ==> #[trigger] items.push(x).contains(i),
        items.push(x).contains(x),
{
    assert(items.push(x)[items.len() as int] == x);
    assert forall|i: usize| items.contains(i) implies #[trigger] items.push(x).contains(i) by {
        let k = choose|k: int| 0 <= k < items.len() && items[k] == i;
        assert(items.push(x)[k] == i);
    }
}

proof fn lemma_contains_pop(items: Seq<usize>, x: usize)
    ensures
        forall|i: usize| #[trigger] items.push(x).contains(i) && i != x ==> items.contains(i),
{
    assert forall|i: usize| #[trigger] items.push(x).contains(i) && i != x implies items.contains(i) by {
        let k = choose|k: int| 0 <= k < items.len() + 1 && items.push(x)[k] == i;
        assert(k < items.len());
        assert(items[k] == i);
    }
}

// ---------------------------------------------------------------------------
// Executable subtree computation.

fn parent_matches(node: &BoardNode, id: &str) -> (matches: bool)
    ensures
        matches == parent_is(*node, id@),
{
    match &node.parent_id {
        Some(parent) => same_text(parent.as_str(), id),
        None => false,
    }
}

/// Marks every node whose id is in the subtree of `root`, given that some
/// node carries `root`.
fn subtree_marks(nodes: &Vec<BoardNode>, root: &str) -> (marked: Vec<bool>)
    requires
        has_id(nodes@, root@),
    ensures
        marked@.len() == nodes@.len(),
        forall|id: Seq<char>| id_marked(nodes@, marked@, id) <==> in_subtree(nodes@, root@, id),
{
    let ghost all = nodes@;
    let count_all = nodes.len();
    let mut marked: Vec<bool> = Vec::new();
    let mut worklist: Vec<usize> = Vec::new();
    let ghost mut done: Seq<bool> = Seq::empty();
    let mut index: usize = 0;
    while index < count_all
        invariant
            count_all == all.len(),
            all == nodes@,
            index <= all.len(),
            marked@.len() == index,
            done == Seq::new(index as nat, |i: int| false),
            forall|i: int| 0 <= i < index ==> (#[trigger] marked@[i] <==> all[i].id@ == root@),
            forall|i: int| 0 <= i < index && #[trigger] marked@[i] ==> worklist@.contains(i as usize),
            forall|k: int| 0 <= k < worklist@.len() ==> (#[trigger] worklist@[k]) < index,
            forall|k: int| 0 <= k < worklist@.len() ==> marked@[#[trigger] worklist@[k] as int],
        decreases all.len() - index,
    {
        let seed = same_text(nodes[index].id.as_str(), root);
        let ghost old_list = worklist@;
        marked.push(seed);
        if seed {
            worklist.push(index);
            proof {
                lemma_contains_push(old_list, index);
            }
        }
        proof {
            done = done.push(false);
            assert(done =~= Seq::new((index + 1) as nat, |i: int| false));
            if seed {
                assert(worklist@[worklist@.len() - 1] == index);
            }
        }
        index += 1;
    }
    let ghost mut count: nat = marked_count(marked@);
    proof {
        lemma_marked_count_bound(marked@);
        let witness = choose|i: int| 0 <= i < all.len() && (#[trigger] all[i]).id@ == root@;
        assert(marked@[witness]);
        assert forall|i: int| 0 <= i < all.len() && #[trigger] marked@[i] implies in_subtree(
            all,
            root@,
            all[i].id@,
        ) by {
            assert(within_steps(all, root@, all[i].id@, 0));
        }
    }
    while worklist.len() > 0
        invariant
            count_all == all.len(),
            all == nodes@,
            marked@.len() == all.len(),
            done.len() == all.len(),
            count == marked_count(marked@),
            count <= all.len(),
            id_marked(all, marked@, root@),
            forall|k: int| 0 <= k < worklist@.len() ==> (#[trigger] worklist@[k]) < all.len(),
            forall|k: int| 0 <= k < worklist@.len() ==> marked@[#[trigger] worklist@[k] as int],
            forall|i: int|
                0 <= i < all.len() && #[trigger] marked@[i] ==> in_subtree(all, root@, all[i].id@),
            forall|i: int|
                0 <= i < all.len() && #[trigger] marked@[i] && !done[i] ==> worklist@.contains(
                    i as usize,
                ),
            forall|i: int, j: int|
                0 <= i < all.len() && 0 <= j < all.len() && done[i] && #[trigger] parent_is(
                    all[j],
                    all[i].id@,
                ) ==> marked@[j],
            forall|i: int| 0 <= i < all.len() && #[trigger] done[i] ==> marked@[i],
        decreases all.len() - count, worklist@.len(),
    {
        let ghost old_list = worklist@;
        let current = worklist.pop().unwrap();
        proof {
            assert(old_list =~= worklist@.push(current));
            assert(old_list[old_list.len() - 1] == current);
            lemma_contains_pop(worklist@, current);
        }
        let ghost start_count = count;
        let ghost start_len = worklist@.len();
        let mut j: usize = 0;
        while j < count_all
            invariant
                count_all == all.len(),
                all == nodes@,
                current < all.len(),
                j <= all.len(),
                marked@.len() == all.len(),
                done.len() == all.len(),
                marked@[current as int],
                count == marked_count(marked@),
                count <= all.len(),
                id_marked(all, marked@, root@),
                forall|k: int| 0 <= k < worklist@.len() ==> (#[trigger] worklist@[k]) < all.len(),
                forall|k: int| 0 <= k < worklist@.len() ==> marked@[#[trigger] worklist@[k] as int],
                forall|i: int|
                    0 <= i < all.len() && #[trigger] marked@[i] ==> in_subtree(all, root@, all[i].id@),
                forall|i: int|
                    0 <= i < all.len() && #[trigger] marked@[i] && !done[i] && i != current
                        ==> worklist@.contains(i as usize),
                forall|i: int, k: int|
                    0 <= i < all.len() && 0 <= k < all.len() && done[i] && #[trigger] parent_is(
                        all[k],
                        all[i].id@,
                    ) ==> marked@[k],
                forall|i: int| 0 <= i < all.len() && #[trigger] done[i] ==> marked@[i],
                forall|k: int|
                    0 <= k < j && #[trigger] parent_is(all[k], all[current as int].id@) ==> marked@[k],
                count >= start_count,
                worklist@.len() == start_len + (count - start_count),
            decreases all.len() - j,
        {
            if !marked[j] && parent_matches(&nodes[j], nodes[current].id.as_str()) {
                let ghost before = marked@;
                let ghost before_list = worklist@;
                proof {
                    lemma_marked_count_set(before, j as int);
                    assert(in_subtree(all, root@, all[current as int].id@));
                    lemma_child_in_subtree(all, root@, j as int);
                }
                marked.set(j, true);
                worklist.push(j);
                proof {
                    count = count + 1;
                    lemma_marked_count_bound(marked@);
                    assert(marked@ =~= before.update(j as int, true));
                    assert(worklist@[worklist@.len() - 1] == j);
                    lemma_contains_push(before_list, j);
                    let w = choose|i: int| 0 <= i < all.len() && #[trigger] before[i] && all[i].id@ == root@;
                    assert(marked@[w]);
                }
            }
            j += 1;
        }
        proof {
            done = done.update(current as int, true);
        }
    }
    proof {
        assert(closed_marks(all, marked@)) by {
            assert forall|i: int, j: int|
                0 <= i < all.len() && 0 <= j < all.len() && marked@[i] && #[trigger] parent_is(
                    all[j],
                    all[i].id@,
                ) implies marked@[j] by {
                if !done[i] {
                    assert(worklist@.contains(i as usize));
                }
            }
        }
        assert forall|id: Seq<char>| id_marked(all, marked@, id) <==> in_subtree(all, root@, id) by {
            if id_marked(all, marked@, id) {
                let i = choose|i: int| 0 <= i < all.len() && #[trigger] marked@[i] && all[i].id@ == id;
                assert(in_subtree(all, root@, all[i].id@));
            }
            if in_subtree(all, root@, id) {
                let k = choose|k: nat| within_steps(all, root@, id, k);
                lemma_marks_cover(all, marked@, root@, id, k);
            }
        }
    }
    marked
}


/// Whether some marked node carries `id`.
fn id_in_marks(nodes: &Vec<BoardNode>, marked: &Vec<bool>, id: &str) -> (found: bool)
    requires
        marked@.len() == nodes@.len(),
    ensures
        found == id_marked(nodes@, marked@, id@),
{
    let mut index: usize = 0;
    while index < nodes.len()
        invariant
            index <= nodes@.len(),
            marked@.len() == nodes@.len(),
            forall|i: int| 0 <= i < index ==> !(#[trigger] marked@[i] && nodes@[i].id@ == id@),
        decreases nodes@.len() - index,
    {
        if marked[index] && same_text(nodes[index].id.as_str(), id) {
            return true;
        }
        index += 1;
    }
    false
}

/// The items in reverse order.
pub fn reversed<T>(items: Vec<T>) -> (result: Vec<T>)
    ensures
        result@ == items@.reverse(),
{
    let ghost all = items@;
    let mut pending = items;
    let mut result: Vec<T> = Vec::new();
    while pending.len() > 0
        invariant
            result@ + pending@.reverse() == all.reverse(),
        decreases pending@.len(),
    {
        let ghost before = pending@;
        let item = pending.pop().unwrap();
        assert(before.reverse() =~= seq![item] + pending@.reverse());
        result.push(item);
        assert(result@ + pending@.reverse() =~= all.reverse());
    }
    assert(pending@.reverse() =~= Seq::<T>::empty());
    assert(result@ =~= all.reverse());
    result
}

/// Splits the nodes into those a deletion of `root`'s subtree keeps and
/// those it removes, each in their order.
pub fn split_subtree(nodes: Vec<BoardNode>, root: &str) -> (split: (Vec<BoardNode>, Vec<BoardNode>))
    requires
        has_id(nodes@, root@),
    ensures
        split.0@ == kept_nodes(nodes@, root@),
        split.1@ == deleted_nodes(nodes@, root@),
{
    let ghost all = nodes@;
    let total = nodes.len();
    let marked = subtree_marks(&nodes, root);
    let mut inside: Vec<bool> = Vec::new();
    let mut index: usize = 0;
    while index < nodes.len()
        invariant
            all == nodes@,
            index <= all.len(),
            marked@.len() == all.len(),
            inside@.len() == index,
            forall|id: Seq<char>| id_marked(all, marked@, id) <==> in_subtree(all, root@, id),
            forall|i: int| 0 <= i < index ==> #[trigger] inside@[i] == in_subtree(all, root@, all[i].id@),
        decreases all.len() - index,
    {
        let found = id_in_marks(&nodes, &marked, nodes[index].id.as_str());
        inside.push(found);
        index += 1;
    }
    let mut stack = reversed(nodes);
    let mut kept: Vec<BoardNode> = Vec::new();
    let mut deleted: Vec<BoardNode> = Vec::new();
    let mut taken: usize = 0;
    assert(all.skip(0) =~= all);
    assert(all.take(0) =~= Seq::<BoardNode>::empty());
    while stack.len() > 0
        invariant
            taken <= all.len(),
            total == all.len(),
            inside@.len() == all.len(),
            forall|i: int| 0 <= i < all.len() ==> #[trigger] inside@[i] == in_subtree(all, root@, all[i].id@),
            stack@ == all.skip(taken as int).reverse(),
            kept@ == select(all.take(taken as int), all, root@, false),
            deleted@ == select(all.take(taken as int), all, root@, true),
        decreases stack@.len(),
    {
        let ghost remaining = all.skip(taken as int);
        let node = stack.pop().unwrap();
        assert(remaining.reverse().last() == remaining[0]);
        assert(remaining[0] == all[taken as int]);
        assert(all.skip(taken + 1).reverse() =~= remaining.reverse().drop_last());
        assert(all.take(taken + 1).drop_last() =~= all.take(taken as int));
        assert(all.take(taken + 1).last() == node);
        if inside[taken] {
            deleted.push(node);
        } else {
            kept.push(node);
        }
        taken += 1;
    }
    assert(all.take(all.len() as int) =~= all);
    (kept, deleted)
}

/// Whether some node of the list carries `id`.
fn holds_id(nodes: &Vec<BoardNode>, id: &str) -> (found: bool)
    ensures
        found == has_id(nodes@, id@),
{
    let mut index: usize = 0;
    while index < nodes.len()
        invariant
            index <= nodes@.len(),
            forall|i: int| 0 <= i < index ==> (#[trigger] nodes@[i]).id@ != id@,
        decreases nodes@.len() - index,
    {
        if same_text(nodes[index].id.as_str(), id) {
            return true;
        }
        index += 1;
    }
    false
}

/// Appends the trashed nodes whose ids the list does not already hold, and
/// returns the ids of those it appended.
pub fn restore_nodes(nodes: &mut Vec<BoardNode>, trashed: Vec<BoardNode>) -> (restored: Vec<String>)
    ensures
        final(nodes)@ == old(nodes)@ + restorable(old(nodes)@, trashed@),
        restored.deep_view() == ids_of(restorable(old(nodes)@, trashed@)),
{
    let ghost existing = nodes@;
    let ghost all = trashed@;
    let total = trashed.len();
    let mut present: Vec<bool> = Vec::new();
    let mut index: usize = 0;
    while index < trashed.len()
        invariant
            all == trashed@,
            existing == nodes@,
            index <= all.len(),
            present@.len() == index,
            forall|i: int| 0 <= i < index ==> #[trigger] present@[i] == has_id(existing, all[i].id@),
        decreases all.len() - index,
    {
        let found = holds_id(nodes, trashed[index].id.as_str());
        present.push(found);
        index += 1;
    }
    let mut stack = reversed(trashed);
    let mut restored: Vec<String> = Vec::new();
    let mut taken: usize = 0;
    assert(all.skip(0) =~= all);
    assert(all.take(0) =~= Seq::<BoardNode>::empty());
    assert(existing + Seq::<BoardNode>::empty() =~= existing);
    assert(ids_of(Seq::<BoardNode>::empty()) =~= Seq::<Seq<char>>::empty());
    while stack.len() > 0
        invariant
            taken <= all.len(),
            total == all.len(),
            present@.len() == all.len(),
            forall|i: int| 0 <= i < all.len() ==> #[trigger] present@[i] == has_id(existing, all[i].id@),
            stack@ == all.skip(taken as int).reverse(),
            nodes@ == existing + restorable(existing, all.take(taken as int)),
            restored.deep_view() == ids_of(restorable(existing, all.take(taken as int))),
        decreases stack@.len(),
    {
        let ghost remaining = all.skip(taken as int);
        let ghost done = restorable(existing, all.take(taken as int));
        let node = stack.pop().unwrap();
        assert(remaining.reverse().last() == remaining[0]);
        assert(remaining[0] == all[taken as int]);
        assert(all.skip(taken + 1).reverse() =~= remaining.reverse().drop_last());
        assert(all.take(taken + 1).drop_last() =~= all.take(taken as int));
        assert(all.take(taken + 1).last() == node);
        if !present[taken] {
            let id = node.id.clone();
            nodes.push(node);
            push_string(&mut restored, id);
            assert(nodes@ =~= existing + done.push(all[taken as int]));
            assert(ids_of(done.push(all[taken as int])) =~= ids_of(done).push(all[taken as int].id@));
        }
        taken += 1;
    }
    assert(all.take(all.len() as int) =~= all);
    restored
}

proof fn lemma_select_members(part: Seq<BoardNode>, nodes: Seq<BoardNode>, root: Seq<char>, inside: bool)
    ensures
        forall|i: int|
            0 <= i < select(part, nodes, root, inside).len() ==> in_subtree(
                nodes,
                root,
                (#[trigger] select(part, nodes, root, inside)[i]).id@,
            ) == inside,
    decreases part.len(),
{
    if part.len() > 0 {
        lemma_select_members(part.drop_last(), nodes, root, inside);
    }
}

proof fn lemma_restorable_all(existing: Seq<BoardNode>, trashed: Seq<BoardNode>)
    requires
        forall|i: int| 0 <= i < trashed.len() ==> !has_id(existing, (#[trigger] trashed[i]).id@),
    ensures
        restorable(existing, trashed) == trashed,
    decreases trashed.len(),
{
    if trashed.len() > 0 {
        lemma_restorable_all(existing, trashed.drop_last());
        assert(trashed.drop_last().push(trashed.last()) =~= trashed);
    }
}

proof fn lemma_select_partition(part: Seq<BoardNode>, nodes: Seq<BoardNode>, root: Seq<char>)
    ensures
        (select(part, nodes, root, false) + select(part, nodes, root, true)).to_multiset()
            == part.to_multiset(),
    decreases part.len(),
{
    broadcast use vstd::seq_lib::group_to_multiset_ensures, vstd::seq_lib::lemma_multiset_commutative;
    broadcast use vstd::multiset::group_multiset_axioms;

    if part.len() > 0 {
        let rest = part.drop_last();
        let x = part.last();
        lemma_select_partition(rest, nodes, root);
        let a = select(rest, nodes, root, false);
        let b = select(rest, nodes, root, true);
        assert(rest.push(x) =~= part);
        if in_subtree(nodes, root, x.id@) {
            assert((a + b.push(x)).to_multiset() =~= a.to_multiset().add(b.to_multiset().insert(x)));
            assert(part.to_multiset() =~= rest.to_multiset().insert(x));
            assert((a + b).to_multiset() =~= a.to_multiset().add(b.to_multiset()));
        } else {
            assert((a.push(x) + b).to_multiset() =~= a.to_multiset().insert(x).add(b.to_multiset()));
            assert(part.to_multiset() =~= rest.to_multiset().insert(x));
            assert((a + b).to_multiset() =~= a.to_multiset().add(b.to_multiset()));
        }
    }
}

/// Undoing a subtree deletion puts every removed node back: restoring the
/// removed nodes among the kept ones restores all of them, and the list
/// then holds the same nodes as before the deletion, the restored ones
/// last. No kept node is a child of a removed one.
pub proof fn lemma_undo_restores_subtree(nodes: Seq<BoardNode>, root: Seq<char>)
    ensures
        restorable(kept_nodes(nodes, root), deleted_nodes(nodes, root)) == deleted_nodes(nodes, root),
        (kept_nodes(nodes, root) + deleted_nodes(nodes, root)).to_multiset() == nodes.to_multiset(),
        forall|i: int, j: int|
            0 <= i < kept_nodes(nodes, root).len() && 0 <= j < deleted_nodes(nodes, root).len()
                ==> !parent_is(
                #[trigger] kept_nodes(nodes, root)[i],
                (#[trigger] deleted_nodes(nodes, root)[j]).id@,
            ),
{
    let kept = kept_nodes(nodes, root);
    let deleted = deleted_nodes(nodes, root);
    lemma_select_members(nodes, nodes, root, false);
    lemma_select_members(nodes, nodes, root, true);
    assert forall|i: int| 0 <= i < deleted.len() implies !has_id(kept, (#[trigger] deleted[i]).id@) by {
        if has_id(kept, deleted[i].id@) {
            let k = choose|k: int| 0 <= k < kept.len() && (#[trigger] kept[k]).id@ == deleted[i].id@;
            assert(in_subtree(nodes, root, kept[k].id@) == false);
        }
    }
    lemma_restorable_all(kept, deleted);
    lemma_select_partition(nodes, nodes, root);
    assert forall|i: int, j: int|
        0 <= i < kept.len() && 0 <= j < deleted.len() implies !parent_is(
        #[trigger] kept[i],
        (#[trigger] deleted[j]).id@,
    ) by {
        if parent_is(kept[i], deleted[j].id@) {
            lemma_kept_member(nodes, root, i);
            let n = kept_index(nodes, root, i);
            assert(in_subtree(nodes, root, deleted[j].id@));
            lemma_child_in_subtree(nodes, root, n);
        }
    }
}

/// The position among `nodes` of the `i`-th kept node.
spec fn kept_index(nodes: Seq<BoardNode>, root: Seq<char>, i: int) -> int {
    choose|n: int| 0 <= n < nodes.len() && nodes[n] == kept_nodes(nodes, root)[i]
}

proof fn lemma_select_from(part: Seq<BoardNode>, nodes: Seq<BoardNode>, root: Seq<char>, inside: bool, i: int)
    requires
        0 <= i < select(part, nodes, root, inside).len(),
    ensures
        exists|n: int| 0 <= n < part.len() && part[n] == select(part, nodes, root, inside)[i],
    decreases part.len(),
{
    let rest = select(part.drop_last(), nodes, root, inside);
    if i < rest.len() {
        lemma_select_from(part.drop_last(), nodes, root, inside, i);
        let n = choose|n: int| 0 <= n < part.drop_last().len() && part.drop_last()[n] == rest[i];
        assert(part[n] == rest[i]);
    } else {
        assert(part[part.len() - 1] == part.last());
    }
}

proof fn lemma_kept_member(nodes: Seq<BoardNode>, root: Seq<char>, i: int)
    requires
        0 <= i < kept_nodes(nodes, root).len(),
    ensures
        0 <= kept_index(nodes, root, i) < nodes.len(),
        nodes[kept_index(nodes, root, i)] == kept_nodes(nodes, root)[i],
{
    lemma_select_from(nodes, nodes, root, false, i);
}

} // verus!
