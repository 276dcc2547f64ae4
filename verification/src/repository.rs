//! The board store's state and the decisions of each change to it. The
//! caller holds the lock, saves the boards, copies files and announces
//! changes; these functions say what changes and which request fails.

use vstd::prelude::*;

use crate::boards::{Board, BoardNode};
use crate::model::{MAX_ATTACHMENTS, NodeStatus, StopReason};
use crate::prompt::opt_view;
use crate::storage::{image_path, image_path_spec};
use crate::strings::{
    copy_strings, decimal, decimal_string, head_chars, head_chars_spec, owned, push_str, push_string,
    same_text, trim, trim_chars,
};
use crate::subtree::{
    deleted_nodes, has_id, ids_of, kept_nodes, lemma_undo_restores_subtree, restorable,
    restore_nodes, split_subtree,
};

verus! {

/// Why a change to the store was refused.
#[derive(Clone, Copy, Debug, PartialEq, Eq, Structural)]
pub enum StoreError {
    BoardNotFound,
    NodeNotFound,
    ParentNotFound,
    NothingToUndo,
    EmptyPrompt,
    TooManyAttachments,
    InvalidPosition,
}

impl StoreError {
    /// The message the user sees.
    pub fn message(&self) -> (text: &'static str)
        ensures
            text@ == store_error_message(*self),
    {
        match self {
            StoreError::BoardNotFound => "Board not found",
            StoreError::NodeNotFound => "Node not found",
            StoreError::ParentNotFound => "Parent node not found",
            StoreError::NothingToUndo => "Nothing to undo",
            StoreError::EmptyPrompt => "Empty prompt",
            StoreError::TooManyAttachments => "Too many attachments (max 8)",
            StoreError::InvalidPosition => "invalid node position",
        }
    }
}

pub open spec fn store_error_message(error: StoreError) -> Seq<char> {
    match error {
        StoreError::BoardNotFound => "Board not found"@,
        StoreError::NodeNotFound => "Node not found"@,
        StoreError::ParentNotFound => "Parent node not found"@,
        StoreError::NothingToUndo => "Nothing to undo"@,
        StoreError::EmptyPrompt => "Empty prompt"@,
        StoreError::TooManyAttachments => "Too many attachments (max 8)"@,
        StoreError::InvalidPosition => "invalid node position"@,
    }
}

/// What the store tells open views.
#[derive(Clone, Debug)]
pub enum RepositoryEvent {
    Changed,
    ImagesRewritten,
    Activity { node_id: String, text: String },
    /// Saving the board list failed. Sent by the background writer, which
    /// has no caller left to return an error to.
    PersistFailed(String),
}

/// Nodes removed by a subtree deletion, kept until `expires_at` so the
/// deletion can be undone.
#[derive(Debug)]
pub struct TrashEntry {
    pub undo_id: String,
    pub board_id: String,
    pub nodes: Vec<BoardNode>,
    /// When the entry expires, in milliseconds on the caller's monotonic
    /// clock.
    pub expires_at: u64,
}

/// Every board, and the undoable deletions.
#[derive(Debug)]
pub struct RepositoryState {
    pub boards: Vec<Board>,
    pub trash: Vec<TrashEntry>,
}

/// The first board carrying `id`.
pub open spec fn find_board(boards: Seq<Board>, id: Seq<char>) -> Option<int>
    decreases boards.len(),
{
    if boards.len() == 0 {
        None
    } else if boards[0].id@ == id {
        Some(0)
    } else {
        match find_board(boards.drop_first(), id) {
            Some(i) => Some(i + 1),
            None => None,
        }
    }
}

/// The first node carrying `id`.
pub open spec fn find_node(nodes: Seq<BoardNode>, id: Seq<char>) -> Option<int>
    decreases nodes.len(),
{
    if nodes.len() == 0 {
        None
    } else if nodes[0].id@ == id {
        Some(0)
    } else {
        match find_node(nodes.drop_first(), id) {
            Some(i) => Some(i + 1),
            None => None,
        }
    }
}

/// The first trash entry carrying `undo_id`.
pub open spec fn find_trash(trash: Seq<TrashEntry>, undo_id: Seq<char>) -> Option<int>
    decreases trash.len(),
{
    if trash.len() == 0 {
        None
    } else if trash[0].undo_id@ == undo_id {
        Some(0)
    } else {
        match find_trash(trash.drop_first(), undo_id) {
            Some(i) => Some(i + 1),
            None => None,
        }
    }
}

/// The trash entries that expire after `now`, in order.
pub open spec fn unexpired(trash: Seq<TrashEntry>, now: u64) -> Seq<TrashEntry>
    decreases trash.len(),
{
    if trash.len() == 0 {
        Seq::empty()
    } else if trash.last().expires_at > now {
        unexpired(trash.drop_last(), now).push(trash.last())
    } else {
        unexpired(trash.drop_last(), now)
    }
}

/// The trash entries not carrying `undo_id`, in order.
pub open spec fn without_undo_id(trash: Seq<TrashEntry>, undo_id: Seq<char>) -> Seq<TrashEntry>
    decreases trash.len(),
{
    if trash.len() == 0 {
        Seq::empty()
    } else if trash.last().undo_id@ == undo_id {
        without_undo_id(trash.drop_last(), undo_id)
    } else {
        without_undo_id(trash.drop_last(), undo_id).push(trash.last())
    }
}

/// The trash entries not belonging to `board_id`, in order.
pub open spec fn without_board_trash(trash: Seq<TrashEntry>, board_id: Seq<char>) -> Seq<TrashEntry>
    decreases trash.len(),
{
    if trash.len() == 0 {
        Seq::empty()
    } else if trash.last().board_id@ == board_id {
        without_board_trash(trash.drop_last(), board_id)
    } else {
        without_board_trash(trash.drop_last(), board_id).push(trash.last())
    }
}

/// The boards not carrying `board_id`, in order.
pub open spec fn without_board(boards: Seq<Board>, board_id: Seq<char>) -> Seq<Board>
    decreases boards.len(),
{
    if boards.len() == 0 {
        Seq::empty()
    } else if boards.last().id@ == board_id {
        without_board(boards.drop_last(), board_id)
    } else {
        without_board(boards.drop_last(), board_id).push(boards.last())
    }
}

proof fn lemma_find_board(boards: Seq<Board>, id: Seq<char>)
    ensures
        match find_board(boards, id) {
            Some(i) => 0 <= i < boards.len() && boards[i].id@ == id && forall|k: int|
                0 <= k < i ==> (#[trigger] boards[k]).id@ != id,
            None => forall|k: int| 0 <= k < boards.len() ==> (#[trigger] boards[k]).id@ != id,
        },
    decreases boards.len(),
{
    if boards.len() > 0 && boards[0].id@ != id {
        lemma_find_board(boards.drop_first(), id);
        assert forall|k: int| 1 <= k < boards.len() implies boards[k] == boards.drop_first()[k - 1] by {}
    }
}

proof fn lemma_find_node(nodes: Seq<BoardNode>, id: Seq<char>)
    ensures
        match find_node(nodes, id) {
            Some(i) => 0 <= i < nodes.len() && nodes[i].id@ == id && forall|k: int|
                0 <= k < i ==> (#[trigger] nodes[k]).id@ != id,
            None => forall|k: int| 0 <= k < nodes.len() ==> (#[trigger] nodes[k]).id@ != id,
        },
    decreases nodes.len(),
{
    if nodes.len() > 0 && nodes[0].id@ != id {
        lemma_find_node(nodes.drop_first(), id);
        assert forall|k: int| 1 <= k < nodes.len() implies nodes[k] == nodes.drop_first()[k - 1] by {}
    }
}

proof fn lemma_find_trash(trash: Seq<TrashEntry>, id: Seq<char>)
    ensures
        match find_trash(trash, id) {
            Some(i) => 0 <= i < trash.len() && trash[i].undo_id@ == id && forall|k: int|
                0 <= k < i ==> (#[trigger] trash[k]).undo_id@ != id,
            None => forall|k: int| 0 <= k < trash.len() ==> (#[trigger] trash[k]).undo_id@ != id,
        },
    decreases trash.len(),
{
    if trash.len() > 0 && trash[0].undo_id@ != id {
        lemma_find_trash(trash.drop_first(), id);
        assert forall|k: int| 1 <= k < trash.len() implies trash[k] == trash.drop_first()[k - 1] by {}
    }
}

proof fn lemma_find_board_first(boards: Seq<Board>, id: Seq<char>, i: int)
    requires
        0 <= i < boards.len(),
        boards[i].id@ == id,
        forall|k: int| 0 <= k < i ==> (#[trigger] boards[k]).id@ != id,
    ensures
        find_board(boards, id) == Some(i),
    decreases i,
{
    if i > 0 {
        assert forall|k: int| 0 <= k < i - 1 implies (#[trigger] boards.drop_first()[k]).id@ != id by {
            assert(boards.drop_first()[k] == boards[k + 1]);
        }
        lemma_find_board_first(boards.drop_first(), id, i - 1);
    }
}

proof fn lemma_find_node_first(nodes: Seq<BoardNode>, id: Seq<char>, i: int)
    requires
        0 <= i < nodes.len(),
        nodes[i].id@ == id,
        forall|k: int| 0 <= k < i ==> (#[trigger] nodes[k]).id@ != id,
    ensures
        find_node(nodes, id) == Some(i),
    decreases i,
{
    if i > 0 {
        assert forall|k: int| 0 <= k < i - 1 implies (#[trigger] nodes.drop_first()[k]).id@ != id by {
            assert(nodes.drop_first()[k] == nodes[k + 1]);
        }
        lemma_find_node_first(nodes.drop_first(), id, i - 1);
    }
}

proof fn lemma_find_trash_first(trash: Seq<TrashEntry>, id: Seq<char>, i: int)
    requires
        0 <= i < trash.len(),
        trash[i].undo_id@ == id,
        forall|k: int| 0 <= k < i ==> (#[trigger] trash[k]).undo_id@ != id,
    ensures
        find_trash(trash, id) == Some(i),
    decreases i,
{
    if i > 0 {
        assert forall|k: int| 0 <= k < i - 1 implies (#[trigger] trash.drop_first()[k]).undo_id@ != id by {
            assert(trash.drop_first()[k] == trash[k + 1]);
        }
        lemma_find_trash_first(trash.drop_first(), id, i - 1);
    }
}

proof fn lemma_find_board_none(boards: Seq<Board>, id: Seq<char>)
    requires
        forall|k: int| 0 <= k < boards.len() ==> (#[trigger] boards[k]).id@ != id,
    ensures
        find_board(boards, id) is None,
    decreases boards.len(),
{
    if boards.len() > 0 {
        assert forall|k: int| 0 <= k < boards.len() - 1 implies (#[trigger] boards.drop_first()[k]).id@ != id by {
            assert(boards.drop_first()[k] == boards[k + 1]);
        }
        lemma_find_board_none(boards.drop_first(), id);
    }
}

proof fn lemma_find_node_none(nodes: Seq<BoardNode>, id: Seq<char>)
    requires
        forall|k: int| 0 <= k < nodes.len() ==> (#[trigger] nodes[k]).id@ != id,
    ensures
        find_node(nodes, id) is None,
    decreases nodes.len(),
{
    if nodes.len() > 0 {
        assert forall|k: int| 0 <= k < nodes.len() - 1 implies (#[trigger] nodes.drop_first()[k]).id@ != id by {
            assert(nodes.drop_first()[k] == nodes[k + 1]);
        }
        lemma_find_node_none(nodes.drop_first(), id);
    }
}

proof fn lemma_find_trash_none(trash: Seq<TrashEntry>, id: Seq<char>)
    requires
        forall|k: int| 0 <= k < trash.len() ==> (#[trigger] trash[k]).undo_id@ != id,
    ensures
        find_trash(trash, id) is None,
    decreases trash.len(),
{
    if trash.len() > 0 {
        assert forall|k: int| 0 <= k < trash.len() - 1 implies (#[trigger] trash.drop_first()[k]).undo_id@ != id by {
            assert(trash.drop_first()[k] == trash[k + 1]);
        }
        lemma_find_trash_none(trash.drop_first(), id);
    }
}

/// The first board carrying `id`.
pub fn board_position(boards: &Vec<Board>, id: &str) -> (index: Option<usize>)
    ensures
        match index {
            Some(i) => find_board(boards@, id@) == Some(i as int),
            None => find_board(boards@, id@) is None,
        },
{
    let mut index: usize = 0;
    while index < boards.len()
        invariant
            index <= boards@.len(),
            forall|k: int| 0 <= k < index ==> (#[trigger] boards@[k]).id@ != id@,
        decreases boards@.len() - index,
    {
        if same_text(boards[index].id.as_str(), id) {
            proof {
                lemma_find_board_first(boards@, id@, index as int);
            }
            return Some(index);
        }
        index += 1;
    }
    proof {
        lemma_find_board_none(boards@, id@);
    }
    None
}

/// The first node carrying `id`.
pub fn node_position(nodes: &Vec<BoardNode>, id: &str) -> (index: Option<usize>)
    ensures
        match index {
            Some(i) => find_node(nodes@, id@) == Some(i as int),
            None => find_node(nodes@, id@) is None,
        },
{
    let mut index: usize = 0;
    while index < nodes.len()
        invariant
            index <= nodes@.len(),
            forall|k: int| 0 <= k < index ==> (#[trigger] nodes@[k]).id@ != id@,
        decreases nodes@.len() - index,
    {
        if same_text(nodes[index].id.as_str(), id) {
            proof {
                lemma_find_node_first(nodes@, id@, index as int);
            }
            return Some(index);
        }
        index += 1;
    }
    proof {
        lemma_find_node_none(nodes@, id@);
    }
    None
}

fn trash_position(trash: &Vec<TrashEntry>, undo_id: &str) -> (index: Option<usize>)
    ensures
        match index {
            Some(i) => find_trash(trash@, undo_id@) == Some(i as int),
            None => find_trash(trash@, undo_id@) is None,
        },
{
    let mut index: usize = 0;
    while index < trash.len()
        invariant
            index <= trash@.len(),
            forall|k: int| 0 <= k < index ==> (#[trigger] trash@[k]).undo_id@ != undo_id@,
        decreases trash@.len() - index,
    {
        if same_text(trash[index].undo_id.as_str(), undo_id) {
            proof {
                lemma_find_trash_first(trash@, undo_id@, index as int);
            }
            return Some(index);
        }
        index += 1;
    }
    proof {
        lemma_find_trash_none(trash@, undo_id@);
    }
    None
}

/// Keeps the entries that expire after `now`, in order.
fn keep_unexpired(trash: Vec<TrashEntry>, now: u64) -> (kept: Vec<TrashEntry>)
    ensures
        kept@ == unexpired(trash@, now),
{
    let ghost all = trash@;
    let total = trash.len();
    let mut stack = crate::subtree::reversed(trash);
    let mut kept: Vec<TrashEntry> = Vec::new();
    let mut taken: usize = 0;
    assert(all.skip(0) =~= all);
    assert(all.take(0) =~= Seq::<TrashEntry>::empty());
    while stack.len() > 0
        invariant
            taken <= all.len(),
            total == all.len(),
            stack@ == all.skip(taken as int).reverse(),
            kept@ == unexpired(all.take(taken as int), now),
        decreases stack@.len(),
    {
        let ghost remaining = all.skip(taken as int);
        let entry = stack.pop().unwrap();
        assert(remaining.reverse().last() == remaining[0]);
        assert(all.skip(taken + 1).reverse() =~= remaining.reverse().drop_last());
        assert(all.take(taken + 1).drop_last() =~= all.take(taken as int));
        assert(all.take(taken + 1).last() == entry);
        if entry.expires_at > now {
            kept.push(entry);
        }
        taken += 1;
    }
    assert(all.take(all.len() as int) =~= all);
    kept
}

/// Keeps the entries not carrying `undo_id`, in order.
fn drop_undo_id(trash: Vec<TrashEntry>, undo_id: &str) -> (kept: Vec<TrashEntry>)
    ensures
        kept@ == without_undo_id(trash@, undo_id@),
{
    let ghost all = trash@;
    let total = trash.len();
    let mut stack = crate::subtree::reversed(trash);
    let mut kept: Vec<TrashEntry> = Vec::new();
    let mut taken: usize = 0;
    assert(all.skip(0) =~= all);
    assert(all.take(0) =~= Seq::<TrashEntry>::empty());
    while stack.len() > 0
        invariant
            taken <= all.len(),
            total == all.len(),
            stack@ == all.skip(taken as int).reverse(),
            kept@ == without_undo_id(all.take(taken as int), undo_id@),
        decreases stack@.len(),
    {
        let ghost remaining = all.skip(taken as int);
        let entry = stack.pop().unwrap();
        assert(remaining.reverse().last() == remaining[0]);
        assert(all.skip(taken + 1).reverse() =~= remaining.reverse().drop_last());
        assert(all.take(taken + 1).drop_last() =~= all.take(taken as int));
        assert(all.take(taken + 1).last() == entry);
        if !same_text(entry.undo_id.as_str(), undo_id) {
            kept.push(entry);
        }
        taken += 1;
    }
    assert(all.take(all.len() as int) =~= all);
    kept
}

/// Keeps the entries not belonging to `board_id`, in order.
fn drop_board_trash(trash: Vec<TrashEntry>, board_id: &str) -> (kept: Vec<TrashEntry>)
    ensures
        kept@ == without_board_trash(trash@, board_id@),
{
    let ghost all = trash@;
    let total = trash.len();
    let mut stack = crate::subtree::reversed(trash);
    let mut kept: Vec<TrashEntry> = Vec::new();
    let mut taken: usize = 0;
    assert(all.skip(0) =~= all);
    assert(all.take(0) =~= Seq::<TrashEntry>::empty());
    while stack.len() > 0
        invariant
            taken <= all.len(),
            total == all.len(),
            stack@ == all.skip(taken as int).reverse(),
            kept@ == without_board_trash(all.take(taken as int), board_id@),
        decreases stack@.len(),
    {
        let ghost remaining = all.skip(taken as int);
        let entry = stack.pop().unwrap();
        assert(remaining.reverse().last() == remaining[0]);
        assert(all.skip(taken + 1).reverse() =~= remaining.reverse().drop_last());
        assert(all.take(taken + 1).drop_last() =~= all.take(taken as int));
        assert(all.take(taken + 1).last() == entry);
        if !same_text(entry.board_id.as_str(), board_id) {
            kept.push(entry);
        }
        taken += 1;
    }
    assert(all.take(all.len() as int) =~= all);
    kept
}

/// Keeps the boards not carrying `board_id`, in order.
fn drop_board(boards: Vec<Board>, board_id: &str) -> (kept: Vec<Board>)
    ensures
        kept@ == without_board(boards@, board_id@),
{
    let ghost all = boards@;
    let total = boards.len();
    let mut stack = crate::subtree::reversed(boards);
    let mut kept: Vec<Board> = Vec::new();
    let mut taken: usize = 0;
    assert(all.skip(0) =~= all);
    assert(all.take(0) =~= Seq::<Board>::empty());
    while stack.len() > 0
        invariant
            taken <= all.len(),
            total == all.len(),
            stack@ == all.skip(taken as int).reverse(),
            kept@ == without_board(all.take(taken as int), board_id@),
        decreases stack@.len(),
    {
        let ghost remaining = all.skip(taken as int);
        let board = stack.pop().unwrap();
        assert(remaining.reverse().last() == remaining[0]);
        assert(all.skip(taken + 1).reverse() =~= remaining.reverse().drop_last());
        assert(all.take(taken + 1).drop_last() =~= all.take(taken as int));
        assert(all.take(taken + 1).last() == board);
        if !same_text(board.id.as_str(), board_id) {
            kept.push(board);
        }
        taken += 1;
    }
    assert(all.take(all.len() as int) =~= all);
    kept
}

/// What deleting `node_id`'s subtree from `board_id` does, given the state
/// before and after and the result.
pub open spec fn deletion_done(
    before: RepositoryState,
    after: RepositoryState,
    board_id: Seq<char>,
    node_id: Seq<char>,
    undo_id: String,
    now: u64,
    expires_at: u64,
    result: Result<Vec<String>, StoreError>,
) -> bool {
    match find_board(before.boards@, board_id) {
        None => {
            &&& result == Err::<Vec<String>, StoreError>(StoreError::BoardNotFound)
            &&& after.boards@ == before.boards@
            &&& after.trash@ == unexpired(before.trash@, now)
        },
        Some(b) => {
            let nodes = before.boards@[b].nodes@;
            if !has_id(nodes, node_id) {
                &&& result == Err::<Vec<String>, StoreError>(StoreError::NodeNotFound)
                &&& after.boards@ == before.boards@
                &&& after.trash@ == unexpired(before.trash@, now)
            } else {
                let trash = without_undo_id(unexpired(before.trash@, now), undo_id@);
                &&& result matches Ok(ids) && ids.deep_view() == ids_of(
                    deleted_nodes(nodes, node_id),
                )
                &&& after.boards@.len() == before.boards@.len()
                &&& forall|i: int|
                    0 <= i < before.boards@.len() && i != b ==> after.boards@[i]
                        == before.boards@[i]
                &&& after.boards@[b].id == before.boards@[b].id
                &&& after.boards@[b].title == before.boards@[b].title
                &&& after.boards@[b].created_at == before.boards@[b].created_at
                &&& after.boards@[b].nodes@ == kept_nodes(nodes, node_id)
                &&& after.trash@.len() == trash.len() + 1
                &&& after.trash@.take(trash.len() as int) == trash
                &&& after.trash@.last().undo_id == undo_id
                &&& after.trash@.last().board_id@ == board_id
                &&& after.trash@.last().nodes@ == deleted_nodes(nodes, node_id)
                &&& after.trash@.last().expires_at == expires_at
            }
        },
    }
}

/// What undoing the deletion kept under `undo_id` on `board_id` does, given
/// the state before and after and the result.
pub open spec fn undo_done(
    before: RepositoryState,
    after: RepositoryState,
    board_id: Seq<char>,
    undo_id: Seq<char>,
    now: u64,
    result: Result<Vec<String>, StoreError>,
) -> bool {
    match find_trash(unexpired(before.trash@, now), undo_id) {
        None => {
            &&& result == Err::<Vec<String>, StoreError>(StoreError::NothingToUndo)
            &&& after.boards@ == before.boards@
            &&& after.trash@ == unexpired(before.trash@, now)
        },
        Some(t) => {
            let live = unexpired(before.trash@, now);
            let entry = live[t];
            &&& after.trash@ == live.remove(t)
            &&& if entry.board_id@ != board_id {
                &&& result == Err::<Vec<String>, StoreError>(StoreError::NothingToUndo)
                &&& after.boards@ == before.boards@
            } else {
                match find_board(before.boards@, board_id) {
                    None => {
                        &&& result == Err::<Vec<String>, StoreError>(
                            StoreError::BoardNotFound,
                        )
                        &&& after.boards@ == before.boards@
                    },
                    Some(b) => {
                        let nodes = before.boards@[b].nodes@;
                        &&& result matches Ok(ids) && ids.deep_view() == ids_of(
                            restorable(nodes, entry.nodes@),
                        )
                        &&& after.boards@.len() == before.boards@.len()
                        &&& forall|i: int|
                            0 <= i < before.boards@.len() && i != b
                                ==> after.boards@[i] == before.boards@[i]
                        &&& after.boards@[b].id == before.boards@[b].id
                        &&& after.boards@[b].title == before.boards@[b].title
                        &&& after.boards@[b].created_at
                            == before.boards@[b].created_at
                        &&& after.boards@[b].nodes@ == nodes + restorable(
                            nodes,
                            entry.nodes@,
                        )
                    },
                }
            }
        },
    }
}

proof fn lemma_without_undo_id_members(trash: Seq<TrashEntry>, undo_id: Seq<char>)
    ensures
        forall|i: int|
            0 <= i < without_undo_id(trash, undo_id).len() ==> (#[trigger] without_undo_id(
                trash,
                undo_id,
            )[i]).undo_id@ != undo_id,
    decreases trash.len(),
{
    if trash.len() > 0 {
        let rest = without_undo_id(trash.drop_last(), undo_id);
        lemma_without_undo_id_members(trash.drop_last(), undo_id);
        if trash.last().undo_id@ != undo_id {
            let grown = rest.push(trash.last());
            assert forall|i: int| 0 <= i < grown.len() implies (#[trigger] grown[i]).undo_id@
                != undo_id by {
                if i < rest.len() {
                    assert(grown[i] == rest[i]);
                }
            }
        }
    }
}

proof fn lemma_unexpired_members(trash: Seq<TrashEntry>, now: u64, undo_id: Seq<char>)
    requires
        forall|i: int| 0 <= i < trash.len() ==> (#[trigger] trash[i]).undo_id@ != undo_id,
    ensures
        forall|i: int|
            0 <= i < unexpired(trash, now).len() ==> (#[trigger] unexpired(trash, now)[i]).undo_id@
                != undo_id,
    decreases trash.len(),
{
    if trash.len() > 0 {
        assert forall|i: int| 0 <= i < trash.drop_last().len() implies (
        #[trigger] trash.drop_last()[i]).undo_id@ != undo_id by {
            assert(trash.drop_last()[i] == trash[i]);
        }
        lemma_unexpired_members(trash.drop_last(), now, undo_id);
        assert(trash[trash.len() - 1] == trash.last());
        let rest = unexpired(trash.drop_last(), now);
        if trash.last().expires_at > now {
            let grown = rest.push(trash.last());
            assert forall|i: int| 0 <= i < grown.len() implies (#[trigger] grown[i]).undo_id@
                != undo_id by {
                if i < rest.len() {
                    assert(grown[i] == rest[i]);
                }
            }
        }
    }
}

proof fn lemma_same_board_ids(before: Seq<Board>, after: Seq<Board>, b: int, id: Seq<char>)
    requires
        before.len() == after.len(),
        0 <= b < before.len(),
        after[b].id == before[b].id,
        forall|i: int| 0 <= i < before.len() && i != b ==> after[i] == before[i],
    ensures
        find_board(after, id) == find_board(before, id),
{
    lemma_find_board(before, id);
    match find_board(before, id) {
        Some(i) => {
            assert forall|k: int| 0 <= k < i implies (#[trigger] after[k]).id@ != id by {
                assert(before[k].id@ != id);
            }
            lemma_find_board_first(after, id, i);
        },
        None => {
            assert forall|k: int| 0 <= k < after.len() implies (#[trigger] after[k]).id@ != id by {
                assert(before[k].id@ != id);
            }
            lemma_find_board_none(after, id);
        },
    }
}

/// Undoing a subtree deletion before its undo window closes, with nothing
/// done to the store in between, succeeds, returns the ids the deletion
/// returned, and leaves the board with the same nodes as before the
/// deletion: the kept ones in order, then the restored ones.
pub proof fn lemma_undo_after_delete(
    s0: RepositoryState,
    s1: RepositoryState,
    s2: RepositoryState,
    board_id: Seq<char>,
    node_id: Seq<char>,
    undo_id: String,
    now: u64,
    expires_at: u64,
    later: u64,
    deleted: Result<Vec<String>, StoreError>,
    undone: Result<Vec<String>, StoreError>,
)
    requires
        deletion_done(s0, s1, board_id, node_id, undo_id, now, expires_at, deleted),
        deleted is Ok,
        undo_done(s1, s2, board_id, undo_id@, later, undone),
        later < expires_at,
    ensures
        undone is Ok,
        undone->Ok_0.deep_view() == deleted->Ok_0.deep_view(),
        find_board(s0.boards@, board_id) is Some,
        s2.boards@.len() == s0.boards@.len(),
        ({
            let b = find_board(s0.boards@, board_id)->0;
            let nodes = s0.boards@[b].nodes@;
            &&& s2.boards@[b].nodes@ == kept_nodes(nodes, node_id) + deleted_nodes(nodes, node_id)
            &&& s2.boards@[b].nodes@.to_multiset() == nodes.to_multiset()
            &&& forall|i: int| 0 <= i < s0.boards@.len() && i != b ==> s2.boards@[i] == s0.boards@[i]
        }),
{
    lemma_find_board(s0.boards@, board_id);
    let b = find_board(s0.boards@, board_id)->0;
    let nodes = s0.boards@[b].nodes@;
    let kept = kept_nodes(nodes, node_id);
    let removed = deleted_nodes(nodes, node_id);
    lemma_undo_restores_subtree(nodes, node_id);
    lemma_same_board_ids(s0.boards@, s1.boards@, b, board_id);
    let trash0 = without_undo_id(unexpired(s0.trash@, now), undo_id@);
    let entry = s1.trash@.last();
    assert(s1.trash@ =~= trash0.push(entry));
    assert(s1.trash@.drop_last() =~= trash0);
    lemma_without_undo_id_members(unexpired(s0.trash@, now), undo_id@);
    lemma_unexpired_members(trash0, later, undo_id@);
    let live = unexpired(s1.trash@, later);
    assert(live =~= unexpired(trash0, later).push(entry));
    assert forall|k: int| 0 <= k < live.len() - 1 implies (#[trigger] live[k]).undo_id@ != undo_id@ by {
        assert(live[k] == unexpired(trash0, later)[k]);
    }
    lemma_find_trash_first(live, undo_id@, live.len() - 1);
    assert(live[live.len() - 1] == entry);
}

/// Deleting a subtree and undoing it before the undo window closes, with
/// nothing done to the store in between, gives back the deleted ids and the
/// board's nodes (the kept ones, then the restored ones, the same nodes as
/// before the deletion); the undo id is then used up, so undoing it again,
/// for any board at any time, is refused and changes no board.
pub proof fn lemma_delete_undo_round_trip(
    s0: RepositoryState,
    s1: RepositoryState,
    s2: RepositoryState,
    s3: RepositoryState,
    board_id: Seq<char>,
    node_id: Seq<char>,
    undo_id: String,
    now: u64,
    expires_at: u64,
    later: u64,
    again_board: Seq<char>,
    again_at: u64,
    deleted: Result<Vec<String>, StoreError>,
    undone: Result<Vec<String>, StoreError>,
    again: Result<Vec<String>, StoreError>,
)
    requires
        deletion_done(s0, s1, board_id, node_id, undo_id, now, expires_at, deleted),
        deleted is Ok,
        undo_done(s1, s2, board_id, undo_id@, later, undone),
        later < expires_at,
        undo_done(s2, s3, again_board, undo_id@, again_at, again),
    ensures
        undone is Ok,
        undone->Ok_0.deep_view() == deleted->Ok_0.deep_view(),
        find_board(s0.boards@, board_id) is Some,
        s2.boards@.len() == s0.boards@.len(),
        ({
            let b = find_board(s0.boards@, board_id)->0;
            let nodes = s0.boards@[b].nodes@;
            &&& s2.boards@[b].nodes@ == kept_nodes(nodes, node_id) + deleted_nodes(nodes, node_id)
            &&& s2.boards@[b].nodes@.to_multiset() == nodes.to_multiset()
            &&& forall|i: int| 0 <= i < s0.boards@.len() && i != b ==> s2.boards@[i] == s0.boards@[i]
        }),
        again == Err::<Vec<String>, StoreError>(StoreError::NothingToUndo),
        s3.boards@ == s2.boards@,
{
    lemma_undo_after_delete(
        s0, s1, s2, board_id, node_id, undo_id, now, expires_at, later, deleted, undone,
    );
    let trash0 = without_undo_id(unexpired(s0.trash@, now), undo_id@);
    let entry = s1.trash@.last();
    assert(s1.trash@ =~= trash0.push(entry));
    lemma_without_undo_id_members(unexpired(s0.trash@, now), undo_id@);
    lemma_unexpired_members(trash0, later, undo_id@);
    let rest = unexpired(trash0, later);
    let live = unexpired(s1.trash@, later);
    assert(s1.trash@.drop_last() =~= trash0);
    assert(live =~= rest.push(entry));
    assert forall|k: int| 0 <= k < live.len() - 1 implies (#[trigger] live[k]).undo_id@ != undo_id@ by {
        assert(live[k] == rest[k]);
    }
    lemma_find_trash_first(live, undo_id@, live.len() - 1);
    assert(s2.trash@ =~= rest);
    lemma_unexpired_members(s2.trash@, again_at, undo_id@);
    lemma_find_trash_none(unexpired(s2.trash@, again_at), undo_id@);
}

/// No two trash entries carry the same undo id.
pub open spec fn distinct_undo_ids(trash: Seq<TrashEntry>) -> bool {
    forall|i: int, j: int|
        0 <= i < j < trash.len() ==> (#[trigger] trash[i]).undo_id@ != (#[trigger] trash[j]).undo_id@
}

proof fn lemma_without_undo_id_keeps_absent(trash: Seq<TrashEntry>, undo_id: Seq<char>, absent: Seq<char>)
    requires
        forall|i: int| 0 <= i < trash.len() ==> (#[trigger] trash[i]).undo_id@ != absent,
    ensures
        forall|i: int|
            0 <= i < without_undo_id(trash, undo_id).len() ==> (#[trigger] without_undo_id(
                trash,
                undo_id,
            )[i]).undo_id@ != absent,
    decreases trash.len(),
{
    if trash.len() > 0 {
        assert forall|i: int| 0 <= i < trash.drop_last().len() implies (
        #[trigger] trash.drop_last()[i]).undo_id@ != absent by {
            assert(trash.drop_last()[i] == trash[i]);
        }
        lemma_without_undo_id_keeps_absent(trash.drop_last(), undo_id, absent);
        assert(trash[trash.len() - 1] == trash.last());
        let rest = without_undo_id(trash.drop_last(), undo_id);
        if trash.last().undo_id@ != undo_id {
            assert forall|i: int| 0 <= i < rest.push(trash.last()).len() implies (
            #[trigger] rest.push(trash.last())[i]).undo_id@ != absent by {
                if i < rest.len() {
                    assert(rest.push(trash.last())[i] == rest[i]);
                }
            }
        }
    }
}

proof fn lemma_distinct_drop_last(trash: Seq<TrashEntry>)
    requires
        trash.len() > 0,
        distinct_undo_ids(trash),
    ensures
        distinct_undo_ids(trash.drop_last()),
        forall|i: int| 0 <= i < trash.drop_last().len() ==> (#[trigger] trash.drop_last()[i]).undo_id@
            != trash.last().undo_id@,
{
    assert forall|i: int| 0 <= i < trash.drop_last().len() implies (
    #[trigger] trash.drop_last()[i]).undo_id@ != trash.last().undo_id@ by {
        assert(trash.drop_last()[i] == trash[i]);
        assert(trash[trash.len() - 1] == trash.last());
    }
    assert forall|i: int, j: int| 0 <= i < j < trash.drop_last().len() implies (
    #[trigger] trash.drop_last()[i]).undo_id@ != (#[trigger] trash.drop_last()[j]).undo_id@ by {
        assert(trash.drop_last()[i] == trash[i]);
        assert(trash.drop_last()[j] == trash[j]);
    }
}

proof fn lemma_push_distinct(trash: Seq<TrashEntry>, entry: TrashEntry)
    requires
        distinct_undo_ids(trash),
        forall|i: int| 0 <= i < trash.len() ==> (#[trigger] trash[i]).undo_id@ != entry.undo_id@,
    ensures
        distinct_undo_ids(trash.push(entry)),
{
    assert forall|i: int, j: int| 0 <= i < j < trash.push(entry).len() implies (
    #[trigger] trash.push(entry)[i]).undo_id@ != (#[trigger] trash.push(entry)[j]).undo_id@ by {
        assert(trash.push(entry)[i] == trash[i]);
        if j < trash.len() {
            assert(trash.push(entry)[j] == trash[j]);
        }
    }
}

proof fn lemma_unexpired_distinct(trash: Seq<TrashEntry>, now: u64)
    requires
        distinct_undo_ids(trash),
    ensures
        distinct_undo_ids(unexpired(trash, now)),
    decreases trash.len(),
{
    if trash.len() > 0 {
        lemma_distinct_drop_last(trash);
        lemma_unexpired_distinct(trash.drop_last(), now);
        if trash.last().expires_at > now {
            lemma_unexpired_members(trash.drop_last(), now, trash.last().undo_id@);
            lemma_push_distinct(unexpired(trash.drop_last(), now), trash.last());
        }
    }
}

proof fn lemma_without_undo_id_distinct(trash: Seq<TrashEntry>, undo_id: Seq<char>)
    requires
        distinct_undo_ids(trash),
    ensures
        distinct_undo_ids(without_undo_id(trash, undo_id)),
    decreases trash.len(),
{
    if trash.len() > 0 {
        lemma_distinct_drop_last(trash);
        lemma_without_undo_id_distinct(trash.drop_last(), undo_id);
        if trash.last().undo_id@ != undo_id {
            lemma_without_undo_id_keeps_absent(trash.drop_last(), undo_id, trash.last().undo_id@);
            lemma_push_distinct(without_undo_id(trash.drop_last(), undo_id), trash.last());
        }
    }
}

/// A subtree deletion keeps the undo ids of the trash distinct: a new entry
/// replaces any entry with its id.
pub proof fn lemma_delete_keeps_undo_ids_distinct(
    before: RepositoryState,
    after: RepositoryState,
    board_id: Seq<char>,
    node_id: Seq<char>,
    undo_id: String,
    now: u64,
    expires_at: u64,
    result: Result<Vec<String>, StoreError>,
)
    requires
        distinct_undo_ids(before.trash@),
        deletion_done(before, after, board_id, node_id, undo_id, now, expires_at, result),
    ensures
        distinct_undo_ids(after.trash@),
{
    lemma_unexpired_distinct(before.trash@, now);
    if result is Ok {
        let trash = without_undo_id(unexpired(before.trash@, now), undo_id@);
        lemma_without_undo_id_distinct(unexpired(before.trash@, now), undo_id@);
        lemma_without_undo_id_members(unexpired(before.trash@, now), undo_id@);
        assert(after.trash@ =~= trash.push(after.trash@.last()));
        lemma_push_distinct(trash, after.trash@.last());
    }
}

/// An undo that found its entry uses it up: with distinct undo ids in the
/// trash, the same undo id is refused afterwards, and the boards are left as
/// they are.
pub proof fn lemma_undo_is_used_once(
    s0: RepositoryState,
    s1: RepositoryState,
    s2: RepositoryState,
    board_id: Seq<char>,
    other_board: Seq<char>,
    undo_id: Seq<char>,
    now: u64,
    later: u64,
    first: Result<Vec<String>, StoreError>,
    second: Result<Vec<String>, StoreError>,
)
    requires
        distinct_undo_ids(s0.trash@),
        undo_done(s0, s1, board_id, undo_id, now, first),
        first is Ok,
        undo_done(s1, s2, other_board, undo_id, later, second),
    ensures
        second == Err::<Vec<String>, StoreError>(StoreError::NothingToUndo),
        s2.boards@ == s1.boards@,
        distinct_undo_ids(s1.trash@),
{
    let live = unexpired(s0.trash@, now);
    lemma_unexpired_distinct(s0.trash@, now);
    lemma_find_trash(live, undo_id);
    let t = find_trash(live, undo_id)->0;
    assert forall|k: int| 0 <= k < s1.trash@.len() implies (#[trigger] s1.trash@[k]).undo_id@
        != undo_id by {
        if k < t {
            assert(s1.trash@[k] == live[k]);
        } else {
            assert(s1.trash@[k] == live[k + 1]);
        }
    }
    assert forall|i: int, j: int| 0 <= i < j < s1.trash@.len() implies (
    #[trigger] s1.trash@[i]).undo_id@ != (#[trigger] s1.trash@[j]).undo_id@ by {
        let a = if i < t { i } else { i + 1 };
        let c = if j < t { j } else { j + 1 };
        assert(s1.trash@[i] == live[a]);
        assert(s1.trash@[j] == live[c]);
    }
    lemma_unexpired_members(s1.trash@, later, undo_id);
    lemma_find_trash_none(unexpired(s1.trash@, later), undo_id);
}

impl RepositoryState {
    /// Forgets the deletions whose undo window closed at `now`.
    pub fn purge_expired_trash(&mut self, now: u64)
        ensures
            final(self).boards@ == old(self).boards@,
            final(self).trash@ == unexpired(old(self).trash@, now),
    {
        let mut trash: Vec<TrashEntry> = Vec::new();
        std::mem::swap(&mut trash, &mut self.trash);
        self.trash = keep_unexpired(trash, now);
    }

    /// Removes `node_id` and its subtree from the board and keeps the
    /// removed nodes in the trash under `undo_id` until `expires_at`,
    /// returning the removed ids in board order. Expired trash is forgotten
    /// first.
    pub fn delete_subtree(
        &mut self,
        board_id: &str,
        node_id: &str,
        undo_id: String,
        now: u64,
        expires_at: u64,
    ) -> (result: Result<Vec<String>, StoreError>)
        ensures
            deletion_done(*old(self), *final(self), board_id@, node_id@, undo_id, now, expires_at, result),
    {
        self.purge_expired_trash(now);
        let index = match board_position(&self.boards, board_id) {
            Some(index) => index,
            None => {
                return Err(StoreError::BoardNotFound);
            },
        };
        proof {
            lemma_find_board(self.boards@, board_id@);
        }
        let exists = match node_position(&self.boards[index].nodes, node_id) {
            Some(_) => true,
            None => false,
        };
        proof {
            lemma_find_node(self.boards@[index as int].nodes@, node_id@);
        }
        if !exists {
            assert(!has_id(self.boards@[index as int].nodes@, node_id@));
            return Err(StoreError::NodeNotFound);
        }
        let ghost before = self.boards@;
        let mut board = self.boards.remove(index);
        let ghost nodes = board.nodes@;
        let mut all_nodes: Vec<BoardNode> = Vec::new();
        std::mem::swap(&mut all_nodes, &mut board.nodes);
        let (kept, deleted) = split_subtree(all_nodes, node_id);
        board.nodes = kept;
        self.boards.insert(index, board);
        assert(self.boards@ =~= before.update(index as int, self.boards@[index as int]));
        let mut ids: Vec<String> = Vec::new();
        let mut k: usize = 0;
        while k < deleted.len()
            invariant
                k <= deleted@.len(),
                ids.deep_view() == ids_of(deleted@.take(k as int)),
            decreases deleted@.len() - k,
        {
            let id = deleted[k].id.clone();
            let ghost before_ids = ids.deep_view();
            ids.push(id);
            assert(ids.deep_view() =~= before_ids.push(deleted@[k as int].id@));
            assert(ids_of(deleted@.take(k + 1)) =~= ids_of(deleted@.take(k as int)).push(
                deleted@[k as int].id@,
            ));
            k += 1;
        }
        assert(deleted@.take(deleted@.len() as int) =~= deleted@);
        let mut trash: Vec<TrashEntry> = Vec::new();
        std::mem::swap(&mut trash, &mut self.trash);
        let mut trash = drop_undo_id(trash, undo_id.as_str());
        let ghost kept_trash = trash@;
        trash.push(TrashEntry { undo_id, board_id: owned(board_id), nodes: deleted, expires_at });
        assert(trash@.take(kept_trash.len() as int) =~= kept_trash);
        self.trash = trash;
        Ok(ids)
    }

    /// Puts back the nodes trashed under `undo_id` whose ids the board does
    /// not hold again, and returns their ids. Expired trash is forgotten
    /// first; the entry is used up even when it belongs to another board or
    /// its board is gone.
    pub fn undo_delete(&mut self, board_id: &str, undo_id: &str, now: u64) -> (result: Result<Vec<String>, StoreError>)
        ensures
            undo_done(*old(self), *final(self), board_id@, undo_id@, now, result),
    {
        self.purge_expired_trash(now);
        let position = match trash_position(&self.trash, undo_id) {
            Some(position) => position,
            None => {
                return Err(StoreError::NothingToUndo);
            },
        };
        proof {
            lemma_find_trash(self.trash@, undo_id@);
        }
        let entry = self.trash.remove(position);
        if !same_text(entry.board_id.as_str(), board_id) {
            return Err(StoreError::NothingToUndo);
        }
        let index = match board_position(&self.boards, board_id) {
            Some(index) => index,
            None => {
                return Err(StoreError::BoardNotFound);
            },
        };
        proof {
            lemma_find_board(self.boards@, board_id@);
        }
        let ghost before = self.boards@;
        let mut board = self.boards.remove(index);
        let restored = restore_nodes(&mut board.nodes, entry.nodes);
        self.boards.insert(index, board);
        assert(self.boards@ =~= before.update(index as int, self.boards@[index as int]));
        Ok(restored)
    }

    /// Removes every board carrying `board_id` and its trash; refused when
    /// no board carries it.
    pub fn delete_board(&mut self, board_id: &str) -> (result: Result<(), StoreError>)
        ensures
            match find_board(old(self).boards@, board_id@) {
                None => {
                    &&& result == Err::<(), StoreError>(StoreError::BoardNotFound)
                    &&& final(self).boards@ == old(self).boards@
                    &&& final(self).trash@ == old(self).trash@
                },
                Some(_) => {
                    &&& result == Ok::<(), StoreError>(())
                    &&& final(self).boards@ == without_board(old(self).boards@, board_id@)
                    &&& final(self).trash@ == without_board_trash(old(self).trash@, board_id@)
                },
            },
    {
        let found = board_position(&self.boards, board_id);
        if found.is_none() {
            return Err(StoreError::BoardNotFound);
        }
        let mut boards: Vec<Board> = Vec::new();
        std::mem::swap(&mut boards, &mut self.boards);
        self.boards = drop_board(boards, board_id);
        let mut trash: Vec<TrashEntry> = Vec::new();
        std::mem::swap(&mut trash, &mut self.trash);
        self.trash = drop_board_trash(trash, board_id);
        Ok(())
    }
}

/// A board title as a rename keeps it: trimmed, at most 120 characters.
pub open spec fn clean_title(title: Seq<char>) -> Seq<char> {
    head_chars_spec(trim_chars(title), 120)
}

/// Whether `bits` encode a finite `f32`: its exponent bits are not all set.
pub open spec fn finite_bits(bits: u32) -> bool {
    (bits >> 23u32) & 0xffu32 != 0xffu32
}

pub fn is_finite_bits(bits: u32) -> (finite: bool)
    ensures
        finite == finite_bits(bits),
{
    (bits >> 23u32) & 0xffu32 != 0xffu32
}

/// The nodes after placing each listed node, in order, at its position;
/// an id that names no node is skipped.
pub open spec fn placed(nodes: Seq<BoardNode>, positions: Seq<(String, u32, u32)>) -> Seq<BoardNode>
    decreases positions.len(),
{
    if positions.len() == 0 {
        nodes
    } else {
        let before = placed(nodes, positions.drop_last());
        let position = positions.last();
        match find_node(before, position.0@) {
            Some(n) => before.update(
                n,
                BoardNode { x: Some(position.1), y: Some(position.2), ..before[n] },
            ),
            None => before,
        }
    }
}

/// `node` placed at `(x, y)`, with every other field kept.
pub open spec fn moved_to(node: BoardNode, x: u32, y: u32) -> BoardNode {
    BoardNode { x: Some(x), y: Some(y), ..node }
}

/// `after` is `before` with at most its position changed.
pub open spec fn only_position_changed(before: BoardNode, after: BoardNode) -> bool {
    after == (BoardNode { x: after.x, y: after.y, ..before })
}

/// Whether no node before index `i` carries the id of node `i`.
pub open spec fn first_with_its_id(nodes: Seq<BoardNode>, i: int) -> bool {
    forall|k: int| 0 <= k < i ==> (#[trigger] nodes[k]).id@ != nodes[i].id@
}

/// Whether no position after index `p` names `id`.
pub open spec fn last_for_id(positions: Seq<(String, u32, u32)>, p: int, id: Seq<char>) -> bool {
    forall|q: int| p < q < positions.len() ==> (#[trigger] positions[q]).0@ != id
}

/// Whether some position names `id`.
pub open spec fn named_by(positions: Seq<(String, u32, u32)>, id: Seq<char>) -> bool {
    exists|p: int| 0 <= p < positions.len() && (#[trigger] positions[p]).0@ == id
}

/// Moving nodes places, for every node that is the first on its board with
/// its id, the last position given for that id; every other node, and every
/// other field, is left as it was.
pub proof fn lemma_moves_place_named_nodes(nodes: Seq<BoardNode>, positions: Seq<(String, u32, u32)>)
    ensures
        placed(nodes, positions).len() == nodes.len(),
        forall|i: int|
            0 <= i < nodes.len() ==> only_position_changed(nodes[i], #[trigger] placed(nodes, positions)[i]),
        forall|i: int, p: int|
            #![trigger placed(nodes, positions)[i], positions[p]]
            0 <= i < nodes.len() && 0 <= p < positions.len() && first_with_its_id(nodes, i)
                && positions[p].0@ == nodes[i].id@ && last_for_id(positions, p, nodes[i].id@)
                ==> placed(nodes, positions)[i] == moved_to(nodes[i], positions[p].1, positions[p].2),
        forall|i: int|
            0 <= i < nodes.len() && (!first_with_its_id(nodes, i) || !named_by(positions, nodes[i].id@))
                ==> #[trigger] placed(nodes, positions)[i] == nodes[i],
    decreases positions.len(),
{
    if positions.len() > 0 {
        let front = positions.drop_last();
        let before = placed(nodes, front);
        let pos = positions.last();
        let last = positions.len() - 1;
        lemma_moves_place_named_nodes(nodes, front);
        let after = placed(nodes, positions);
        lemma_find_node(before, pos.0@);
        assert forall|i: int| 0 <= i < nodes.len() implies only_position_changed(
            nodes[i],
            #[trigger] after[i],
        ) by {
            assert(only_position_changed(nodes[i], before[i]));
        }
        assert forall|i: int, p: int|
            #![trigger after[i], positions[p]]
            0 <= i < nodes.len() && 0 <= p < positions.len() && first_with_its_id(nodes, i)
                && positions[p].0@ == nodes[i].id@ && last_for_id(positions, p, nodes[i].id@)
            implies after[i] == moved_to(nodes[i], positions[p].1, positions[p].2) by {
            assert(only_position_changed(nodes[i], before[i]));
            if p == last {
                assert forall|k: int| 0 <= k < i implies (#[trigger] before[k]).id@ != pos.0@ by {
                    assert(only_position_changed(nodes[k], before[k]));
                    assert(nodes[k].id@ != nodes[i].id@);
                }
                lemma_find_node_first(before, pos.0@, i);
            } else {
                assert(positions[last].0@ != nodes[i].id@);
                assert(front[p] == positions[p]);
                assert forall|q: int| p < q < front.len() implies (#[trigger] front[q]).0@ != nodes[i].id@ by {
                    assert(front[q] == positions[q]);
                }
                assert(last_for_id(front, p, nodes[i].id@));
                assert(before[i] == moved_to(nodes[i], front[p].1, front[p].2));
            }
        }
        assert forall|i: int|
            0 <= i < nodes.len() && (!first_with_its_id(nodes, i) || !named_by(positions, nodes[i].id@))
            implies #[trigger] after[i] == nodes[i] by {
            assert(only_position_changed(nodes[i], before[i]));
            if !first_with_its_id(nodes, i) {
                let k = choose|k: int| 0 <= k < i && (#[trigger] nodes[k]).id@ == nodes[i].id@;
                assert(only_position_changed(nodes[k], before[k]));
                assert(before[i] == nodes[i]);
            } else {
                assert(!named_by(front, nodes[i].id@)) by {
                    if named_by(front, nodes[i].id@) {
                        let p = choose|p: int| 0 <= p < front.len() && (#[trigger] front[p]).0@ == nodes[i].id@;
                        assert(positions[p] == front[p]);
                    }
                }
                assert(positions[last].0@ != nodes[i].id@);
                assert(before[i] == nodes[i]);
            }
        }
    }
}

/// Whether `url` names a stored image of the board.
pub open spec fn names_board_image(images: Seq<char>, board_id: Seq<char>, url: String) -> bool {
    image_path_spec(images, board_id, url@) is Some
}

/// The source images of a request on a parent: the URLs the request names,
/// in order, that name a stored image of the board; the parent's images,
/// filtered the same way, only when the request names none; none without a
/// parent.
pub proof fn lemma_request_sources_follow_the_request(
    images: Seq<char>,
    board_id: Seq<char>,
    parent: BoardNode,
    requested: Option<Seq<String>>,
)
    ensures
        board_urls(images, board_id, chosen_sources(Some(parent), requested)) == (match requested {
            Some(list) => list,
            None => parent.images@,
        }).filter(|url: String| names_board_image(images, board_id, url)),
        board_urls(images, board_id, chosen_sources(None, requested)).len() == 0,
{
    let chosen = match requested {
        Some(list) => list,
        None => parent.images@,
    };
    lemma_board_urls_filter(images, board_id, chosen);
    assert(chosen_sources(Some(parent), requested) == chosen);
}

proof fn lemma_board_urls_filter(images: Seq<char>, board_id: Seq<char>, urls: Seq<String>)
    ensures
        board_urls(images, board_id, urls) == urls.filter(
            |url: String| names_board_image(images, board_id, url),
        ),
    decreases urls.len(),
{
    reveal(Seq::filter);
    if urls.len() > 0 {
        lemma_board_urls_filter(images, board_id, urls.drop_last());
    }
}

/// The labels a node with `count` outputs gets: `Output 1`, `Output 2`, ...
pub open spec fn output_labels(count: nat) -> Seq<Seq<char>> {
    Seq::new(count, |i: int| "Output "@ + decimal((i + 1) as nat))
}

/// The error a run interrupted by an unexpected exit gets.
pub open spec fn interrupted_message() -> Seq<char> {
    "Generation was interrupted because CodexImage closed unexpectedly."@
}

/// What loading repairs in a stored node: attempts recorded from the
/// outputs when there are none, one label per output, and an interrupted
/// run failed.
pub open spec fn repaired(node: BoardNode, after: BoardNode, now: i64) -> bool {
    &&& after.id == node.id
    &&& after.parent_id == node.parent_id
    &&& after.prompt == node.prompt
    &&& after.aspect == node.aspect
    &&& after.source_images == node.source_images
    &&& after.attachments == node.attachments
    &&& after.images == node.images
    &&& after.attempts@ == (if node.attempts@.len() == 0 && node.images@.len() > 0 {
        node.images@
    } else {
        node.attempts@
    })
    &&& after.image_labels.deep_view() == (if node.image_labels@.len() != node.images@.len() {
        output_labels(node.images@.len())
    } else {
        node.image_labels.deep_view()
    })
    &&& after.text == node.text
    &&& after.stop_reason == node.stop_reason
    &&& after.x == node.x
    &&& after.y == node.y
    &&& after.created_at == node.created_at
    &&& after.run_started_at == node.run_started_at
    &&& after.usage == node.usage
    &&& if node.status == NodeStatus::Running {
        &&& after.status == NodeStatus::Error
        &&& opt_view(after.error) == Some(interrupted_message())
        &&& after.finished_at == Some(now)
    } else {
        &&& after.status == node.status
        &&& after.error == node.error
        &&& after.finished_at == node.finished_at
    }
}

/// Whether loading has anything to repair in `node`.
pub open spec fn needs_repair(node: BoardNode) -> bool {
    ||| node.attempts@.len() == 0 && node.images@.len() > 0
    ||| node.image_labels@.len() != node.images@.len()
    ||| node.status == NodeStatus::Running
}

/// The labels `Output 1` to `Output {count}`.
fn output_label_list(count: usize) -> (labels: Vec<String>)
    ensures
        labels.deep_view() == output_labels(count as nat),
{
    let mut labels: Vec<String> = Vec::new();
    let mut index: usize = 0;
    while index < count
        invariant
            index <= count,
            labels.deep_view() == output_labels(index as nat),
        decreases count - index,
    {
        let mut label = owned("Output ");
        let number = decimal_string((index as u128) + 1);
        push_str(&mut label, number.as_str());
        let ghost before = labels.deep_view();
        push_string(&mut labels, label);
        assert(labels.deep_view() =~= output_labels((index + 1) as nat));
        index += 1;
    }
    labels
}

/// Repairs what an older or interrupted session left in a stored node, and
/// says whether anything changed.
pub fn repair_node(node: &mut BoardNode, now: i64) -> (changed: bool)
    ensures
        repaired(*old(node), *final(node), now),
        changed == needs_repair(*old(node)),
{
    let mut changed = false;
    if node.attempts.len() == 0 && node.images.len() > 0 {
        node.attempts = copy_strings(&node.images);
        changed = true;
    }
    if node.image_labels.len() != node.images.len() {
        node.image_labels = output_label_list(node.images.len());
        changed = true;
    }
    if node.status == NodeStatus::Running {
        node.status = NodeStatus::Error;
        node.error = Some(owned("Generation was interrupted because CodexImage closed unexpectedly."));
        node.finished_at = Some(now);
        changed = true;
    }
    changed
}

/// Repairs every node of every board after loading, and says whether
/// anything changed.
pub fn repair_boards(boards: &mut Vec<Board>, now: i64) -> (changed: bool)
    ensures
        final(boards)@.len() == old(boards)@.len(),
        forall|b: int|
            0 <= b < old(boards)@.len() ==> {
                let before = #[trigger] old(boards)@[b];
                let after = final(boards)@[b];
                &&& after.id == before.id
                &&& after.title == before.title
                &&& after.created_at == before.created_at
                &&& after.nodes@.len() == before.nodes@.len()
                &&& forall|n: int|
                    0 <= n < before.nodes@.len() ==> repaired(
                        #[trigger] before.nodes@[n],
                        after.nodes@[n],
                        now,
                    )
            },
        changed == exists|b: int, n: int|
            0 <= b < old(boards)@.len() && 0 <= n < old(boards)@[b].nodes@.len() && needs_repair(
                #[trigger] old(boards)@[b].nodes@[n],
            ),
{
    let ghost all = boards@;
    let mut changed = false;
    let mut b: usize = 0;
    while b < boards.len()
        invariant
            b <= all.len(),
            boards@.len() == all.len(),
            forall|k: int| b <= k < all.len() ==> boards@[k] == all[k],
            forall|k: int|
                0 <= k < b ==> {
                    let before = #[trigger] all[k];
                    let after = boards@[k];
                    &&& after.id == before.id
                    &&& after.title == before.title
                    &&& after.created_at == before.created_at
                    &&& after.nodes@.len() == before.nodes@.len()
                    &&& forall|n: int|
                        0 <= n < before.nodes@.len() ==> repaired(
                            #[trigger] before.nodes@[n],
                            after.nodes@[n],
                            now,
                        )
                },
            changed == exists|k: int, n: int|
                0 <= k < b && 0 <= n < all[k].nodes@.len() && needs_repair(
                    #[trigger] all[k].nodes@[n],
                ),
        decreases all.len() - b,
    {
        let ghost before_boards = boards@;
        let mut board = boards.remove(b);
        let ghost original = board;
        assert(original == all[b as int]);
        let mut board_changed = false;
        let mut n: usize = 0;
        while n < board.nodes.len()
            invariant
                n <= original.nodes@.len(),
                board.nodes@.len() == original.nodes@.len(),
                board.id == original.id,
                board.title == original.title,
                board.created_at == original.created_at,
                forall|k: int| n <= k < original.nodes@.len() ==> board.nodes@[k] == original.nodes@[k],
                forall|k: int|
                    0 <= k < n ==> repaired(
                        #[trigger] original.nodes@[k],
                        board.nodes@[k],
                        now,
                    ),
                board_changed == exists|k: int|
                    0 <= k < n && needs_repair(#[trigger] original.nodes@[k]),
            decreases original.nodes@.len() - n,
        {
            let mut node = board.nodes.remove(n);
            let node_changed = repair_node(&mut node, now);
            board.nodes.insert(n, node);
            if node_changed {
                board_changed = true;
            }
            proof {
                if board_changed && !node_changed {
                    let k = choose|k: int| 0 <= k < n && needs_repair(#[trigger] original.nodes@[k]);
                    assert(needs_repair(original.nodes@[k]));
                }
            }
            n += 1;
        }
        boards.insert(b, board);
        if board_changed {
            changed = true;
        }
        proof {
            if board_changed {
                let k = choose|k: int| 0 <= k < original.nodes@.len() && needs_repair(
                    #[trigger] original.nodes@[k],
                );
                assert(needs_repair(all[b as int].nodes@[k]));
            }
            if changed && !board_changed {
                let (k, m) = choose|k: int, m: int|
                    0 <= k < b && 0 <= m < all[k].nodes@.len() && needs_repair(
                        #[trigger] all[k].nodes@[m],
                    );
                assert(needs_repair(all[k].nodes@[m]));
            }
            if !changed {
                assert forall|k: int, m: int|
                    0 <= k < b + 1 && 0 <= m < all[k].nodes@.len() implies !needs_repair(
                    #[trigger] all[k].nodes@[m],
                ) by {
                    if k == b {
                        assert(!needs_repair(original.nodes@[m]));
                    }
                }
            }
        }
        b += 1;
    }
    changed
}

impl RepositoryState {
    /// Renames a board to the trimmed title, cut to 120 characters; a blank
    /// title changes nothing.
    pub fn rename_board(&mut self, board_id: &str, title: &str) -> (result: Result<(), StoreError>)
        ensures
            final(self).trash == old(self).trash,
            if clean_title(title@).len() == 0 {
                result == Ok::<(), StoreError>(()) && final(self).boards == old(self).boards
            } else {
                match find_board(old(self).boards@, board_id@) {
                    None => result == Err::<(), StoreError>(StoreError::BoardNotFound)
                        && final(self).boards == old(self).boards,
                    Some(b) => {
                        &&& result == Ok::<(), StoreError>(())
                        &&& final(self).boards@.len() == old(self).boards@.len()
                        &&& forall|i: int|
                            0 <= i < old(self).boards@.len() && i != b ==> final(self).boards@[i]
                                == old(self).boards@[i]
                        &&& final(self).boards@[b].id == old(self).boards@[b].id
                        &&& final(self).boards@[b].title@ == clean_title(title@)
                        &&& final(self).boards@[b].created_at == old(self).boards@[b].created_at
                        &&& final(self).boards@[b].nodes == old(self).boards@[b].nodes
                    },
                }
            },
    {
        let trimmed = trim(title);
        let cleaned = head_chars(trimmed.as_str(), 120);
        if cleaned.as_str().is_empty() {
            return Ok(());
        }
        let index = match board_position(&self.boards, board_id) {
            Some(index) => index,
            None => {
                return Err(StoreError::BoardNotFound);
            },
        };
        proof {
            lemma_find_board(self.boards@, board_id@);
        }
        let ghost before = self.boards@;
        let mut board = self.boards.remove(index);
        board.title = cleaned;
        self.boards.insert(index, board);
        assert(self.boards@ =~= before.update(index as int, self.boards@[index as int]));
        Ok(())
    }

    /// The board and node a node update goes to: the first board carrying
    /// `board_id` and its first node carrying `node_id`.
    pub fn locate_node(&self, board_id: &str, node_id: &str) -> (result: Result<(usize, usize), StoreError>)
        ensures
            match find_board(self.boards@, board_id@) {
                None => result == Err::<(usize, usize), StoreError>(StoreError::BoardNotFound),
                Some(b) => match find_node(self.boards@[b].nodes@, node_id@) {
                    None => result == Err::<(usize, usize), StoreError>(StoreError::NodeNotFound),
                    Some(n) => result == Ok::<(usize, usize), StoreError>((b as usize, n as usize)),
                },
            },
            result matches Ok((b, n)) ==> b < self.boards@.len() && n < self.boards@[b as int].nodes@.len(),
    {
        let index = match board_position(&self.boards, board_id) {
            Some(index) => index,
            None => {
                return Err(StoreError::BoardNotFound);
            },
        };
        proof {
            lemma_find_board(self.boards@, board_id@);
        }
        match node_position(&self.boards[index].nodes, node_id) {
            Some(node) => {
                proof {
                    lemma_find_node(self.boards@[index as int].nodes@, node_id@);
                }
                Ok((index, node))
            },
            None => Err(StoreError::NodeNotFound),
        }
    }

    /// Places nodes at new canvas positions, given as the bits of their
    /// `f32` coordinates; refused when a coordinate is not finite, before
    /// the board is looked up.
    pub fn move_nodes(&mut self, board_id: &str, positions: &Vec<(String, u32, u32)>) -> (result: Result<
        (),
        StoreError,
    >)
        ensures
            final(self).trash == old(self).trash,
            if exists|i: int|
                0 <= i < positions@.len() && !(finite_bits((#[trigger] positions@[i]).1)
                    && finite_bits(positions@[i].2)) {
                result == Err::<(), StoreError>(StoreError::InvalidPosition) && final(self).boards
                    == old(self).boards
            } else {
                match find_board(old(self).boards@, board_id@) {
                    None => result == Err::<(), StoreError>(StoreError::BoardNotFound)
                        && final(self).boards == old(self).boards,
                    Some(b) => {
                        &&& result == Ok::<(), StoreError>(())
                        &&& final(self).boards@.len() == old(self).boards@.len()
                        &&& forall|i: int|
                            0 <= i < old(self).boards@.len() && i != b ==> final(self).boards@[i]
                                == old(self).boards@[i]
                        &&& final(self).boards@[b].id == old(self).boards@[b].id
                        &&& final(self).boards@[b].title == old(self).boards@[b].title
                        &&& final(self).boards@[b].created_at == old(self).boards@[b].created_at
                        &&& final(self).boards@[b].nodes@ == placed(
                            old(self).boards@[b].nodes@,
                            positions@,
                        )
                    },
                }
            },
    {
        let mut check: usize = 0;
        while check < positions.len()
            invariant
                check <= positions@.len(),
                forall|i: int|
                    0 <= i < check ==> finite_bits((#[trigger] positions@[i]).1) && finite_bits(
                        positions@[i].2,
                    ),
            decreases positions@.len() - check,
        {
            if !is_finite_bits(positions[check].1) || !is_finite_bits(positions[check].2) {
                assert(!(finite_bits(positions@[check as int].1) && finite_bits(positions@[check as int].2)));
                return Err(StoreError::InvalidPosition);
            }
            check += 1;
        }
        let index = match board_position(&self.boards, board_id) {
            Some(index) => index,
            None => {
                return Err(StoreError::BoardNotFound);
            },
        };
        proof {
            lemma_find_board(self.boards@, board_id@);
        }
        let ghost before = self.boards@;
        let mut board = self.boards.remove(index);
        let ghost start = board.nodes@;
        let mut k: usize = 0;
        assert(positions@.take(0) =~= Seq::<(String, u32, u32)>::empty());
        while k < positions.len()
            invariant
                k <= positions@.len(),
                board.nodes@ == placed(start, positions@.take(k as int)),
                board.id == before[index as int].id,
                board.title == before[index as int].title,
                board.created_at == before[index as int].created_at,
            decreases positions@.len() - k,
        {
            assert(positions@.take(k + 1).drop_last() =~= positions@.take(k as int));
            assert(positions@.take(k + 1).last() == positions@[k as int]);
            match node_position(&board.nodes, positions[k].0.as_str()) {
                Some(n) => {
                    proof {
                        lemma_find_node(board.nodes@, positions@[k as int].0@);
                    }
                    let mut node = board.nodes.remove(n);
                    node.x = Some(positions[k].1);
                    node.y = Some(positions[k].2);
                    let ghost placed_node = node;
                    board.nodes.insert(n, node);
                },
                None => {},
            }
            k += 1;
        }
        assert(positions@.take(positions@.len() as int) =~= positions@);
        self.boards.insert(index, board);
        assert(self.boards@ =~= before.update(index as int, self.boards@[index as int]));
        Ok(())
    }
}

/// A new-nodes request as the store takes it: the trimmed prompt and the
/// number of nodes, 1 to 4; refused when the prompt is blank or there are
/// more than 8 attachments.
pub open spec fn prepared_request(prompt: Seq<char>, count: usize, attachments: int) -> Result<
    (Seq<char>, usize),
    StoreError,
> {
    if trim_chars(prompt).len() == 0 {
        Err(StoreError::EmptyPrompt)
    } else if attachments > MAX_ATTACHMENTS {
        Err(StoreError::TooManyAttachments)
    } else {
        Ok(
            (
                trim_chars(prompt),
                if count < 1 {
                    1
                } else if count > 4 {
                    4
                } else {
                    count
                },
            ),
        )
    }
}

/// Checks a new-nodes request: its prompt, trimmed, and how many nodes it
/// makes.
pub fn prepare_request(prompt: &str, count: usize, attachment_paths: usize, attachment_urls: usize) -> (result: Result<(String, usize), StoreError>)
    ensures
        match prepared_request(prompt@, count, attachment_paths + attachment_urls) {
            Ok((text, nodes)) => result matches Ok((t, n)) && t@ == text && n == nodes,
            Err(error) => result == Err::<(String, usize), StoreError>(error),
        },
{
    let trimmed = trim(prompt);
    if trimmed.as_str().is_empty() {
        return Err(StoreError::EmptyPrompt);
    }
    let count = if count < 1 {
        1
    } else if count > 4 {
        4
    } else {
        count
    };
    if attachment_paths > MAX_ATTACHMENTS || attachment_urls > MAX_ATTACHMENTS - attachment_paths {
        return Err(StoreError::TooManyAttachments);
    }
    Ok((trimmed, count))
}

/// The URLs, in order, that name a stored image of the board.
pub open spec fn board_urls(images: Seq<char>, board_id: Seq<char>, urls: Seq<String>) -> Seq<String>
    decreases urls.len(),
{
    if urls.len() == 0 {
        Seq::empty()
    } else {
        let rest = board_urls(images, board_id, urls.drop_last());
        if image_path_spec(images, board_id, urls.last()@) is Some {
            rest.push(urls.last())
        } else {
            rest
        }
    }
}

/// Keeps the URLs that name a stored image of the board.
pub fn keep_board_urls(images: &str, board_id: &str, urls: Vec<String>) -> (kept: Vec<String>)
    ensures
        kept@ == board_urls(images@, board_id@, urls@),
{
    let ghost all = urls@;
    let total = urls.len();
    let mut stack = crate::subtree::reversed(urls);
    let mut kept: Vec<String> = Vec::new();
    let mut taken: usize = 0;
    assert(all.skip(0) =~= all);
    assert(all.take(0) =~= Seq::<String>::empty());
    while stack.len() > 0
        invariant
            taken <= all.len(),
            total == all.len(),
            stack@ == all.skip(taken as int).reverse(),
            kept@ == board_urls(images@, board_id@, all.take(taken as int)),
        decreases stack@.len(),
    {
        let ghost remaining = all.skip(taken as int);
        let url = stack.pop().unwrap();
        assert(remaining.reverse().last() == remaining[0]);
        assert(all.skip(taken + 1).reverse() =~= remaining.reverse().drop_last());
        assert(all.take(taken + 1).drop_last() =~= all.take(taken as int));
        assert(all.take(taken + 1).last() == url);
        if image_path(images, board_id, url.as_str()).is_some() {
            kept.push(url);
        }
        taken += 1;
    }
    assert(all.take(all.len() as int) =~= all);
    kept
}

/// A new node, running, of a generation request. The aspect defaults to
/// `auto`, and the node is created `index` milliseconds after the run
/// started so that its takes keep their order.
pub fn new_run_node(
    id: String,
    parent_id: Option<String>,
    prompt: String,
    aspect: &str,
    source_images: Vec<String>,
    attachments: Vec<String>,
    position: Option<(u32, u32)>,
    run_started_at: i64,
    index: usize,
) -> (node: BoardNode)
    requires
        index <= i64::MAX,
        run_started_at + index <= i64::MAX,
    ensures
        node.id == id,
        node.parent_id == parent_id,
        node.prompt == prompt,
        node.aspect@ == (if aspect@.len() == 0 {
            "auto"@
        } else {
            aspect@
        }),
        node.source_images == source_images,
        node.attachments == attachments,
        node.images@.len() == 0,
        node.image_labels@.len() == 0,
        node.attempts@.len() == 0,
        node.text@.len() == 0,
        node.status == NodeStatus::Running,
        node.error is None,
        node.stop_reason is None,
        node.x == (match position {
            Some(p) => Some(p.0),
            None => None,
        }),
        node.y == (match position {
            Some(p) => Some(p.1),
            None => None,
        }),
        node.created_at == run_started_at + index,
        node.run_started_at == Some(run_started_at),
        node.finished_at is None,
        node.usage is None,
{
    let aspect = if aspect.is_empty() {
        owned("auto")
    } else {
        owned(aspect)
    };
    BoardNode {
        id,
        parent_id,
        prompt,
        aspect,
        source_images,
        attachments,
        images: Vec::new(),
        image_labels: Vec::new(),
        attempts: Vec::new(),
        text: String::new(),
        status: NodeStatus::Running,
        error: None,
        stop_reason: None,
        x: match position {
            Some(p) => Some(p.0),
            None => None,
        },
        y: match position {
            Some(p) => Some(p.1),
            None => None,
        },
        created_at: run_started_at + index as i64,
        run_started_at: Some(run_started_at),
        finished_at: None,
        usage: None,
    }
}

/// Where a request's source images come from: the requested ones when it
/// continues a parent, the parent's outputs when it names none, nothing for
/// a new root; only URLs of the board's stored images are kept.
pub open spec fn chosen_sources(parent: Option<BoardNode>, requested: Option<Seq<String>>) -> Seq<String> {
    match parent {
        Some(parent) => match requested {
            Some(images) => images,
            None => parent.images@,
        },
        None => Seq::empty(),
    }
}

impl RepositoryState {
    /// The parent id and source images of a new-nodes request on a board.
    pub fn request_sources(
        &self,
        images: &str,
        board_id: &str,
        parent_id: Option<&str>,
        requested: Option<Vec<String>>,
    ) -> (result: Result<(Option<String>, Vec<String>), StoreError>)
        ensures
            match find_board(self.boards@, board_id@) {
                None => result == Err::<(Option<String>, Vec<String>), StoreError>(
                    StoreError::BoardNotFound,
                ),
                Some(b) => {
                    let nodes = self.boards@[b].nodes@;
                    let wanted = match requested {
                        Some(list) => Some(list@),
                        None => None,
                    };
                    match parent_id {
                        Some(pid) => match find_node(nodes, pid@) {
                            None => result == Err::<(Option<String>, Vec<String>), StoreError>(
                                StoreError::ParentNotFound,
                            ),
                            Some(p) => result matches Ok((parent, sources)) && opt_view(parent)
                                == Some(nodes[p].id@) && sources@ == board_urls(
                                images@,
                                board_id@,
                                chosen_sources(Some(nodes[p]), wanted),
                            ),
                        },
                        None => result matches Ok((parent, sources)) && parent is None
                            && sources@.len() == 0,
                    }
                },
            },
    {
        let index = match board_position(&self.boards, board_id) {
            Some(index) => index,
            None => {
                return Err(StoreError::BoardNotFound);
            },
        };
        proof {
            lemma_find_board(self.boards@, board_id@);
        }
        let nodes = &self.boards[index].nodes;
        match parent_id {
            Some(pid) => {
                let position = match node_position(nodes, pid) {
                    Some(position) => position,
                    None => {
                        return Err(StoreError::ParentNotFound);
                    },
                };
                proof {
                    lemma_find_node(nodes@, pid@);
                }
                let parent = &nodes[position];
                let candidates = match requested {
                    Some(images) => images,
                    None => copy_strings(&parent.images),
                };
                let sources = keep_board_urls(images, board_id, candidates);
                Ok((Some(parent.id.clone()), sources))
            },
            None => Ok((None, Vec::new())),
        }
    }

    /// Adds a request's new nodes to the end of the board; the first nodes
    /// of an empty board name it after the first 60 characters of the
    /// prompt.
    pub fn append_nodes(&mut self, board_id: &str, prompt: &str, nodes: Vec<BoardNode>) -> (result: Result<(), StoreError>)
        ensures
            final(self).trash == old(self).trash,
            match find_board(old(self).boards@, board_id@) {
                None => result == Err::<(), StoreError>(StoreError::BoardNotFound)
                    && final(self).boards == old(self).boards,
                Some(b) => {
                    let board = old(self).boards@[b];
                    &&& result == Ok::<(), StoreError>(())
                    &&& final(self).boards@.len() == old(self).boards@.len()
                    &&& forall|i: int|
                        0 <= i < old(self).boards@.len() && i != b ==> final(self).boards@[i]
                            == old(self).boards@[i]
                    &&& final(self).boards@[b].id == board.id
                    &&& final(self).boards@[b].created_at == board.created_at
                    &&& if board.nodes@.len() == 0 {
                        final(self).boards@[b].title@ == head_chars_spec(prompt@, 60)
                    } else {
                        final(self).boards@[b].title == board.title
                    }
                    &&& final(self).boards@[b].nodes@ == board.nodes@ + nodes@
                },
            },
    {
        let index = match board_position(&self.boards, board_id) {
            Some(index) => index,
            None => {
                return Err(StoreError::BoardNotFound);
            },
        };
        proof {
            lemma_find_board(self.boards@, board_id@);
        }
        let ghost before = self.boards@;
        let mut board = self.boards.remove(index);
        if board.nodes.len() == 0 {
            board.title = head_chars(prompt, 60);
        }
        let ghost start = board.nodes@;
        let mut incoming = nodes;
        board.nodes.append(&mut incoming);
        self.boards.insert(index, board);
        assert(self.boards@ =~= before.update(index as int, self.boards@[index as int]));
        Ok(())
    }
}

} // verus!
