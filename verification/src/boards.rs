//! Boards and their nodes, and what the board list shows of them.

use vstd::prelude::*;

use crate::model::{BoardSummary, NodeStatus, StopReason};
use crate::prompt::opt_view;
use crate::strings::{copy_strings, same_text, trim, trim_chars};

verus! {

/// One card on a board.
#[derive(Clone, Debug)]
pub struct BoardNode {
    pub id: String,
    pub parent_id: Option<String>,
    pub prompt: String,
    pub aspect: String,
    pub source_images: Vec<String>,
    pub attachments: Vec<String>,
    pub images: Vec<String>,
    pub image_labels: Vec<String>,
    pub attempts: Vec<String>,
    pub text: String,
    pub status: NodeStatus,
    pub error: Option<String>,
    pub stop_reason: Option<StopReason>,
    /// The horizontal canvas position, as the bits of its `f32` value.
    pub x: Option<u32>,
    /// The vertical canvas position, as the bits of its `f32` value.
    pub y: Option<u32>,
    pub created_at: i64,
    pub run_started_at: Option<i64>,
    pub finished_at: Option<i64>,
    /// Token usage by kind, one entry per kind.
    pub usage: Option<Vec<(String, u64)>>,
}

/// A board: a titled canvas of nodes.
#[derive(Clone, Debug)]
pub struct Board {
    pub id: String,
    pub title: String,
    pub created_at: i64,
    pub nodes: Vec<BoardNode>,
}

/// Whether a node carries text the card does not already show: the done
/// footer covers `Done`, and the error line covers a summary that was reused
/// as the error message.
pub open spec fn shows_attached_text(node: BoardNode) -> bool {
    &&& node.text@.len() > 0
    &&& (node.status == NodeStatus::Error || node.status == NodeStatus::Stopped)
    &&& opt_view(node.error) != Some(node.text@)
}

/// The count a usage table records for `key`; 0 when it has none.
pub open spec fn usage_value(entries: Seq<(String, u64)>, key: Seq<char>) -> int
    decreases entries.len(),
{
    if entries.len() == 0 {
        0
    } else if entries[0].0@ == key {
        entries[0].1 as int
    } else {
        usage_value(entries.drop_first(), key)
    }
}

/// Input plus output tokens of a node's usage; 0 without usage.
pub open spec fn node_tokens(node: BoardNode) -> int {
    match node.usage {
        Some(entries) => usage_value(entries@, "input_tokens"@) + usage_value(
            entries@,
            "output_tokens"@,
        ),
        None => 0,
    }
}

proof fn lemma_usage_value_bounds(entries: Seq<(String, u64)>, key: Seq<char>)
    ensures
        0 <= usage_value(entries, key) <= u64::MAX,
    decreases entries.len(),
{
    if entries.len() > 0 && entries[0].0@ != key {
        lemma_usage_value_bounds(entries.drop_first(), key);
    }
}

/// Looks up the count recorded for `key`.
fn usage_lookup(entries: &Vec<(String, u64)>, key: &str) -> (value: u64)
    ensures
        value == usage_value(entries@, key@),
{
    let mut index: usize = 0;
    assert(entries@.skip(0) =~= entries@);
    while index < entries.len()
        invariant
            index <= entries@.len(),
            usage_value(entries@, key@) == usage_value(entries@.skip(index as int), key@),
        decreases entries@.len() - index,
    {
        let ghost rest = entries@.skip(index as int);
        assert(rest[0] == entries@[index as int]);
        if same_text(entries[index].0.as_str(), key) {
            return entries[index].1;
        }
        assert(rest.drop_first() =~= entries@.skip(index + 1));
        index += 1;
    }
    0
}

impl BoardNode {
    /// The text the agent attached that the card does not already show
    /// elsewhere.
    pub fn attached_text(&self) -> (text: Option<&str>)
        ensures
            match text {
                Some(text) => shows_attached_text(*self) && text@ == self.text@,
                None => !shows_attached_text(*self),
            },
    {
        if self.text.as_str().is_empty() {
            return None;
        }
        match self.status {
            NodeStatus::Error | NodeStatus::Stopped => {},
            _ => {
                return None;
            },
        }
        match &self.error {
            Some(error) => {
                if same_text(error.as_str(), self.text.as_str()) {
                    return None;
                }
            },
            None => {},
        }
        Some(self.text.as_str())
    }

    /// Input plus output tokens the node's runs used.
    pub fn token_count(&self) -> (count: u64)
        requires
            node_tokens(*self) <= u64::MAX,
        ensures
            count == node_tokens(*self),
    {
        match &self.usage {
            Some(entries) => {
                let input = usage_lookup(entries, "input_tokens");
                let output = usage_lookup(entries, "output_tokens");
                input + output
            },
            None => 0,
        }
    }
}

/// The prompt a regeneration keeps: the new one, trimmed, unless it is
/// missing or blank.
pub open spec fn regenerated_prompt(current: Seq<char>, prompt: Option<Seq<char>>) -> Seq<char> {
    match prompt {
        Some(prompt) => if trim_chars(prompt).len() > 0 {
            trim_chars(prompt)
        } else {
            current
        },
        None => current,
    }
}

/// Whether `node` keeps every field of `before` but the status and the
/// fields that record how a run ended.
pub open spec fn same_but_outcome(node: BoardNode, before: BoardNode) -> bool {
    &&& node.id == before.id
    &&& node.parent_id == before.parent_id
    &&& node.prompt == before.prompt
    &&& node.aspect == before.aspect
    &&& node.source_images == before.source_images
    &&& node.attachments == before.attachments
    &&& node.images == before.images
    &&& node.image_labels == before.image_labels
    &&& node.attempts == before.attempts
    &&& node.text == before.text
    &&& node.x == before.x
    &&& node.y == before.y
    &&& node.created_at == before.created_at
    &&& node.run_started_at == before.run_started_at
    &&& node.usage == before.usage
}

impl BoardNode {
    /// Starts the node over for a new run: a non-blank new prompt replaces
    /// the old one, a new aspect replaces the old one, and every output and
    /// outcome of the last run is cleared.
    pub fn reset_for_regeneration(&mut self, prompt: Option<String>, aspect: Option<String>, now: i64)
        ensures
            final(self).id == old(self).id,
            final(self).parent_id == old(self).parent_id,
            final(self).prompt@ == regenerated_prompt(old(self).prompt@, opt_view(prompt)),
            final(self).aspect@ == match aspect {
                Some(aspect) => aspect@,
                None => old(self).aspect@,
            },
            final(self).source_images == old(self).source_images,
            final(self).attachments == old(self).attachments,
            final(self).images@.len() == 0,
            final(self).image_labels@.len() == 0,
            final(self).attempts@.len() == 0,
            final(self).text@.len() == 0,
            final(self).status == NodeStatus::Running,
            final(self).error is None,
            final(self).stop_reason is None,
            final(self).x == old(self).x,
            final(self).y == old(self).y,
            final(self).created_at == old(self).created_at,
            final(self).run_started_at == Some(now),
            final(self).finished_at is None,
            final(self).usage is None,
    {
        match prompt {
            Some(prompt) => {
                let trimmed = trim(prompt.as_str());
                if !trimmed.as_str().is_empty() {
                    self.prompt = trimmed;
                }
            },
            None => {},
        }
        match aspect {
            Some(aspect) => {
                self.aspect = aspect;
            },
            None => {},
        }
        self.images = Vec::new();
        self.image_labels = Vec::new();
        self.attempts = Vec::new();
        self.text = String::new();
        self.status = NodeStatus::Running;
        self.error = None;
        self.stop_reason = None;
        self.run_started_at = Some(now);
        self.finished_at = None;
        self.usage = None;
    }

    /// Records that a running node was stopped; a node that is not running
    /// is left as it is.
    pub fn mark_stopped(&mut self, reason: StopReason, now: i64)
        ensures
            same_but_outcome(*final(self), *old(self)),
            final(self).error == old(self).error,
            if old(self).status == NodeStatus::Running {
                &&& final(self).status == NodeStatus::Stopped
                &&& final(self).stop_reason == Some(reason)
                &&& final(self).finished_at == Some(now)
            } else {
                &&& final(self).status == old(self).status
                &&& final(self).stop_reason == old(self).stop_reason
                &&& final(self).finished_at == old(self).finished_at
            },
    {
        if self.status == NodeStatus::Running {
            self.status = NodeStatus::Stopped;
            self.stop_reason = Some(reason);
            self.finished_at = Some(now);
        }
    }

    /// Ends a running node's run: failed with `error` when there is one,
    /// done otherwise. A node that is not running is left as it is.
    pub fn finish_run(&mut self, error: Option<String>, now: i64)
        ensures
            same_but_outcome(*final(self), *old(self)),
            final(self).stop_reason == old(self).stop_reason,
            if old(self).status == NodeStatus::Running {
                &&& final(self).status == (if error is Some {
                    NodeStatus::Error
                } else {
                    NodeStatus::Done
                })
                &&& final(self).error == error
                &&& final(self).finished_at == Some(now)
            } else {
                &&& final(self).status == old(self).status
                &&& final(self).error == old(self).error
                &&& final(self).finished_at == old(self).finished_at
            },
    {
        if self.status != NodeStatus::Running {
            return;
        }
        self.status = if error.is_some() {
            NodeStatus::Error
        } else {
            NodeStatus::Done
        };
        self.error = error;
        self.finished_at = Some(now);
    }

    /// Fails the node with `message`, whatever its status.
    pub fn fail(&mut self, message: String, now: i64)
        ensures
            same_but_outcome(*final(self), *old(self)),
            final(self).stop_reason == old(self).stop_reason,
            final(self).status == NodeStatus::Error,
            final(self).error == Some(message),
            final(self).finished_at == Some(now),
    {
        self.status = NodeStatus::Error;
        self.error = Some(message);
        self.finished_at = Some(now);
    }

    /// Keeps the agent's text on a node that is still running.
    pub fn keep_text(&mut self, text: String)
        ensures
            final(self).text == (if old(self).status == NodeStatus::Running {
                text
            } else {
                old(self).text
            }),
            final(self).status == old(self).status,
            final(self).images == old(self).images,
            final(self).error == old(self).error,
    {
        if self.status == NodeStatus::Running {
            self.text = text;
        }
    }

    /// Shows the selected outputs with their labels and the agent's summary.
    pub fn apply_outputs(&mut self, images: Vec<String>, labels: Vec<String>, text: String)
        ensures
            final(self).images == images,
            final(self).image_labels == labels,
            final(self).text == text,
            final(self).status == old(self).status,
            final(self).attempts == old(self).attempts,
            final(self).error == old(self).error,
    {
        self.images = images;
        self.image_labels = labels;
        self.text = text;
    }

    /// Records a generated image among the node's attempts unless it is
    /// already there.
    pub fn add_attempt(&mut self, url: String)
        ensures
            if old(self).attempts.deep_view().contains(url@) {
                final(self).attempts == old(self).attempts
            } else {
                final(self).attempts@ == old(self).attempts@.push(url)
            },
            final(self).images == old(self).images,
            final(self).status == old(self).status,
    {
        let mut index: usize = 0;
        while index < self.attempts.len()
            invariant
                index <= self.attempts@.len(),
                forall|k: int| 0 <= k < index ==> self.attempts@[k]@ != url@,
            decreases self.attempts@.len() - index,
        {
            if self.attempts[index] == url {
                assert(self.attempts.deep_view()[index as int] == url@);
                return;
            }
            index += 1;
        }
        assert(!self.attempts.deep_view().contains(url@)) by {
            if self.attempts.deep_view().contains(url@) {
                let k = choose|k: int| 0 <= k < self.attempts.deep_view().len() && self.attempts.deep_view()[k] == url@;
                assert(self.attempts@[k]@ == url@);
            }
        }
        self.attempts.push(url);
    }
}

/// A usage table by its kinds' texts and counts.
pub open spec fn usage_view(entries: Seq<(String, u64)>) -> Seq<(Seq<char>, int)> {
    entries.map_values(|entry: (String, u64)| (entry.0@, entry.1 as int))
}

/// Where `key` is first recorded.
pub open spec fn usage_position(entries: Seq<(Seq<char>, int)>, key: Seq<char>) -> Option<int>
    decreases entries.len(),
{
    if entries.len() == 0 {
        None
    } else if entries[0].0 == key {
        Some(0)
    } else {
        match usage_position(entries.drop_first(), key) {
            Some(i) => Some(i + 1),
            None => None,
        }
    }
}

/// The table after adding `value` to the count of `key`, recording the
/// kind when it is new.
pub open spec fn usage_add(entries: Seq<(Seq<char>, int)>, key: Seq<char>, value: int) -> Seq<
    (Seq<char>, int),
> {
    match usage_position(entries, key) {
        Some(i) => entries.update(i, (key, entries[i].1 + value)),
        None => entries.push((key, value)),
    }
}

/// The table after adding every addition in order.
pub open spec fn usage_add_all(entries: Seq<(Seq<char>, int)>, additions: Seq<(Seq<char>, int)>) -> Seq<
    (Seq<char>, int),
>
    decreases additions.len(),
{
    if additions.len() == 0 {
        entries
    } else {
        let before = usage_add_all(entries, additions.drop_last());
        usage_add(before, additions.last().0, additions.last().1)
    }
}

/// Whether every count of the table fits a `u64`.
pub open spec fn counts_fit(entries: Seq<(Seq<char>, int)>) -> bool {
    forall|i: int| 0 <= i < entries.len() ==> 0 <= (#[trigger] entries[i]).1 <= u64::MAX
}

/// Whether adding the additions one at a time keeps every count within a
/// `u64`.
pub open spec fn additions_fit(entries: Seq<(Seq<char>, int)>, additions: Seq<(Seq<char>, int)>) -> bool
    decreases additions.len(),
{
    if additions.len() == 0 {
        counts_fit(entries)
    } else {
        additions_fit(entries, additions.drop_last()) && counts_fit(usage_add_all(entries, additions))
    }
}

/// The table a node's usage starts from.
pub open spec fn usage_of(node: BoardNode) -> Seq<(Seq<char>, int)> {
    match node.usage {
        Some(entries) => usage_view(entries@),
        None => Seq::empty(),
    }
}

proof fn lemma_usage_position(entries: Seq<(Seq<char>, int)>, key: Seq<char>)
    ensures
        match usage_position(entries, key) {
            Some(i) => 0 <= i < entries.len() && entries[i].0 == key && forall|k: int|
                0 <= k < i ==> (#[trigger] entries[k]).0 != key,
            None => forall|k: int| 0 <= k < entries.len() ==> (#[trigger] entries[k]).0 != key,
        },
    decreases entries.len(),
{
    if entries.len() > 0 && entries[0].0 != key {
        lemma_usage_position(entries.drop_first(), key);
        assert forall|k: int| 1 <= k < entries.len() implies entries[k] == entries.drop_first()[k - 1] by {}
    }
}

proof fn lemma_usage_position_first(entries: Seq<(Seq<char>, int)>, key: Seq<char>, i: int)
    requires
        0 <= i < entries.len(),
        entries[i].0 == key,
        forall|k: int| 0 <= k < i ==> (#[trigger] entries[k]).0 != key,
    ensures
        usage_position(entries, key) == Some(i),
    decreases i,
{
    if i > 0 {
        assert forall|k: int| 0 <= k < i - 1 implies (#[trigger] entries.drop_first()[k]).0 != key by {
            assert(entries.drop_first()[k] == entries[k + 1]);
        }
        lemma_usage_position_first(entries.drop_first(), key, i - 1);
    }
}

proof fn lemma_usage_position_none(entries: Seq<(Seq<char>, int)>, key: Seq<char>)
    requires
        forall|k: int| 0 <= k < entries.len() ==> (#[trigger] entries[k]).0 != key,
    ensures
        usage_position(entries, key) is None,
    decreases entries.len(),
{
    if entries.len() > 0 {
        assert forall|k: int| 0 <= k < entries.len() - 1 implies (#[trigger] entries.drop_first()[k]).0 != key by {
            assert(entries.drop_first()[k] == entries[k + 1]);
        }
        lemma_usage_position_none(entries.drop_first(), key);
    }
}

/// Adds `value` to the count of `key`, recording the kind when it is new.
#[verifier::loop_isolation(false)]
fn add_count(entries: &mut Vec<(String, u64)>, key: String, value: u64)
    requires
        counts_fit(usage_add(usage_view(old(entries)@), key@, value as int)),
    ensures
        usage_view(final(entries)@) == usage_add(usage_view(old(entries)@), key@, value as int),
{
    let ghost view = usage_view(entries@);
    let mut index: usize = 0;
    while index < entries.len()
        invariant
            index <= entries@.len(),
            view == usage_view(entries@),
            forall|k: int| 0 <= k < index ==> (#[trigger] entries@[k]).0@ != key@,
        decreases entries@.len() - index,
    {
        if entries[index].0 == key {
            proof {
                assert forall|k: int| 0 <= k < index implies (#[trigger] view[k]).0 != key@ by {
                    assert(view[k].0 == entries@[k].0@);
                }
                assert(view[index as int].0 == key@);
                lemma_usage_position_first(view, key@, index as int);
                let updated = usage_add(view, key@, value as int);
                assert(0 <= updated[index as int].1 <= u64::MAX);
            }
            let total = entries[index].1 + value;
            let ghost before = entries@;
            entries.set(index, (key, total));
            assert(usage_view(entries@) =~= view.update(index as int, (key@, view[index as int].1 + value)));
            return;
        }
        index += 1;
    }
    proof {
        assert forall|k: int| 0 <= k < view.len() implies (#[trigger] view[k]).0 != key@ by {
            assert(view[k].0 == entries@[k].0@);
        }
        lemma_usage_position_none(view, key@);
    }
    entries.push((key, value));
    assert(usage_view(entries@) =~= view.push((key@, value as int)));
}

impl BoardNode {
    /// Adds the usage a finished turn reported, kind by kind in order.
    pub fn add_usage(&mut self, additions: Vec<(String, u64)>)
        requires
            additions_fit(usage_of(*old(self)), usage_view(additions@)),
        ensures
            final(self).usage is Some,
            usage_of(*final(self)) == usage_add_all(usage_of(*old(self)), usage_view(additions@)),
            final(self).status == old(self).status,
            final(self).images == old(self).images,
    {
        let mut entries: Vec<(String, u64)> = match self.usage.take() {
            Some(entries) => entries,
            None => Vec::new(),
        };
        let ghost start = usage_view(entries@);
        let ghost added = usage_view(additions@);
        assert(start == usage_of(*old(self)));
        let total = additions.len();
        let mut stack = crate::subtree::reversed(additions);
        let ghost all = stack@.reverse();
        assert(all =~= additions@) by {
            assert(stack@.reverse() =~= additions@.reverse().reverse());
        }
        let mut taken: usize = 0;
        assert(all.skip(0) =~= all);
        assert(added.take(0) =~= Seq::<(Seq<char>, int)>::empty());
        while stack.len() > 0
            invariant
                taken <= all.len(),
                total == all.len(),
                added == usage_view(all),
                stack@ == all.skip(taken as int).reverse(),
                usage_view(entries@) == usage_add_all(start, added.take(taken as int)),
                additions_fit(start, added),
            decreases stack@.len(),
        {
            let ghost remaining = all.skip(taken as int);
            let addition = stack.pop().unwrap();
            assert(remaining.reverse().last() == remaining[0]);
            assert(remaining[0] == all[taken as int]);
            assert(all.skip(taken + 1).reverse() =~= remaining.reverse().drop_last());
            assert(added.take(taken + 1).drop_last() =~= added.take(taken as int));
            assert(added.take(taken + 1).last() == (addition.0@, addition.1 as int));
            proof {
                lemma_additions_fit_prefix(start, added, taken + 1);
            }
            let (key, value) = addition;
            add_count(&mut entries, key, value);
            taken += 1;
        }
        assert(added.take(added.len() as int) =~= added);
        self.usage = Some(entries);
    }
}

proof fn lemma_additions_fit_prefix(entries: Seq<(Seq<char>, int)>, additions: Seq<(Seq<char>, int)>, count: int)
    requires
        0 < count <= additions.len(),
        additions_fit(entries, additions),
    ensures
        counts_fit(usage_add_all(entries, additions.take(count))),
    decreases additions.len(),
{
    if count == additions.len() {
        assert(additions.take(count) =~= additions);
    } else {
        assert(additions.drop_last().take(count) =~= additions.take(count));
        lemma_additions_fit_prefix(entries, additions.drop_last(), count);
    }
}

/// When a board last changed: its newest node's creation time, or the
/// board's own when it has no nodes.
pub open spec fn updated_at_spec(nodes: Seq<BoardNode>, created_at: i64) -> i64
    decreases nodes.len(),
{
    if nodes.len() == 0 {
        created_at
    } else if nodes.len() == 1 {
        nodes[0].created_at
    } else {
        let rest = updated_at_spec(nodes.drop_last(), created_at);
        if nodes.last().created_at > rest {
            nodes.last().created_at
        } else {
            rest
        }
    }
}

/// How many images the nodes show.
pub open spec fn image_total(nodes: Seq<BoardNode>) -> int
    decreases nodes.len(),
{
    if nodes.len() == 0 {
        0
    } else {
        image_total(nodes.drop_last()) + nodes.last().images@.len()
    }
}

/// The tokens the nodes used.
pub open spec fn token_total(nodes: Seq<BoardNode>) -> int
    decreases nodes.len(),
{
    if nodes.len() == 0 {
        0
    } else {
        token_total(nodes.drop_last()) + node_tokens(nodes.last())
    }
}

/// The last image of the last node that has images.
pub open spec fn last_image_spec(nodes: Seq<BoardNode>) -> Option<Seq<char>>
    decreases nodes.len(),
{
    if nodes.len() == 0 {
        None
    } else if nodes.last().images@.len() > 0 {
        Some(nodes.last().images@.last()@)
    } else {
        last_image_spec(nodes.drop_last())
    }
}

/// Every image of the board's nodes, node by node in order.
pub open spec fn all_images(nodes: Seq<BoardNode>) -> Seq<String> {
    nodes.map_values(|node: BoardNode| node.images@).flatten()
}

/// The last image a board summary shows is the last of all the board's
/// images, taken node by node in order; none when the board has none.
pub proof fn lemma_last_image_is_last_of_all(nodes: Seq<BoardNode>)
    ensures
        last_image_spec(nodes) == (if all_images(nodes).len() == 0 {
            None
        } else {
            Some(all_images(nodes).last()@)
        }),
    decreases nodes.len(),
{
    let lists = nodes.map_values(|node: BoardNode| node.images@);
    lists.lemma_flatten_and_flatten_alt_are_equivalent();
    if nodes.len() > 0 {
        let front = nodes.drop_last();
        lemma_last_image_is_last_of_all(front);
        let front_lists = front.map_values(|node: BoardNode| node.images@);
        front_lists.lemma_flatten_and_flatten_alt_are_equivalent();
        assert(lists.drop_last() =~= front_lists);
        assert(lists.last() == nodes.last().images@);
        let earlier = front_lists.flatten_alt();
        let last = nodes.last().images@;
        assert(lists.flatten_alt() == earlier + last);
        if last.len() > 0 {
            assert((earlier + last).last() == last.last());
        } else {
            assert(earlier + last =~= earlier);
        }
    }
}

/// A board fits the counters of its summary.
pub open spec fn summable(board: Board) -> bool {
    &&& image_total(board.nodes@) <= usize::MAX
    &&& token_total(board.nodes@) <= u64::MAX
}

/// What the board list shows about `board`.
pub open spec fn summary_matches(summary: BoardSummary, board: Board) -> bool {
    &&& summary.id == board.id
    &&& summary.title == board.title
    &&& summary.created_at == board.created_at
    &&& summary.updated_at == updated_at_spec(board.nodes@, board.created_at)
    &&& summary.image_count == image_total(board.nodes@)
    &&& opt_view(summary.last_image) == last_image_spec(board.nodes@)
    &&& !summary.generating
    &&& summary.total_tokens == token_total(board.nodes@)
}

proof fn lemma_totals_prefix(nodes: Seq<BoardNode>, count: int)
    requires
        0 <= count <= nodes.len(),
    ensures
        image_total(nodes.take(count)) <= image_total(nodes),
        token_total(nodes.take(count)) <= token_total(nodes),
        0 <= image_total(nodes.take(count)),
        0 <= token_total(nodes.take(count)),
    decreases nodes.len(),
{
    if nodes.len() > 0 {
        if count == nodes.len() {
            assert(nodes.take(count) =~= nodes);
            lemma_totals_nonnegative(nodes);
        } else {
            assert(nodes.drop_last().take(count) =~= nodes.take(count));
            lemma_totals_prefix(nodes.drop_last(), count);
            lemma_node_tokens_nonnegative(nodes.last());
        }
    } else {
        assert(nodes.take(count) =~= nodes);
    }
}

proof fn lemma_node_tokens_nonnegative(node: BoardNode)
    ensures
        0 <= node_tokens(node),
{
    match node.usage {
        Some(entries) => {
            lemma_usage_value_bounds(entries@, "input_tokens"@);
            lemma_usage_value_bounds(entries@, "output_tokens"@);
        },
        None => {},
    }
}

proof fn lemma_totals_nonnegative(nodes: Seq<BoardNode>)
    ensures
        0 <= image_total(nodes),
        0 <= token_total(nodes),
    decreases nodes.len(),
{
    if nodes.len() > 0 {
        lemma_totals_nonnegative(nodes.drop_last());
        lemma_node_tokens_nonnegative(nodes.last());
    }
}

/// Summarizes one board for the board list.
pub fn board_summary(board: &Board) -> (summary: BoardSummary)
    requires
        summable(*board),
    ensures
        summary_matches(summary, *board),
{
    let nodes = &board.nodes;
    let mut updated_at = board.created_at;
    let mut image_count: usize = 0;
    let mut total_tokens: u64 = 0;
    let mut last_image: Option<String> = None;
    let mut index: usize = 0;
    while index < nodes.len()
        invariant
            index <= nodes@.len(),
            nodes@ == board.nodes@,
            summable(*board),
            updated_at == updated_at_spec(nodes@.take(index as int), board.created_at),
            image_count == image_total(nodes@.take(index as int)),
            total_tokens == token_total(nodes@.take(index as int)),
            opt_view(last_image) == last_image_spec(nodes@.take(index as int)),
        decreases nodes@.len() - index,
    {
        let node = &nodes[index];
        let ghost before = nodes@.take(index as int);
        let ghost after = nodes@.take(index + 1);
        assert(after.drop_last() =~= before);
        assert(after.last() == *node);
        proof {
            lemma_totals_prefix(nodes@, index + 1);
            lemma_totals_nonnegative(before);
            lemma_node_tokens_nonnegative(*node);
        }
        if index == 0 || node.created_at > updated_at {
            updated_at = node.created_at;
        }
        image_count = image_count + node.images.len();
        let tokens = node.token_count();
        total_tokens = total_tokens + tokens;
        if node.images.len() > 0 {
            let last = node.images.len() - 1;
            last_image = Some(node.images[last].clone());
        }
        index += 1;
    }
    assert(nodes@.take(nodes@.len() as int) =~= nodes@);
    BoardSummary {
        id: board.id.clone(),
        title: board.title.clone(),
        created_at: board.created_at,
        updated_at,
        image_count,
        last_image,
        generating: false,
        total_tokens,
    }
}

/// Where a summary updated at `key` goes among summaries ordered newest
/// first: after every one updated at the same time or later.
pub open spec fn insert_position(sorted: Seq<BoardSummary>, key: i64) -> int
    decreases sorted.len(),
{
    if sorted.len() == 0 {
        0
    } else if sorted[0].updated_at < key {
        0
    } else {
        1 + insert_position(sorted.drop_first(), key)
    }
}

/// The summaries ordered by update time, newest first; summaries updated
/// at the same time keep their order.
pub open spec fn newest_first(items: Seq<BoardSummary>) -> Seq<BoardSummary>
    decreases items.len(),
{
    if items.len() == 0 {
        Seq::empty()
    } else {
        let sorted = newest_first(items.drop_last());
        sorted.insert(insert_position(sorted, items.last().updated_at), items.last())
    }
}

pub open spec fn ordered_newest_first(items: Seq<BoardSummary>) -> bool {
    forall|i: int, j: int|
        0 <= i < j < items.len() ==> items[j].updated_at <= items[i].updated_at
}

proof fn lemma_insert_position(sorted: Seq<BoardSummary>, key: i64)
    ensures
        0 <= insert_position(sorted, key) <= sorted.len(),
        forall|i: int| 0 <= i < insert_position(sorted, key) ==> key <= #[trigger] sorted[i].updated_at,
        insert_position(sorted, key) < sorted.len() ==> sorted[insert_position(sorted, key)].updated_at
            < key,
    decreases sorted.len(),
{
    if sorted.len() > 0 && sorted[0].updated_at >= key {
        lemma_insert_position(sorted.drop_first(), key);
        assert forall|i: int| 0 <= i < insert_position(sorted, key) implies key
            <= #[trigger] sorted[i].updated_at by {
            if i > 0 {
                assert(sorted[i] == sorted.drop_first()[i - 1]);
            }
        }
    }
}

/// Summaries ordered newest first are ordered by update time, most recent
/// first, and hold every summary once.
pub proof fn lemma_newest_first(items: Seq<BoardSummary>)
    ensures
        ordered_newest_first(newest_first(items)),
        newest_first(items).to_multiset() == items.to_multiset(),
    decreases items.len(),
{
    broadcast use vstd::seq_lib::group_to_multiset_ensures;

    if items.len() > 0 {
        let sorted = newest_first(items.drop_last());
        let x = items.last();
        let p = insert_position(sorted, x.updated_at);
        lemma_newest_first(items.drop_last());
        lemma_insert_position(sorted, x.updated_at);
        let result = sorted.insert(p, x);
        assert forall|i: int, j: int| 0 <= i < j < result.len() implies result[j].updated_at
            <= result[i].updated_at by {
            if j < p {
                assert(result[i] == sorted[i] && result[j] == sorted[j]);
            } else if j == p {
                assert(result[i] == sorted[i]);
            } else if i < p {
                assert(result[i] == sorted[i] && result[j] == sorted[j - 1]);
                assert(sorted[i].updated_at >= x.updated_at);
                assert(sorted[j - 1].updated_at <= sorted[p].updated_at || j - 1 == p);
            } else if i == p {
                assert(result[j] == sorted[j - 1]);
                assert(sorted[j - 1].updated_at <= sorted[p].updated_at);
            } else {
                assert(result[i] == sorted[i - 1] && result[j] == sorted[j - 1]);
            }
        }
        assert(items.drop_last().push(x) =~= items);
        vstd::seq_lib::to_multiset_insert(sorted, p, x);
    }
}

/// Orders summaries newest first, keeping the order of ties.
pub fn sort_newest_first(items: Vec<BoardSummary>) -> (sorted: Vec<BoardSummary>)
    ensures
        sorted@ == newest_first(items@),
{
    let total = items.len();
    let mut pending = items;
    let mut reversed: Vec<BoardSummary> = Vec::new();
    while pending.len() > 0
        invariant
            reversed@ + pending@.reverse() == items@.reverse(),
        decreases pending@.len(),
    {
        let ghost before = pending@;
        let item = pending.pop().unwrap();
        assert(before.reverse() =~= seq![item] + pending@.reverse());
        reversed.push(item);
        assert(reversed@ + pending@.reverse() =~= items@.reverse());
    }
    assert(pending@.reverse() =~= Seq::<BoardSummary>::empty());
    assert(reversed@ =~= items@.reverse());
    let mut sorted: Vec<BoardSummary> = Vec::new();
    let mut taken: usize = 0;
    while reversed.len() > 0
        invariant
            taken + reversed@.len() == items@.len(),
            total == items@.len(),
            reversed@ == items@.skip(taken as int).reverse(),
            sorted@ == newest_first(items@.take(taken as int)),
        decreases reversed@.len(),
    {
        let ghost remaining = items@.skip(taken as int);
        let item = reversed.pop().unwrap();
        assert(remaining[0] == item) by {
            assert(remaining.reverse().last() == remaining[0]);
        }
        assert(items@.skip(taken + 1).reverse() =~= remaining.reverse().drop_last());
        assert(items@.take(taken + 1).drop_last() =~= items@.take(taken as int));
        assert(items@.take(taken + 1).last() == item);
        let mut position: usize = 0;
        assert(sorted@.skip(0) =~= sorted@);
        while position < sorted.len() && !(sorted[position].updated_at < item.updated_at)
            invariant
                position <= sorted@.len(),
                insert_position(sorted@, item.updated_at) == position + insert_position(
                    sorted@.skip(position as int),
                    item.updated_at,
                ),
            decreases sorted@.len() - position,
        {
            let ghost rest = sorted@.skip(position as int);
            assert(rest[0] == sorted@[position as int]);
            assert(rest.drop_first() =~= sorted@.skip(position + 1));
            position += 1;
        }
        proof {
            let rest = sorted@.skip(position as int);
            if position < sorted@.len() {
                assert(rest[0] == sorted@[position as int]);
            }
        }
        sorted.insert(position, item);
        taken += 1;
    }
    assert(items@.take(items@.len() as int) =~= items@);
    sorted
}

/// Summaries of every board for the board list, most recently updated
/// first.
pub fn summaries(boards: &Vec<Board>) -> (list: Vec<BoardSummary>)
    requires
        forall|i: int| 0 <= i < boards@.len() ==> summable(#[trigger] boards@[i]),
    ensures
        list@.len() == boards@.len(),
        exists|unsorted: Seq<BoardSummary>|
            {
                &&& unsorted.len() == boards@.len()
                &&& forall|i: int|
                    0 <= i < boards@.len() ==> summary_matches(#[trigger] unsorted[i], boards@[i])
                &&& list@ == newest_first(unsorted)
            },
        ordered_newest_first(list@),
{
    let mut unsorted: Vec<BoardSummary> = Vec::new();
    let mut index: usize = 0;
    while index < boards.len()
        invariant
            index <= boards@.len(),
            unsorted@.len() == index,
            forall|i: int| 0 <= i < boards@.len() ==> summable(#[trigger] boards@[i]),
            forall|i: int| 0 <= i < index ==> summary_matches(#[trigger] unsorted@[i], boards@[i]),
        decreases boards@.len() - index,
    {
        let summary = board_summary(&boards[index]);
        unsorted.push(summary);
        index += 1;
    }
    let ghost items = unsorted@;
    let list = sort_newest_first(unsorted);
    proof {
        lemma_newest_first(items);
        to_multiset_len(items);
        to_multiset_len(list@);
    }
    list
}

proof fn to_multiset_len(items: Seq<BoardSummary>)
    ensures
        items.to_multiset().len() == items.len(),
{
    broadcast use vstd::seq_lib::group_to_multiset_ensures;

}

/// The images a card shows: its selected outputs, or, before any are
/// selected, its latest attempt, or nothing.
pub open spec fn displayed_urls_spec(node: BoardNode) -> Seq<Seq<char>> {
    if node.images@.len() > 0 {
        node.images.deep_view()
    } else if node.attempts@.len() > 0 {
        seq![node.attempts@.last()@]
    } else {
        Seq::empty()
    }
}

/// The image urls a card displays.
pub fn displayed_urls(node: &BoardNode) -> (urls: Vec<String>)
    ensures
        urls.deep_view() == displayed_urls_spec(*node),
{
    if node.images.len() > 0 {
        let urls = copy_strings(&node.images);
        assert(urls.deep_view() =~= node.images.deep_view());
        urls
    } else if node.attempts.len() > 0 {
        let mut urls: Vec<String> = Vec::new();
        urls.push(node.attempts[node.attempts.len() - 1].clone());
        assert(urls.deep_view() =~= seq![node.attempts@.last()@]);
        urls
    } else {
        let urls: Vec<String> = Vec::new();
        assert(urls.deep_view() =~= Seq::<Seq<char>>::empty());
        urls
    }
}

} // verus!
