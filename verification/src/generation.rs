//! The decisions of a generation run: which runs a board admits, how the
//! Codex CLI is invoked, what its events change, and how a run that ends
//! is recorded. Spawning the CLI, reading its output and watching the
//! generated-images directory stay with the caller.

use vstd::prelude::*;

use crate::manifest::OutputManifest;
use crate::model::{MAX_ACTIVE_PER_BOARD, StopReason};
use crate::prompt::{tail_chars, tail_chars_spec};
use crate::strings::{
    chars_of, decimal, decimal_string, owned, push_str, push_string, same_text, string_from_range,
    trim, trim_chars,
};

verus! {

/// Why a run was ended before it finished on its own.
#[derive(Clone, Copy, Debug, PartialEq, Eq, Structural)]
pub enum Termination {
    User,
    AppQuit,
    Deleted,
    Timeout,
    Replaced,
}

impl Termination {
    /// The reason recorded on the node, or `None` when the termination is
    /// not recorded as a stop: a timeout becomes an error, and a replaced
    /// run is finalized by the run that replaced it.
    pub fn stop_reason(self) -> (reason: Option<StopReason>)
        ensures
            reason == match self {
                Termination::User => Some(StopReason::User),
                Termination::AppQuit => Some(StopReason::AppQuit),
                Termination::Deleted => Some(StopReason::Deleted),
                _ => None::<StopReason>,
            },
    {
        match self {
            Termination::User => Some(StopReason::User),
            Termination::AppQuit => Some(StopReason::AppQuit),
            Termination::Deleted => Some(StopReason::Deleted),
            Termination::Timeout | Termination::Replaced => None,
        }
    }
}

/// The sandbox the Codex CLI runs in.
#[derive(Clone, Copy, Debug, PartialEq, Eq, Structural)]
pub enum Sandbox {
    WorkspaceWrite,
    ReadOnly,
}

impl Sandbox {
    /// The value of the CLI's `-s` option.
    pub fn as_arg(self) -> (arg: &'static str)
        ensures
            arg@ == match self {
                Sandbox::WorkspaceWrite => "workspace-write"@,
                Sandbox::ReadOnly => "read-only"@,
            },
    {
        match self {
            Sandbox::WorkspaceWrite => "workspace-write",
            Sandbox::ReadOnly => "read-only",
        }
    }
}

/// The arguments of a `codex exec` run that streams JSON events for
/// `prompt` from within `workspace`, with the output schema at `schema`.
pub open spec fn exec_arguments_spec(
    sandbox: Sandbox,
    workspace: Seq<char>,
    schema: Seq<char>,
    prompt: Seq<char>,
) -> Seq<Seq<char>> {
    seq![
        "exec"@,
        "-s"@,
        match sandbox {
            Sandbox::WorkspaceWrite => "workspace-write"@,
            Sandbox::ReadOnly => "read-only"@,
        },
        "-C"@,
        workspace,
        "--json"@,
        "--output-schema"@,
        schema,
        "--skip-git-repo-check"@,
        prompt,
    ]
}

/// The arguments of a `codex exec` run.
pub fn exec_arguments(sandbox: Sandbox, workspace: &str, schema: &str, prompt: String) -> (arguments:
    Vec<String>)
    ensures
        arguments.deep_view() == exec_arguments_spec(sandbox, workspace@, schema@, prompt@),
{
    let mut arguments: Vec<String> = Vec::new();
    push_string(&mut arguments, owned("exec"));
    push_string(&mut arguments, owned("-s"));
    push_string(&mut arguments, owned(sandbox.as_arg()));
    push_string(&mut arguments, owned("-C"));
    push_string(&mut arguments, owned(workspace));
    push_string(&mut arguments, owned("--json"));
    push_string(&mut arguments, owned("--output-schema"));
    push_string(&mut arguments, owned(schema));
    push_string(&mut arguments, owned("--skip-git-repo-check"));
    push_string(&mut arguments, prompt);
    assert(arguments.deep_view() =~= exec_arguments_spec(sandbox, workspace@, schema@, prompt@));
    arguments
}

/// Why a board refused more runs.
#[derive(Clone, Copy, Debug, PartialEq, Eq, Structural)]
pub enum AdmissionError {
    TooManyRunning,
}

impl AdmissionError {
    pub fn message(&self) -> (text: &'static str)
        ensures
            text@ == "Too many generations running on this board (max 20)"@,
    {
        "Too many generations running on this board (max 20)"
    }
}

/// How many takes a request makes: 1 to 4.
pub open spec fn takes_for(requested: usize) -> usize {
    if requested < 1 {
        1
    } else if requested > 4 {
        4
    } else {
        requested
    }
}

/// Admits a request for `requested` takes on a board with `active` runs:
/// the number of takes to start, or a refusal when they would exceed the
/// board's limit.
pub fn admit_request(active: usize, requested: usize) -> (result: Result<usize, AdmissionError>)
    ensures
        if active + takes_for(requested) > MAX_ACTIVE_PER_BOARD {
            result == Err::<usize, AdmissionError>(AdmissionError::TooManyRunning)
        } else {
            result == Ok::<usize, AdmissionError>(takes_for(requested))
        },
{
    let count = if requested < 1 {
        1
    } else if requested > 4 {
        4
    } else {
        requested
    };
    if active > MAX_ACTIVE_PER_BOARD || count > MAX_ACTIVE_PER_BOARD - active {
        return Err(AdmissionError::TooManyRunning);
    }
    Ok(count)
}

/// An event of the Codex CLI's JSON stream, as far as a run reads it.
#[derive(Clone, Debug)]
pub enum CodexEvent {
    /// `thread.started`, with its thread id when it carries one.
    ThreadStarted { thread_id: Option<String> },
    /// A completed `agent_message` item, with its text.
    AgentMessage { text: Option<String> },
    /// A completed `reasoning` item, with its text.
    Reasoning { text: Option<String> },
    /// A completed `command_execution` item, with its command.
    CommandExecution { command: Option<String> },
    /// `turn.completed`, with the counts of its usage object when it has
    /// one.
    TurnCompleted { usage: Option<Vec<(String, u64)>> },
    /// `turn.failed` or `error`, with the message it carries or a default.
    Failed { message: String },
    /// Anything else.
    Other,
}

/// What a run has learnt from the Codex CLI's events.
#[derive(Debug)]
pub struct RunProgress {
    /// The threads whose generated images belong to the run, each once.
    pub watchers: Vec<String>,
    pub last_agent_message: Option<String>,
    pub turn_completed: bool,
    pub failures: Vec<String>,
}

/// The fields of one line of the Codex CLI's JSON stream that a run reads,
/// as plain values: the event's `type`, its `thread_id`, whether it has an
/// `item` and that item's `type`, `text` and `command`, its `usage` object
/// (each count, or `None` where it is not an unsigned integer), whether it
/// has a value at `/error/message`, and the text at `/error/message` and at
/// `message`.
#[derive(Clone, Debug)]
pub struct RawEvent {
    pub kind: Option<String>,
    pub thread_id: Option<String>,
    pub has_item: bool,
    pub item_kind: Option<String>,
    pub item_text: Option<String>,
    pub item_command: Option<String>,
    pub usage: Option<Vec<(String, Option<u64>)>>,
    pub has_error_message: bool,
    pub error_message: Option<String>,
    pub message: Option<String>,
}

pub open spec fn names(value: Option<String>, name: Seq<char>) -> bool {
    value matches Some(text) && text@ == name
}

/// The usage counts that are unsigned integers, in order.
pub open spec fn kept_counts(usage: Seq<(String, Option<u64>)>) -> Seq<(String, u64)>
    decreases usage.len(),
{
    if usage.len() == 0 {
        Seq::empty()
    } else {
        let rest = kept_counts(usage.drop_last());
        match usage.last().1 {
            Some(count) => rest.push((usage.last().0, count)),
            None => rest,
        }
    }
}

/// The message a failure event records: the value at `/error/message`
/// when there is one, else the event's `message`, when that value is text,
/// else a default.
pub open spec fn failure_text(
    has_error_message: bool,
    error_message: Option<String>,
    message: Option<String>,
) -> Seq<char> {
    let chosen = if has_error_message {
        error_message
    } else {
        message
    };
    match chosen {
        Some(text) => text@,
        None => "Generation failed"@,
    }
}

fn keep_counts(usage: &Vec<(String, Option<u64>)>) -> (counts: Vec<(String, u64)>)
    ensures
        counts@ == kept_counts(usage@),
{
    let mut counts: Vec<(String, u64)> = Vec::new();
    let mut index: usize = 0;
    while index < usage.len()
        invariant
            index <= usage@.len(),
            counts@ == kept_counts(usage@.take(index as int)),
        decreases usage@.len() - index,
    {
        assert(usage@.take(index + 1).drop_last() =~= usage@.take(index as int));
        match usage[index].1 {
            Some(count) => {
                counts.push((usage[index].0.clone(), count));
            },
            None => {},
        }
        index += 1;
    }
    assert(usage@.take(usage@.len() as int) =~= usage@);
    counts
}

/// Whether `event` is what a run reads from the line whose fields are
/// `raw`: by the event's type, the thread that started; the completed
/// item's text or command by the item's type; the turn's usage counts that
/// are unsigned integers; or the failure's message; anything else is
/// `Other`.
pub open spec fn reads_as(raw: RawEvent, event: CodexEvent) -> bool {
    if names(raw.kind, "thread.started"@) {
        event == (CodexEvent::ThreadStarted { thread_id: raw.thread_id })
    } else if names(raw.kind, "item.completed"@) {
        if !raw.has_item {
            event is Other
        } else if names(raw.item_kind, "agent_message"@) {
            event == (CodexEvent::AgentMessage { text: raw.item_text })
        } else if names(raw.item_kind, "reasoning"@) {
            event == (CodexEvent::Reasoning { text: raw.item_text })
        } else if names(raw.item_kind, "command_execution"@) {
            event == (CodexEvent::CommandExecution { command: raw.item_command })
        } else {
            event is Other
        }
    } else if names(raw.kind, "turn.completed"@) {
        &&& event matches CodexEvent::TurnCompleted { usage }
        &&& match raw.usage {
            Some(entries) => usage matches Some(counts) && counts@ == kept_counts(entries@),
            None => usage is None,
        }
    } else if names(raw.kind, "turn.failed"@) || names(raw.kind, "error"@) {
        event matches CodexEvent::Failed { message } && message@ == failure_text(
            raw.has_error_message,
            raw.error_message,
            raw.message,
        )
    } else {
        event is Other
    }
}

/// Reads one event of the stream as far as a run uses it.
pub fn codex_event_of(raw: RawEvent) -> (event: CodexEvent)
    ensures
        reads_as(raw, event),
{
    let kind = match &raw.kind {
        Some(kind) => kind.as_str(),
        None => {
            return CodexEvent::Other;
        },
    };
    if same_text(kind, "thread.started") {
        return CodexEvent::ThreadStarted { thread_id: raw.thread_id };
    }
    if same_text(kind, "item.completed") {
        if !raw.has_item {
            return CodexEvent::Other;
        }
        let item_kind = match &raw.item_kind {
            Some(item_kind) => item_kind.as_str(),
            None => {
                return CodexEvent::Other;
            },
        };
        if same_text(item_kind, "agent_message") {
            return CodexEvent::AgentMessage { text: raw.item_text };
        }
        if same_text(item_kind, "reasoning") {
            return CodexEvent::Reasoning { text: raw.item_text };
        }
        if same_text(item_kind, "command_execution") {
            return CodexEvent::CommandExecution { command: raw.item_command };
        }
        return CodexEvent::Other;
    }
    if same_text(kind, "turn.completed") {
        let usage = match &raw.usage {
            Some(entries) => Some(keep_counts(entries)),
            None => None,
        };
        return CodexEvent::TurnCompleted { usage };
    }
    if same_text(kind, "turn.failed") || same_text(kind, "error") {
        let chosen = if raw.has_error_message {
            raw.error_message
        } else {
            raw.message
        };
        let message = match chosen {
            Some(text) => text,
            None => owned("Generation failed"),
        };
        return CodexEvent::Failed { message };
    }
    CodexEvent::Other
}

/// What the caller does after an event.
#[derive(Debug)]
pub enum EventEffect {
    Nothing,
    /// Shows an activity line on the node.
    Activity(String),
    /// Adds a turn's usage to the node.
    Usage(Vec<(String, u64)>),
}

/// The first line of `text` as `str::lines` yields it: up to the first
/// newline, without a carriage return before it; empty for empty text.
pub open spec fn first_line(text: Seq<char>) -> Seq<char> {
    first_line_from(text, 0)
}

pub open spec fn first_line_from(text: Seq<char>, index: int) -> Seq<char>
    decreases text.len() - index,
{
    if index >= text.len() {
        text
    } else if text[index] == '\n' {
        if index > 0 && text[index - 1] == '\r' {
            text.take(index - 1)
        } else {
            text.take(index)
        }
    } else {
        first_line_from(text, index + 1)
    }
}

/// The first line of `text`.
pub fn first_line_of(text: &str) -> (line: String)
    ensures
        line@ == first_line(text@),
{
    let chars = chars_of(text);
    let mut index: usize = 0;
    while index < chars.len()
        invariant
            index <= chars@.len(),
            chars@ == text@,
            first_line(text@) == first_line_from(text@, index as int),
        decreases chars@.len() - index,
    {
        if chars[index] == '\n' {
            if index > 0 && chars[index - 1] == '\r' {
                return string_from_range(&chars, 0, index - 1);
            }
            return string_from_range(&chars, 0, index);
        }
        index += 1;
    }
    let line = string_from_range(&chars, 0, chars.len());
    assert(chars@.subrange(0, chars@.len() as int) =~= chars@);
    line
}

/// The activity line a reasoning item shows.
pub open spec fn reasoning_activity(text: Seq<char>) -> Seq<char> {
    tail_chars_spec(first_line(text), 140)
}

/// The activity line a command execution shows.
pub open spec fn command_activity(command: Seq<char>) -> Seq<char> {
    "Running: "@ + tail_chars_spec(command, 140)
}

/// What taking in `event` does to a run that had learnt `before`: it has
/// learnt `after` and the caller does `effect`.
pub open spec fn applied(before: RunProgress, event: CodexEvent, after: RunProgress, effect: EventEffect) -> bool {
    match event {
        CodexEvent::ThreadStarted { thread_id } => {
            &&& effect is Nothing
            &&& after.last_agent_message == before.last_agent_message
            &&& after.turn_completed == before.turn_completed
            &&& after.failures == before.failures
            &&& match thread_id {
                Some(id) => if before.watchers.deep_view().contains(id@) {
                    after.watchers == before.watchers
                } else {
                    after.watchers@ == before.watchers@.push(id)
                },
                None => after.watchers == before.watchers,
            }
        },
        CodexEvent::AgentMessage { text } => {
            &&& effect is Nothing
            &&& after.watchers == before.watchers
            &&& after.turn_completed == before.turn_completed
            &&& after.failures == before.failures
            &&& after.last_agent_message == match text {
                Some(text) => Some(text),
                None => before.last_agent_message,
            }
        },
        CodexEvent::Reasoning { text } => {
            &&& after.watchers == before.watchers
            &&& after.last_agent_message == before.last_agent_message
            &&& after.turn_completed == before.turn_completed
            &&& after.failures == before.failures
            &&& match text {
                Some(text) => effect matches EventEffect::Activity(line) && line@
                    == reasoning_activity(text@),
                None => effect is Nothing,
            }
        },
        CodexEvent::CommandExecution { command } => {
            &&& after.watchers == before.watchers
            &&& after.last_agent_message == before.last_agent_message
            &&& after.turn_completed == before.turn_completed
            &&& after.failures == before.failures
            &&& match command {
                Some(command) => effect matches EventEffect::Activity(line) && line@
                    == command_activity(command@),
                None => effect is Nothing,
            }
        },
        CodexEvent::TurnCompleted { usage } => {
            &&& after.watchers == before.watchers
            &&& after.last_agent_message == before.last_agent_message
            &&& after.turn_completed
            &&& after.failures == before.failures
            &&& match usage {
                Some(counts) => effect matches EventEffect::Usage(added) && added == counts,
                None => effect is Nothing,
            }
        },
        CodexEvent::Failed { message } => {
            &&& effect is Nothing
            &&& after.watchers == before.watchers
            &&& after.last_agent_message == before.last_agent_message
            &&& after.turn_completed == before.turn_completed
            &&& after.failures@ == before.failures@.push(message)
        },
        CodexEvent::Other => {
            &&& effect is Nothing
            &&& after.watchers == before.watchers
            &&& after.last_agent_message == before.last_agent_message
            &&& after.turn_completed == before.turn_completed
            &&& after.failures == before.failures
        },
    }
}

impl RunProgress {
    /// A run that has seen no event yet.
    pub fn new() -> (progress: Self)
        ensures
            progress.watchers@.len() == 0,
            progress.last_agent_message is None,
            !progress.turn_completed,
            progress.failures@.len() == 0,
    {
        RunProgress {
            watchers: Vec::new(),
            last_agent_message: None,
            turn_completed: false,
            failures: Vec::new(),
        }
    }

    /// Takes in one event and says what the caller does about it.
    pub fn apply(&mut self, event: CodexEvent) -> (effect: EventEffect)
        ensures
            applied(*old(self), event, *final(self), effect),
    {
        match event {
            CodexEvent::ThreadStarted { thread_id } => {
                match thread_id {
                    Some(id) => {
                        add_watcher(&mut self.watchers, id);
                    },
                    None => {},
                }
                EventEffect::Nothing
            },
            CodexEvent::AgentMessage { text } => {
                match text {
                    Some(text) => {
                        self.last_agent_message = Some(text);
                    },
                    None => {},
                }
                EventEffect::Nothing
            },
            CodexEvent::Reasoning { text } => match text {
                Some(text) => {
                    let line = first_line_of(text.as_str());
                    EventEffect::Activity(tail_chars(line.as_str(), 140))
                },
                None => EventEffect::Nothing,
            },
            CodexEvent::CommandExecution { command } => match command {
                Some(command) => {
                    let mut line = owned("Running: ");
                    let tail = tail_chars(command.as_str(), 140);
                    push_str(&mut line, tail.as_str());
                    EventEffect::Activity(line)
                },
                None => EventEffect::Nothing,
            },
            CodexEvent::TurnCompleted { usage } => {
                self.turn_completed = true;
                match usage {
                    Some(counts) => EventEffect::Usage(counts),
                    None => EventEffect::Nothing,
                }
            },
            CodexEvent::Failed { message } => {
                self.failures.push(message);
                EventEffect::Nothing
            },
            CodexEvent::Other => EventEffect::Nothing,
        }
    }
}

/// Adds a thread to the watched ones unless it is already watched.
fn add_watcher(watchers: &mut Vec<String>, id: String)
    ensures
        if old(watchers).deep_view().contains(id@) {
            *final(watchers) == *old(watchers)
        } else {
            final(watchers)@ == old(watchers)@.push(id)
        },
{
    let mut index: usize = 0;
    while index < watchers.len()
        invariant
            index <= watchers@.len(),
            forall|k: int| 0 <= k < index ==> watchers@[k]@ != id@,
        decreases watchers@.len() - index,
    {
        if same_text(watchers[index].as_str(), id.as_str()) {
            assert(watchers.deep_view()[index as int] == id@);
            return;
        }
        index += 1;
    }
    assert(!watchers.deep_view().contains(id@)) by {
        if watchers.deep_view().contains(id@) {
            let k = choose|k: int| 0 <= k < watchers.deep_view().len() && watchers.deep_view()[k] == id@;
            assert(watchers@[k]@ == id@);
        }
    }
    watchers.push(id);
}

/// How a run that ended is recorded.
#[derive(Clone, Copy, Debug, PartialEq, Eq, Structural)]
pub enum RunEnding {
    /// A replacing run records the outcome; nothing is recorded.
    Replaced,
    /// Recorded as stopped, for this reason.
    Stopped(StopReason),
    /// Recorded as failed for want of activity.
    TimedOut,
    /// Recorded from what the run produced.
    Finished,
}

/// How a run that ended with `termination` is recorded.
pub fn run_ending(termination: Option<Termination>) -> (ending: RunEnding)
    ensures
        ending == match termination {
            None => RunEnding::Finished,
            Some(Termination::Replaced) => RunEnding::Replaced,
            Some(Termination::Timeout) => RunEnding::TimedOut,
            Some(Termination::User) => RunEnding::Stopped(StopReason::User),
            Some(Termination::AppQuit) => RunEnding::Stopped(StopReason::AppQuit),
            Some(Termination::Deleted) => RunEnding::Stopped(StopReason::Deleted),
        },
{
    match termination {
        None => RunEnding::Finished,
        Some(Termination::Replaced) => RunEnding::Replaced,
        Some(termination) => match termination.stop_reason() {
            Some(reason) => RunEnding::Stopped(reason),
            None => RunEnding::TimedOut,
        },
    }
}

/// The text kept from the agent's last message: the manifest's summary
/// when the message parses as one, the trimmed message cut to 20 000
/// characters otherwise.
pub open spec fn kept_agent_text(summary: Option<Seq<char>>, message: Seq<char>) -> Seq<char> {
    match summary {
        Some(summary) => summary,
        None => crate::strings::head_chars_spec(trim_chars(message), 20000),
    }
}

/// The text kept from the agent's last message, given the summary of the
/// manifest it parsed as, if it did.
pub fn agent_text(summary: Option<String>, message: &str) -> (text: String)
    ensures
        text@ == kept_agent_text(crate::prompt::opt_view(summary), message@),
{
    match summary {
        Some(summary) => summary,
        None => {
            let trimmed = trim(message);
            crate::strings::head_chars(trimmed.as_str(), 20000)
        },
    }
}

/// The manifest a finished run is settled by: the one the agent's last
/// message parsed as, once the turn completed, unless it selects nothing
/// while the run generated images.
pub fn settling_manifest(turn_completed: bool, parsed: Option<OutputManifest>, generated_none: bool) -> (manifest: Option<OutputManifest>)
    ensures
        manifest == (if turn_completed && parsed is Some && (parsed->0.outputs@.len() > 0 || generated_none) {
            parsed
        } else {
            None::<OutputManifest>
        }),
{
    if !turn_completed {
        return None;
    }
    match parsed {
        Some(manifest) => {
            if manifest.outputs.len() > 0 || generated_none {
                Some(manifest)
            } else {
                None
            }
        },
        None => None,
    }
}

/// What applying the settling manifest came to.
#[derive(Clone, Debug)]
pub enum SettleOutcome {
    /// The selected outputs were applied; the manifest says whether the
    /// requested set is complete, with its summary.
    Applied { complete: bool, summary: String },
    /// Applying the selection failed, with this error.
    Failed(String),
}

pub open spec fn partial_message() -> Seq<char> {
    "Only part of the requested output set was completed."@
}

pub open spec fn no_image_message() -> Seq<char> {
    "Generation failed before producing an image."@
}

/// The error a finished run records, if any.
pub open spec fn run_error_spec(
    outcome: Option<SettleOutcome>,
    first_failure: Option<Seq<char>>,
    generated: nat,
) -> Option<Seq<char>> {
    match outcome {
        Some(SettleOutcome::Failed(error)) => Some("Automatic final selection failed: "@ + error@),
        Some(SettleOutcome::Applied { complete, summary }) => if complete {
            None
        } else if summary@.len() == 0 {
            Some(partial_message())
        } else {
            Some(summary@)
        },
        None => match first_failure {
            Some(failure) => Some(failure),
            None => if generated == 0 {
                Some(no_image_message())
            } else {
                Some(
                    "Automatic final selection failed; "@ + decimal(generated)
                        + " generated image(s) remain unfinalized."@,
                )
            },
        },
    }
}

/// The error a finished run records: from applying its manifest when it
/// had one, from its first failure or what it generated otherwise.
pub fn run_error(outcome: Option<SettleOutcome>, first_failure: Option<String>, generated: usize) -> (error: Option<String>)
    ensures
        crate::prompt::opt_view(error) == run_error_spec(
            outcome,
            crate::prompt::opt_view(first_failure),
            generated as nat,
        ),
{
    match outcome {
        Some(SettleOutcome::Failed(error)) => {
            let mut message = owned("Automatic final selection failed: ");
            push_str(&mut message, error.as_str());
            Some(message)
        },
        Some(SettleOutcome::Applied { complete, summary }) => {
            if complete {
                None
            } else if summary.as_str().is_empty() {
                Some(owned("Only part of the requested output set was completed."))
            } else {
                Some(summary)
            }
        },
        None => match first_failure {
            Some(failure) => Some(failure),
            None => {
                if generated == 0 {
                    Some(owned("Generation failed before producing an image."))
                } else {
                    let mut message = owned("Automatic final selection failed; ");
                    let count = decimal_string(generated as u128);
                    push_str(&mut message, count.as_str());
                    push_str(&mut message, " generated image(s) remain unfinalized.");
                    Some(message)
                }
            },
        },
    }
}

/// The error of a run that saw no activity for 20 minutes, given how many
/// images it saved.
pub open spec fn timeout_message_spec(attempts: nat) -> Seq<char> {
    "No generation activity for 20 minutes. "@ + if attempts == 0 {
        "No images were generated."@
    } else {
        decimal(attempts) + " unfinalized image(s) were saved before the timeout."@
    }
}

pub fn timeout_message(attempts: usize) -> (message: String)
    ensures
        message@ == timeout_message_spec(attempts as nat),
{
    let mut message = owned("No generation activity for 20 minutes. ");
    if attempts == 0 {
        push_str(&mut message, "No images were generated.");
    } else {
        let count = decimal_string(attempts as u128);
        push_str(&mut message, count.as_str());
        push_str(&mut message, " unfinalized image(s) were saved before the timeout.");
    }
    message
}

/// The failure a run records when the CLI exits unsuccessfully on its
/// own: the last 1000 characters of its trimmed error output, or the exit
/// status when there is none.
pub open spec fn exit_failure_spec(stderr_tail: Seq<char>, status: Seq<char>) -> Seq<char> {
    if trim_chars(stderr_tail).len() == 0 {
        "codex exited with "@ + status
    } else {
        tail_chars_spec(trim_chars(stderr_tail), 1000)
    }
}

pub fn exit_failure(stderr_tail: &str, status: &str) -> (message: String)
    ensures
        message@ == exit_failure_spec(stderr_tail@, status@),
{
    let trimmed = trim(stderr_tail);
    if trimmed.as_str().is_empty() {
        let mut message = owned("codex exited with ");
        push_str(&mut message, status);
        message
    } else {
        tail_chars(trimmed.as_str(), 1000)
    }
}

/// The activity line shown while a run's images are settled by a second
/// Codex run.
pub fn finalizing_message(generated: usize) -> (message: String)
    ensures
        message@ == "Finalizing "@ + decimal(generated as nat) + " generated images"@,
{
    let mut message = owned("Finalizing ");
    let count = decimal_string(generated as u128);
    push_str(&mut message, count.as_str());
    push_str(&mut message, " generated images");
    message
}

/// How often, in milliseconds, a run looks for newly generated images.
pub const POLL_INTERVAL_MS: u64 = 1_200;

/// How long, in milliseconds, a run may go without any activity before it
/// is ended.
pub const IDLE_TIMEOUT_MS: u64 = 20 * 60 * 1000;

/// Milliseconds from `since` to `now` on a monotonic clock, or 0.
pub open spec fn elapsed(now: u64, since: u64) -> int {
    if now >= since {
        now - since
    } else {
        0
    }
}

/// What happens to a running Codex job, in the order the caller sees it.
#[derive(Debug)]
pub enum RunInput {
    /// A line of the event stream was read at `now_ms`; it holds `event`
    /// when it is JSON.
    Line { event: Option<CodexEvent>, now_ms: u64 },
    /// The caller's loop came round at `now_ms`.
    Tick { now_ms: u64 },
    /// The generated-images directories were searched at `now_ms`;
    /// `any_new` when an image was added.
    Collected { any_new: bool, now_ms: u64 },
    /// The job was asked to end for `reason`.
    Stop(Termination),
    /// The Codex process was started.
    Spawned,
    /// The Codex process exited, successfully or with `status`, having
    /// written `stderr_tail` last on its error stream.
    Exited { success: bool, status: String, stderr_tail: String },
}

/// The signal a kill sends to the job's process group.
#[derive(Clone, Copy, Debug, PartialEq, Eq, Structural)]
pub enum KillSignal {
    /// Ask the process to end (`SIGTERM`); if it is still running after
    /// `TERMINATE_GRACE_MS`, it is killed.
    Terminate,
    /// End the process at once (`SIGKILL`).
    Kill,
}

/// How long a process asked to end may take before it is killed.
pub const TERMINATE_GRACE_MS: u64 = 3_000;

/// The signal a stop for `reason` sends: a user's stop asks the process to
/// end, every other reason kills it.
pub open spec fn stop_signal(reason: Termination) -> KillSignal {
    match reason {
        Termination::User => KillSignal::Terminate,
        _ => KillSignal::Kill,
    }
}

/// What the caller does next.
#[derive(Debug)]
pub enum RunAction {
    Nothing,
    /// What an event asks for.
    Event(EventEffect),
    /// Search the generated-images directories and report `Collected`.
    Collect,
    /// Send the signal to the job's process group.
    Kill(KillSignal),
    /// The process is gone: sweep for images once more and settle the run.
    Finish,
}

/// The state of a running job: what it has learnt, why it was ended if it
/// was, and when it last showed activity and last looked for images.
#[derive(Debug)]
pub struct RunLoop {
    pub progress: RunProgress,
    pub termination: Option<Termination>,
    pub last_activity_ms: u64,
    pub last_poll_ms: u64,
}

/// Whether the job has been idle long enough to be ended.
pub open spec fn idle_out(termination: Option<Termination>, last_activity_ms: u64, now: u64) -> bool {
    termination is None && elapsed(now, last_activity_ms) >= IDLE_TIMEOUT_MS
}

/// What `input` does to a job in state `before`: it is in state `after`
/// and the caller does `action`.
pub open spec fn stepped(before: RunLoop, input: RunInput, after: RunLoop, action: RunAction) -> bool {
    match input {
        RunInput::Line { event, now_ms } => {
            &&& after.termination == before.termination
            &&& after.last_activity_ms == now_ms
            &&& after.last_poll_ms == before.last_poll_ms
            &&& match event {
                Some(event) => action matches RunAction::Event(effect) && applied(
                    before.progress,
                    event,
                    after.progress,
                    effect,
                ),
                None => action is Nothing && after.progress == before.progress,
            }
        },
        RunInput::Tick { now_ms } => {
            &&& after.progress == before.progress
            &&& after.last_activity_ms == before.last_activity_ms
            &&& after.last_poll_ms == before.last_poll_ms
            &&& if elapsed(now_ms, before.last_poll_ms) >= POLL_INTERVAL_MS {
                action is Collect && after.termination == before.termination
            } else if idle_out(before.termination, before.last_activity_ms, now_ms) {
                action == RunAction::Kill(KillSignal::Kill) && after.termination == Some(Termination::Timeout)
            } else {
                action is Nothing && after.termination == before.termination
            }
        },
        RunInput::Collected { any_new, now_ms } => {
            let activity = if any_new {
                now_ms
            } else {
                before.last_activity_ms
            };
            &&& after.progress == before.progress
            &&& after.last_activity_ms == activity
            &&& after.last_poll_ms == now_ms
            &&& if idle_out(before.termination, activity, now_ms) {
                action == RunAction::Kill(KillSignal::Kill) && after.termination == Some(Termination::Timeout)
            } else {
                action is Nothing && after.termination == before.termination
            }
        },
        RunInput::Stop(reason) => {
            &&& action == RunAction::Kill(stop_signal(reason))
            &&& after.termination == Some(reason)
            &&& after.progress == before.progress
            &&& after.last_activity_ms == before.last_activity_ms
            &&& after.last_poll_ms == before.last_poll_ms
        },
        RunInput::Spawned => {
            &&& after == before
            &&& if before.termination is Some {
                action == RunAction::Kill(KillSignal::Kill)
            } else {
                action is Nothing
            }
        },
        RunInput::Exited { success, status, stderr_tail } => {
            &&& action is Finish
            &&& after.termination == before.termination
            &&& after.last_activity_ms == before.last_activity_ms
            &&& after.last_poll_ms == before.last_poll_ms
            &&& after.progress.watchers == before.progress.watchers
            &&& after.progress.last_agent_message == before.progress.last_agent_message
            &&& after.progress.turn_completed == before.progress.turn_completed
            &&& if !success && before.termination is None {
                after.progress.failures@.len() == before.progress.failures@.len() + 1
                    && after.progress.failures@.take(before.progress.failures@.len() as int)
                    == before.progress.failures@ && after.progress.failures@.last()@
                    == exit_failure_spec(stderr_tail@, status@)
            } else {
                after.progress.failures == before.progress.failures
            }
        },
    }
}

impl RunLoop {
    /// A job that starts at `now_ms`, has learnt nothing and was not ended.
    pub fn new(now_ms: u64) -> (run: Self)
        ensures
            run.progress.watchers@.len() == 0,
            run.progress.last_agent_message is None,
            !run.progress.turn_completed,
            run.progress.failures@.len() == 0,
            run.termination is None,
            run.last_activity_ms == now_ms,
            run.last_poll_ms == now_ms,
    {
        RunLoop { progress: RunProgress::new(), termination: None, last_activity_ms: now_ms, last_poll_ms: now_ms }
    }

    /// Whether the Codex process may be started: the job was not ended.
    pub fn may_launch(&self) -> (launch: bool)
        ensures
            launch == self.termination is None,
    {
        self.termination.is_none()
    }

    fn timeout_check(&mut self, now_ms: u64) -> (action: RunAction)
        ensures
            final(self).progress == old(self).progress,
            final(self).last_activity_ms == old(self).last_activity_ms,
            final(self).last_poll_ms == old(self).last_poll_ms,
            if idle_out(old(self).termination, old(self).last_activity_ms, now_ms) {
                action == RunAction::Kill(KillSignal::Kill) && final(self).termination == Some(Termination::Timeout)
            } else {
                action is Nothing && final(self).termination == old(self).termination
            },
    {
        let idle = now_ms >= self.last_activity_ms && now_ms - self.last_activity_ms >= IDLE_TIMEOUT_MS;
        if self.termination.is_none() && idle {
            self.termination = Some(Termination::Timeout);
            RunAction::Kill(KillSignal::Kill)
        } else {
            RunAction::Nothing
        }
    }

    /// Takes in what happened and says what the caller does next.
    pub fn step(&mut self, input: RunInput) -> (action: RunAction)
        ensures
            stepped(*old(self), input, *final(self), action),
    {
        match input {
            RunInput::Line { event, now_ms } => {
                self.last_activity_ms = now_ms;
                match event {
                    Some(event) => RunAction::Event(self.progress.apply(event)),
                    None => RunAction::Nothing,
                }
            },
            RunInput::Tick { now_ms } => {
                if now_ms >= self.last_poll_ms && now_ms - self.last_poll_ms >= POLL_INTERVAL_MS {
                    RunAction::Collect
                } else {
                    self.timeout_check(now_ms)
                }
            },
            RunInput::Collected { any_new, now_ms } => {
                if any_new {
                    self.last_activity_ms = now_ms;
                }
                self.last_poll_ms = now_ms;
                self.timeout_check(now_ms)
            },
            RunInput::Stop(reason) => {
                self.termination = Some(reason);
                let signal = match reason {
                    Termination::User => KillSignal::Terminate,
                    _ => KillSignal::Kill,
                };
                RunAction::Kill(signal)
            },
            RunInput::Spawned => {
                if self.termination.is_some() {
                    RunAction::Kill(KillSignal::Kill)
                } else {
                    RunAction::Nothing
                }
            },
            RunInput::Exited { success, status, stderr_tail } => {
                if !success && self.termination.is_none() {
                    let failure = exit_failure(stderr_tail.as_str(), status.as_str());
                    let ghost before = self.progress.failures@;
                    self.progress.failures.push(failure);
                    assert(self.progress.failures@.take(before.len() as int) =~= before);
                }
                RunAction::Finish
            },
        }
    }
}

/// Whether a file found in a watched directory is taken into the run: it
/// was not taken before, is a non-empty file of a known image format, its
/// size held since the previous search, and it lies inside a watched
/// directory.
pub fn accepts_generated(
    seen: bool,
    is_file: bool,
    len: u64,
    previous_len: Option<u64>,
    supported: bool,
    inside: bool,
) -> (accept: bool)
    ensures
        accept == (!seen && is_file && len > 0 && supported && previous_len == Some(len) && inside),
{
    if seen || !is_file || len == 0 || !supported {
        return false;
    }
    match previous_len {
        Some(previous) => previous == len && inside,
        None => false,
    }
}

/// Why a conditioning command line was refused.
#[derive(Clone, Copy, Debug, PartialEq, Eq, Structural)]
pub enum ConditionArgsError {
    MissingSource,
    MissingOutput,
    ExtraArgument,
}

impl ConditionArgsError {
    /// The message the command prints.
    pub fn message(&self) -> (text: &'static str)
        ensures
            text@ == match *self {
                ConditionArgsError::MissingSource => "missing source image path"@,
                ConditionArgsError::MissingOutput => "missing output image path"@,
                ConditionArgsError::ExtraArgument => "--condition-image accepts exactly a source and output path"@,
            },
    {
        match self {
            ConditionArgsError::MissingSource => "missing source image path",
            ConditionArgsError::MissingOutput => "missing output image path",
            ConditionArgsError::ExtraArgument => "--condition-image accepts exactly a source and output path",
        }
    }
}

/// What a command line asks of the conditioning command: nothing unless it
/// starts with `--condition-image`, otherwise exactly a source and an
/// output path.
pub open spec fn condition_arguments_spec(arguments: Seq<Seq<char>>) -> Result<
    Option<(Seq<char>, Seq<char>)>,
    ConditionArgsError,
> {
    if arguments.len() == 0 || arguments[0] != "--condition-image"@ {
        Ok(None)
    } else if arguments.len() == 1 {
        Err(ConditionArgsError::MissingSource)
    } else if arguments.len() == 2 {
        Err(ConditionArgsError::MissingOutput)
    } else if arguments.len() > 3 {
        Err(ConditionArgsError::ExtraArgument)
    } else {
        Ok(Some((arguments[1], arguments[2])))
    }
}

/// Reads the program's arguments, after its name, as a conditioning
/// command: `Ok(None)` when they are not one, the source and output paths
/// when they are, an error when the paths are missing or followed by more.
pub fn condition_image_arguments(arguments: &Vec<String>) -> (parsed: Result<
    Option<(String, String)>,
    ConditionArgsError,
>)
    ensures
        match parsed {
            Ok(None) => condition_arguments_spec(arguments.deep_view()) == Ok::<
                Option<(Seq<char>, Seq<char>)>,
                ConditionArgsError,
            >(None),
            Ok(Some((source, output))) => condition_arguments_spec(arguments.deep_view()) == Ok::<
                Option<(Seq<char>, Seq<char>)>,
                ConditionArgsError,
            >(Some((source@, output@))),
            Err(error) => condition_arguments_spec(arguments.deep_view()) == Err::<
                Option<(Seq<char>, Seq<char>)>,
                ConditionArgsError,
            >(error),
        },
{
    let ghost view = arguments.deep_view();
    if arguments.len() == 0 || !same_text(arguments[0].as_str(), "--condition-image") {
        return Ok(None);
    }
    assert(view[0] == arguments@[0]@);
    if arguments.len() == 1 {
        return Err(ConditionArgsError::MissingSource);
    }
    if arguments.len() == 2 {
        return Err(ConditionArgsError::MissingOutput);
    }
    if arguments.len() > 3 {
        return Err(ConditionArgsError::ExtraArgument);
    }
    assert(view[1] == arguments@[1]@ && view[2] == arguments@[2]@);
    Ok(Some((arguments[1].clone(), arguments[2].clone())))
}

} // verus!
