//! The editing core of a text field: its content, the selection, and the
//! undo history. Offsets are byte offsets into the UTF-8 content. Edits that
//! follow one another closely and are of the same kind form one undo step.

use std::ops::Range;
use vstd::prelude::*;
use vstd::string::StringSliceAdditionalSpecFns;
use vstd::utf8::{decode_utf8, encode_utf8, is_char_boundary, valid_utf8};

use crate::manifest::string_from_utf8;
use crate::strings::utf8_len;
use crate::text::{
    classes_of, first_above, grapheme_clusters, last_below, next_grapheme_boundary,
    next_word_boundary, next_word_end, normalize_inserted_text, normalized_text,
    previous_grapheme_boundary, previous_word_boundary, previous_word_start, starts_of, text_len,
};

verus! {

/// The most states the undo and redo history hold together.
pub const MAX_UNDO_STATES: usize = 100;

/// How close in time, in nanoseconds, two edits of one kind must follow each
/// other to form a single undo step.
pub const UNDO_GROUP_INTERVAL_NANOS: u64 = 750_000_000;

/// How a text field lays out its lines.
#[derive(Clone, Copy, Debug, PartialEq, Eq, Structural)]
pub enum TextInputMode {
    SingleLine,
    AutoGrow { max_lines: usize },
    FixedMultiline { lines: usize },
}

impl TextInputMode {
    pub open spec fn multiline(self) -> bool {
        !(self is SingleLine)
    }

    /// Whether the field takes more than one line.
    pub fn is_multiline(self) -> (multiline: bool)
        ensures
            multiline == self.multiline(),
    {
        match self {
            TextInputMode::SingleLine => false,
            _ => true,
        }
    }

    /// How many lines the field shows when its text wraps to
    /// `measured_lines` lines: one for a single line, the measured count
    /// within one and the cap for a growing field, the fixed count (at least
    /// one) otherwise.
    pub fn viewport_lines(self, measured_lines: usize) -> (lines: usize)
        ensures
            lines == match self {
                TextInputMode::SingleLine => 1,
                TextInputMode::AutoGrow { max_lines } => {
                    let cap = if max_lines >= 1 {
                        max_lines
                    } else {
                        1
                    };
                    if measured_lines < 1 {
                        1
                    } else if measured_lines > cap {
                        cap
                    } else {
                        measured_lines
                    }
                },
                TextInputMode::FixedMultiline { lines } => if lines >= 1 {
                    lines
                } else {
                    1
                },
            },
    {
        match self {
            TextInputMode::SingleLine => 1,
            TextInputMode::AutoGrow { max_lines } => {
                let cap = if max_lines >= 1 {
                    max_lines
                } else {
                    1
                };
                if measured_lines < 1 {
                    1
                } else if measured_lines > cap {
                    cap
                } else {
                    measured_lines
                }
            },
            TextInputMode::FixedMultiline { lines } => if lines >= 1 {
                lines
            } else {
                1
            },
        }
    }

    /// Whether a single line of text is centred vertically.
    pub fn centers_single_line(self) -> (centers: bool)
        ensures
            centers == !(self is FixedMultiline),
    {
        match self {
            TextInputMode::FixedMultiline { .. } => false,
            _ => true,
        }
    }
}

/// What an edit did, for grouping edits into undo steps.
#[derive(Clone, Copy, Debug, PartialEq, Eq, Structural)]
pub enum EditKind {
    Typing,
    DeleteBackward,
    DeleteForward,
    Replace,
}

/// The content and selection of a field at one point of its history.
#[derive(Debug)]
pub struct InputSnapshot {
    pub content: String,
    pub selected: Range<usize>,
    pub selection_reversed: bool,
}

/// A state of the history: the content's bytes and the selection.
pub struct Snap {
    pub content: Seq<u8>,
    pub start: usize,
    pub end: usize,
    pub reversed: bool,
}

impl View for InputSnapshot {
    type V = Snap;

    open spec fn view(&self) -> Snap {
        Snap {
            content: encode_utf8(self.content@),
            start: self.selected.start,
            end: self.selected.end,
            reversed: self.selection_reversed,
        }
    }
}

/// The editing state of a text field.
#[derive(Debug)]
pub struct EditorState {
    pub content: String,
    pub selected: Range<usize>,
    pub selection_reversed: bool,
    pub marked: Option<Range<usize>>,
    pub mode: TextInputMode,
    pub undo_stack: Vec<InputSnapshot>,
    pub redo_stack: Vec<InputSnapshot>,
    /// The kind and time, in nanoseconds, of the edit the next one may join.
    pub history_group: Option<(EditKind, u64)>,
}

/// The editing state as values: content bytes, selection, marked range,
/// mode, history, and the open undo group.
pub struct EditorView {
    pub content: Seq<u8>,
    pub start: usize,
    pub end: usize,
    pub reversed: bool,
    pub marked: Option<(usize, usize)>,
    pub mode: TextInputMode,
    pub undo: Seq<Snap>,
    pub redo: Seq<Snap>,
    pub group: Option<(EditKind, u64)>,
}

pub open spec fn snaps(stack: Seq<InputSnapshot>) -> Seq<Snap> {
    stack.map_values(|snapshot: InputSnapshot| snapshot@)
}

impl View for EditorState {
    type V = EditorView;

    open spec fn view(&self) -> EditorView {
        EditorView {
            content: encode_utf8(self.content@),
            start: self.selected.start,
            end: self.selected.end,
            reversed: self.selection_reversed,
            marked: match self.marked {
                Some(range) => Some((range.start, range.end)),
                None => None,
            },
            mode: self.mode,
            undo: snaps(self.undo_stack@),
            redo: snaps(self.redo_stack@),
            group: self.history_group,
        }
    }
}

/// A history state whose selection lies within its content.
pub open spec fn snap_wf(snap: Snap) -> bool {
    snap.start <= snap.end <= snap.content.len() && valid_utf8(snap.content)
}

/// The field's invariant: the selection lies within the content, every
/// history state is well formed, and the history holds at most
/// `MAX_UNDO_STATES` states.
pub open spec fn editor_wf(v: EditorView) -> bool {
    &&& v.start <= v.end <= v.content.len()
    &&& valid_utf8(v.content)
    &&& forall|i: int| 0 <= i < v.undo.len() ==> snap_wf(#[trigger] v.undo[i])
    &&& forall|i: int| 0 <= i < v.redo.len() ==> snap_wf(#[trigger] v.redo[i])
    &&& v.undo.len() + v.redo.len() <= MAX_UNDO_STATES
}

/// The history state of the field as it is now.
pub open spec fn snap_of(v: EditorView) -> Snap {
    Snap { content: v.content, start: v.start, end: v.end, reversed: v.reversed }
}

/// Where the cursor is: the selection's start when it was made backwards,
/// its end otherwise.
pub open spec fn cursor_of(v: EditorView) -> usize {
    if v.reversed {
        v.start
    } else {
        v.end
    }
}

pub open spec fn clamp_to(offset: usize, len: nat) -> usize {
    if offset <= len {
        offset
    } else {
        len as usize
    }
}

/// The cursor placed at `offset` (at most the end), with no selection, no
/// marked text, and the undo group closed.
pub open spec fn moved(v: EditorView, offset: usize) -> EditorView {
    let at = clamp_to(offset, v.content.len());
    EditorView { start: at, end: at, reversed: false, marked: None, group: None, ..v }
}

/// The selection extended from its anchor to `offset` (at most the end),
/// turning around when it crosses the anchor.
pub open spec fn selected_to(v: EditorView, offset: usize) -> EditorView {
    let at = clamp_to(offset, v.content.len());
    let (start, end) = if v.reversed {
        (at, v.end)
    } else {
        (v.start, at)
    };
    if end < start {
        EditorView { start: end, end: start, reversed: !v.reversed, marked: None, group: None, ..v }
    } else {
        EditorView { start, end, marked: None, group: None, ..v }
    }
}

/// Whether an edit of `kind` at `now` joins the open undo group.
pub open spec fn coalesces(v: EditorView, kind: EditKind, now: u64) -> bool {
    kind != EditKind::Replace && match v.group {
        Some((previous, at)) => previous == kind && (if now >= at {
            now - at
        } else {
            0
        }) <= UNDO_GROUP_INTERVAL_NANOS,
        None => false,
    }
}

/// The history after an edit made from `before`: a new undo step unless
/// the edit joins the open group (dropping the oldest step when full), the
/// redo history cleared, and the group left open for edits of the same kind.
pub open spec fn recorded(v: EditorView, before: Snap, kind: EditKind, now: u64) -> EditorView {
    let undo = if coalesces(v, kind, now) {
        v.undo
    } else if v.undo.len() == MAX_UNDO_STATES {
        v.undo.drop_first().push(before)
    } else {
        v.undo.push(before)
    };
    EditorView {
        undo,
        redo: Seq::empty(),
        group: if kind != EditKind::Replace {
            Some((kind, now))
        } else {
            None
        },
        ..v
    }
}

/// `content` with the bytes from `start` to `end` replaced by `insertion`.
pub open spec fn spliced_bytes(content: Seq<u8>, start: int, end: int, insertion: Seq<u8>) -> Seq<
    u8,
> {
    content.subrange(0, start) + insertion + content.subrange(end, content.len() as int)
}

/// An edit that replaces the bytes from `start` to `end` with `text`,
/// normalized for the field: nothing when both are empty; otherwise the new
/// content with the cursor after the inserted text, recorded in the history.
pub open spec fn edited(
    v: EditorView,
    start: usize,
    end: usize,
    text: Seq<char>,
    kind: EditKind,
    now: u64,
) -> EditorView {
    let insertion = encode_utf8(normalized_text(text, v.mode.multiline()));
    if start == end && insertion.len() == 0 {
        v
    } else {
        let at = (start + insertion.len()) as usize;
        recorded(
            EditorView {
                content: spliced_bytes(v.content, start as int, end as int, insertion),
                start: at,
                end: at,
                reversed: false,
                marked: None,
                ..v
            },
            snap_of(v),
            kind,
            now,
        )
    }
}

/// The field returned to the last undo step, with its current state kept
/// for redo; unchanged when there is nothing to undo.
pub open spec fn undone(v: EditorView) -> EditorView {
    if v.undo.len() == 0 {
        v
    } else {
        let previous = v.undo.last();
        EditorView {
            content: previous.content,
            start: previous.start,
            end: previous.end,
            reversed: previous.reversed,
            marked: None,
            undo: v.undo.drop_last(),
            redo: v.redo.push(snap_of(v)),
            group: None,
            ..v
        }
    }
}

/// The field moved forward to the last undone state, with its current
/// state kept for undo; unchanged when there is nothing to redo.
pub open spec fn redone(v: EditorView) -> EditorView {
    if v.redo.len() == 0 {
        v
    } else {
        let next = v.redo.last();
        EditorView {
            content: next.content,
            start: next.start,
            end: next.end,
            reversed: next.reversed,
            marked: None,
            undo: v.undo.push(snap_of(v)),
            redo: v.redo.drop_last(),
            group: None,
            ..v
        }
    }
}

/// Copies `bytes[from..to]` onto the end of `out`.
fn append_bytes(out: &mut Vec<u8>, bytes: &[u8], from: usize, to: usize)
    requires
        from <= to <= bytes@.len(),
    ensures
        final(out)@ == old(out)@ + bytes@.subrange(from as int, to as int),
{
    let ghost start = out@;
    let mut index = from;
    while index < to
        invariant
            from <= index <= to <= bytes@.len(),
            out@ == start + bytes@.subrange(from as int, index as int),
        decreases to - index,
    {
        out.push(bytes[index]);
        assert(bytes@.subrange(from as int, index + 1) =~= bytes@.subrange(
            from as int,
            index as int,
        ).push(bytes@[index as int]));
        index += 1;
    }
}

/// The characters of the field's content.
pub open spec fn text_of(v: EditorView) -> Seq<char> {
    decode_utf8(v.content)
}

/// The grapheme boundary before the cursor.
pub open spec fn grapheme_before(v: EditorView) -> int {
    last_below(starts_of(grapheme_clusters(text_of(v))), cursor_of(v) as int)
}

/// The grapheme boundary after the cursor.
pub open spec fn grapheme_after(v: EditorView) -> int {
    first_above(
        starts_of(grapheme_clusters(text_of(v))),
        cursor_of(v) as int,
        utf8_len(text_of(v)),
    )
}

/// The word boundary before the cursor.
pub open spec fn word_before(v: EditorView) -> int {
    previous_word_start(
        starts_of(grapheme_clusters(text_of(v))),
        classes_of(grapheme_clusters(text_of(v))),
        cursor_of(v) as int,
    )
}

/// The word boundary after the cursor.
pub open spec fn word_after(v: EditorView) -> int {
    next_word_end(
        starts_of(grapheme_clusters(text_of(v))),
        classes_of(grapheme_clusters(text_of(v))),
        cursor_of(v) as int,
        utf8_len(text_of(v)),
    )
}

/// Where a plain arrow key moves: to `target` with nothing selected, to the
/// selection's edge (`start` or end) otherwise.
pub open spec fn arrow_target(v: EditorView, target: int, to_start: bool) -> usize {
    if v.start == v.end {
        target as usize
    } else if to_start {
        v.start
    } else {
        v.end
    }
}


impl EditorState {
    /// An empty field in the given mode.
    pub fn new(mode: TextInputMode) -> (editor: Self)
        ensures
            editor@.content.len() == 0,
            editor@.start == 0 && editor@.end == 0,
            !editor@.reversed,
            editor@.marked is None,
            editor@.mode == mode,
            editor@.undo.len() == 0 && editor@.redo.len() == 0,
            editor@.group is None,
            editor_wf(editor@),
    {
        let editor = EditorState {
            content: String::new(),
            selected: 0..0,
            selection_reversed: false,
            marked: None,
            mode,
            undo_stack: Vec::new(),
            redo_stack: Vec::new(),
            history_group: None,
        };
        proof {
            broadcast use vstd::utf8::encode_utf8_valid_utf8;

            assert(editor.content@ =~= Seq::<char>::empty());
            assert(encode_utf8(editor.content@) =~= Seq::<u8>::empty());
        }
        editor
    }

    /// The text of the field.
    pub fn content(&self) -> (text: &str)
        ensures
            text@ == self.content@,
    {
        self.content.as_str()
    }

    /// The byte length of the content.
    pub fn content_len(&self) -> (len: usize)
        ensures
            len == self@.content.len(),
    {
        text_len(self.content.as_str())
    }

    /// Replaces the text, puts the cursor at its end, and forgets the
    /// history.
    pub fn set_content(&mut self, value: String)
        ensures
            final(self)@.content == encode_utf8(value@),
            final(self)@.start == final(self)@.content.len(),
            final(self)@.end == final(self)@.content.len(),
            !final(self)@.reversed,
            final(self)@.marked is None,
            final(self)@.mode == old(self)@.mode,
            final(self)@.undo.len() == 0 && final(self)@.redo.len() == 0,
            final(self)@.group is None,
            editor_wf(final(self)@),
    {
        broadcast use vstd::utf8::encode_utf8_valid_utf8;

        self.content = value;
        let end = text_len(self.content.as_str());
        self.selected = end..end;
        self.selection_reversed = false;
        self.marked = None;
        self.undo_stack.clear();
        self.redo_stack.clear();
        self.history_group = None;
        assert(snaps(self.undo_stack@) =~= Seq::<Snap>::empty());
        assert(snaps(self.redo_stack@) =~= Seq::<Snap>::empty());
    }

    /// Empties the field.
    pub fn clear(&mut self)
        ensures
            final(self)@.content.len() == 0,
            final(self)@.start == 0 && final(self)@.end == 0,
            !final(self)@.reversed,
            final(self)@.marked is None,
            final(self)@.mode == old(self)@.mode,
            final(self)@.undo.len() == 0 && final(self)@.redo.len() == 0,
            final(self)@.group is None,
            editor_wf(final(self)@),
    {
        let empty = String::new();
        proof {
            assert(empty@ =~= Seq::<char>::empty());
            assert(encode_utf8(empty@) =~= Seq::<u8>::empty());
        }
        self.set_content(empty);
    }

    /// Switches the layout mode; says whether it changed.
    pub fn set_mode(&mut self, mode: TextInputMode) -> (changed: bool)
        ensures
            changed == (old(self)@.mode != mode),
            final(self)@ == (EditorView { mode, ..old(self)@ }),
    {
        if self.mode != mode {
            self.mode = mode;
            true
        } else {
            false
        }
    }

    /// The current state, for the history.
    pub fn snapshot(&self) -> (snapshot: InputSnapshot)
        ensures
            snapshot@ == snap_of(self@),
    {
        InputSnapshot {
            content: self.content.clone(),
            selected: self.selected.start..self.selected.end,
            selection_reversed: self.selection_reversed,
        }
    }

    /// Puts back a state of the history.
    pub fn restore(&mut self, snapshot: InputSnapshot)
        ensures
            final(self)@ == (EditorView {
                content: snapshot@.content,
                start: snapshot@.start,
                end: snapshot@.end,
                reversed: snapshot@.reversed,
                marked: None,
                ..old(self)@
            }),
    {
        self.content = snapshot.content;
        self.selected = snapshot.selected;
        self.selection_reversed = snapshot.selection_reversed;
        self.marked = None;
    }

    /// Records an edit made from `before` at time `now`.
    pub fn record_edit(&mut self, before: InputSnapshot, kind: EditKind, now: u64)
        requires
            editor_wf(old(self)@),
            snap_wf(before@),
        ensures
            final(self)@ == recorded(old(self)@, before@, kind, now),
            editor_wf(final(self)@),
    {
        let coalescing = match self.history_group {
            Some((previous, at)) => kind != EditKind::Replace && previous == kind && now.saturating_sub(
                at,
            ) <= UNDO_GROUP_INTERVAL_NANOS,
            None => false,
        };
        let ghost old_undo = snaps(self.undo_stack@);
        if !coalescing {
            if self.undo_stack.len() == MAX_UNDO_STATES {
                self.undo_stack.remove(0);
                assert(snaps(self.undo_stack@) =~= old_undo.drop_first());
            }
            let ghost kept = snaps(self.undo_stack@);
            let ghost view = before@;
            self.undo_stack.push(before);
            assert(snaps(self.undo_stack@) =~= kept.push(view));
        }
        self.history_group = if kind != EditKind::Replace {
            Some((kind, now))
        } else {
            None
        };
        self.redo_stack.clear();
        assert(snaps(self.redo_stack@) =~= Seq::<Snap>::empty());
    }

    /// Ends the open undo group: the next edit starts a new step.
    pub fn break_history_group(&mut self)
        ensures
            final(self)@ == (EditorView { group: None, ..old(self)@ }),
    {
        self.history_group = None;
    }

    /// Where the cursor is.
    pub fn cursor(&self) -> (offset: usize)
        ensures
            offset == cursor_of(self@),
    {
        if self.selection_reversed {
            self.selected.start
        } else {
            self.selected.end
        }
    }

    /// Moves the cursor to `offset`, at most the end of the text.
    pub fn move_to(&mut self, offset: usize)
        requires
            editor_wf(old(self)@),
        ensures
            final(self)@ == moved(old(self)@, offset),
            editor_wf(final(self)@),
    {
        let len = self.content_len();
        let at = if offset <= len {
            offset
        } else {
            len
        };
        self.selected = at..at;
        self.selection_reversed = false;
        self.marked = None;
        self.history_group = None;
    }

    /// Extends the selection from its anchor to `offset`.
    pub fn select_to(&mut self, offset: usize)
        requires
            editor_wf(old(self)@),
        ensures
            final(self)@ == selected_to(old(self)@, offset),
            editor_wf(final(self)@),
    {
        let len = self.content_len();
        let at = if offset <= len {
            offset
        } else {
            len
        };
        let (start, end) = if self.selection_reversed {
            (at, self.selected.end)
        } else {
            (self.selected.start, at)
        };
        if end < start {
            self.selection_reversed = !self.selection_reversed;
            self.selected = end..start;
        } else {
            self.selected = start..end;
        }
        self.marked = None;
        self.history_group = None;
    }

    /// Selects the whole text.
    pub fn select_all(&mut self)
        requires
            editor_wf(old(self)@),
        ensures
            final(self)@ == (EditorView {
                start: 0,
                end: old(self)@.content.len() as usize,
                reversed: false,
                group: None,
                ..old(self)@
            }),
            editor_wf(final(self)@),
    {
        let len = self.content_len();
        self.selected = 0..len;
        self.selection_reversed = false;
        self.history_group = None;
    }

    /// The content with the bytes of `range` replaced by `insertion`.
    pub fn spliced(&self, range: &Range<usize>, insertion: &str) -> (text: String)
        requires
            range.start <= range.end <= self@.content.len(),
            is_char_boundary(self@.content, range.start as int),
            is_char_boundary(self@.content, range.end as int),
        ensures
            encode_utf8(text@) == spliced_bytes(
                self@.content,
                range.start as int,
                range.end as int,
                insertion.spec_bytes(),
            ),
    {
        broadcast use vstd::utf8::encode_utf8_valid_utf8;

        let bytes = self.content.as_str().as_bytes();
        let inserted = insertion.as_bytes();
        let mut out: Vec<u8> = Vec::new();
        append_bytes(&mut out, bytes, 0, range.start);
        append_bytes(&mut out, inserted, 0, inserted.len());
        append_bytes(&mut out, bytes, range.end, bytes.len());
        proof {
            let content = self@.content;
            vstd::utf8::valid_utf8_split(content, range.start as int);
            vstd::utf8::valid_utf8_split(content, range.end as int);
            assert(inserted@.subrange(0, inserted@.len() as int) =~= inserted@);
            let head = content.subrange(0, range.start as int);
            let tail = content.subrange(range.end as int, content.len() as int);
            vstd::utf8::valid_utf8_concat(head, inserted@);
            vstd::utf8::valid_utf8_concat(head + inserted@, tail);
            assert(out@ =~= spliced_bytes(content, range.start as int, range.end as int, inserted@));
        }
        match string_from_utf8(out) {
            Some(text) => text,
            None => {
                assert(false);
                String::new()
            },
        }
    }

    /// Replaces the bytes of `range` with `new_text`, normalized for the
    /// field, and records the edit at time `now`. Says whether anything
    /// changed: an empty range with nothing to insert is no edit.
    pub fn apply_edit(&mut self, range: Range<usize>, new_text: &str, kind: EditKind, now: u64) -> (applied: bool)
        requires
            editor_wf(old(self)@),
            range.start <= range.end <= old(self)@.content.len(),
            is_char_boundary(old(self)@.content, range.start as int),
            is_char_boundary(old(self)@.content, range.end as int),
        ensures
            final(self)@ == edited(old(self)@, range.start, range.end, new_text@, kind, now),
            applied == !(range.start == range.end && encode_utf8(
                normalized_text(new_text@, old(self)@.mode.multiline()),
            ).len() == 0),
            editor_wf(final(self)@),
    {
        broadcast use vstd::utf8::encode_utf8_valid_utf8;

        let multiline = self.mode.is_multiline();
        let normalized = normalize_inserted_text(new_text, multiline);
        let inserted = text_len(normalized.as_str());
        if range.start == range.end && inserted == 0 {
            return false;
        }
        let before = self.snapshot();
        let content = self.spliced(&range, normalized.as_str());
        let new_len = text_len(content.as_str());
        assert(new_len == range.start + inserted + (old(self)@.content.len() - range.end));
        let cursor = range.start + inserted;
        self.content = content;
        self.selected = cursor..cursor;
        self.selection_reversed = false;
        self.marked = None;
        self.record_edit(before, kind, now);
        true
    }

    /// The range a deletion removes: the selection, or, with nothing
    /// selected, the bytes between the cursor and `boundary`.
    pub fn deletion_range(&self, boundary: usize) -> (range: Range<usize>)
        ensures
            self@.start == self@.end ==> range.start == (if boundary <= cursor_of(self@) {
                boundary
            } else {
                cursor_of(self@)
            }) && range.end == (if boundary <= cursor_of(self@) {
                cursor_of(self@)
            } else {
                boundary
            }),
            self@.start != self@.end ==> range.start == self@.start && range.end == self@.end,
    {
        if self.selected.start == self.selected.end {
            let cursor = self.cursor();
            if boundary <= cursor {
                boundary..cursor
            } else {
                cursor..boundary
            }
        } else {
            self.selected.start..self.selected.end
        }
    }

    /// Steps back to the last undo step. Says whether there was one.
    pub fn undo(&mut self) -> (stepped: bool)
        requires
            editor_wf(old(self)@),
        ensures
            final(self)@ == undone(old(self)@),
            stepped == (old(self)@.undo.len() > 0),
            editor_wf(final(self)@),
    {
        let ghost history = snaps(self.undo_stack@);
        match self.undo_stack.pop() {
            None => false,
            Some(previous) => {
                assert(snaps(self.undo_stack@) =~= history.drop_last());
                assert(previous@ == history.last());
                let current = self.snapshot();
                let ghost later = snaps(self.redo_stack@);
                let ghost now_view = current@;
                self.redo_stack.push(current);
                assert(snaps(self.redo_stack@) =~= later.push(now_view));
                self.restore(previous);
                self.history_group = None;
                true
            },
        }
    }

    /// Steps forward to the last undone state. Says whether there was one.
    pub fn redo(&mut self) -> (stepped: bool)
        requires
            editor_wf(old(self)@),
        ensures
            final(self)@ == redone(old(self)@),
            stepped == (old(self)@.redo.len() > 0),
            editor_wf(final(self)@),
    {
        let ghost history = snaps(self.redo_stack@);
        match self.redo_stack.pop() {
            None => false,
            Some(next) => {
                assert(snaps(self.redo_stack@) =~= history.drop_last());
                assert(next@ == history.last());
                let current = self.snapshot();
                let ghost earlier = snaps(self.undo_stack@);
                let ghost now_view = current@;
                self.undo_stack.push(current);
                assert(snaps(self.undo_stack@) =~= earlier.push(now_view));
                self.restore(next);
                self.history_group = None;
                true
            },
        }
    }

    /// Selects `range`, forwards, as a double or triple click does.
    pub fn select_range(&mut self, range: Range<usize>)
        requires
            editor_wf(old(self)@),
            range.start <= range.end <= old(self)@.content.len(),
        ensures
            final(self)@ == (EditorView {
                start: range.start,
                end: range.end,
                reversed: false,
                ..old(self)@
            }),
            editor_wf(final(self)@),
    {
        self.selected = range;
        self.selection_reversed = false;
    }

    /// Left arrow: one grapheme back, or to the selection's start.
    pub fn left(&mut self)
        requires
            editor_wf(old(self)@),
        ensures
            final(self)@ == moved(old(self)@, arrow_target(old(self)@, grapheme_before(old(self)@), true)),
            editor_wf(final(self)@),
    {
        broadcast use vstd::utf8::encode_utf8_decode_utf8;

        if self.selected.start == self.selected.end {
            let target = previous_grapheme_boundary(self.content.as_str(), self.cursor());
            self.move_to(target);
        } else {
            let start = self.selected.start;
            self.move_to(start);
        }
    }

    /// Right arrow: one grapheme forward, or to the selection's end.
    pub fn right(&mut self)
        requires
            editor_wf(old(self)@),
        ensures
            final(self)@ == moved(old(self)@, arrow_target(old(self)@, grapheme_after(old(self)@), false)),
            editor_wf(final(self)@),
    {
        broadcast use vstd::utf8::encode_utf8_decode_utf8;

        if self.selected.start == self.selected.end {
            let target = next_grapheme_boundary(self.content.as_str(), self.cursor());
            self.move_to(target);
        } else {
            let end = self.selected.end;
            self.move_to(end);
        }
    }

    /// Word left: to the previous word start, or to the selection's start.
    pub fn word_left(&mut self)
        requires
            editor_wf(old(self)@),
        ensures
            final(self)@ == moved(old(self)@, arrow_target(old(self)@, word_before(old(self)@), true)),
            editor_wf(final(self)@),
    {
        broadcast use vstd::utf8::encode_utf8_decode_utf8;

        if self.selected.start == self.selected.end {
            let target = previous_word_boundary(self.content.as_str(), self.cursor());
            self.move_to(target);
        } else {
            let start = self.selected.start;
            self.move_to(start);
        }
    }

    /// Word right: to the next word end, or to the selection's end.
    pub fn word_right(&mut self)
        requires
            editor_wf(old(self)@),
        ensures
            final(self)@ == moved(old(self)@, arrow_target(old(self)@, word_after(old(self)@), false)),
            editor_wf(final(self)@),
    {
        broadcast use vstd::utf8::encode_utf8_decode_utf8;

        if self.selected.start == self.selected.end {
            let target = next_word_boundary(self.content.as_str(), self.cursor());
            self.move_to(target);
        } else {
            let end = self.selected.end;
            self.move_to(end);
        }
    }

    /// Extends the selection one grapheme back.
    pub fn select_left(&mut self)
        requires
            editor_wf(old(self)@),
        ensures
            final(self)@ == selected_to(old(self)@, grapheme_before(old(self)@) as usize),
            editor_wf(final(self)@),
    {
        broadcast use vstd::utf8::encode_utf8_decode_utf8;

        let target = previous_grapheme_boundary(self.content.as_str(), self.cursor());
        self.select_to(target);
    }

    /// Extends the selection one grapheme forward.
    pub fn select_right(&mut self)
        requires
            editor_wf(old(self)@),
        ensures
            final(self)@ == selected_to(old(self)@, grapheme_after(old(self)@) as usize),
            editor_wf(final(self)@),
    {
        broadcast use vstd::utf8::encode_utf8_decode_utf8;

        let target = next_grapheme_boundary(self.content.as_str(), self.cursor());
        self.select_to(target);
    }

    /// Extends the selection to the previous word start.
    pub fn select_word_left(&mut self)
        requires
            editor_wf(old(self)@),
        ensures
            final(self)@ == selected_to(old(self)@, word_before(old(self)@) as usize),
            editor_wf(final(self)@),
    {
        broadcast use vstd::utf8::encode_utf8_decode_utf8;

        let target = previous_word_boundary(self.content.as_str(), self.cursor());
        self.select_to(target);
    }

    /// Extends the selection to the next word end.
    pub fn select_word_right(&mut self)
        requires
            editor_wf(old(self)@),
        ensures
            final(self)@ == selected_to(old(self)@, word_after(old(self)@) as usize),
            editor_wf(final(self)@),
    {
        broadcast use vstd::utf8::encode_utf8_decode_utf8;

        let target = next_word_boundary(self.content.as_str(), self.cursor());
        self.select_to(target);
    }
}

/// Undoing an edit that opened a new undo step gives back the content and
/// the selection the field had before the edit, and keeps the edited state
/// for redo.
pub proof fn lemma_undo_reverts_edit(
    v: EditorView,
    start: usize,
    end: usize,
    text: Seq<char>,
    kind: EditKind,
    now: u64,
)
    requires
        editor_wf(v),
        !(start == end && encode_utf8(normalized_text(text, v.mode.multiline())).len() == 0),
        !coalesces(v, kind, now),
    ensures
        snap_of(undone(edited(v, start, end, text, kind, now))) == snap_of(v),
        undone(edited(v, start, end, text, kind, now)).redo == seq![
            snap_of(edited(v, start, end, text, kind, now)),
        ],
{
    let after = edited(v, start, end, text, kind, now);
    assert(after.undo.last() == snap_of(v));
    assert(undone(after).redo =~= seq![snap_of(after)]);
}

/// Redoing right after an undo returns the field to the state it was
/// undone from, with the same history.
pub proof fn lemma_redo_reverts_undo(v: EditorView)
    requires
        editor_wf(v),
        v.undo.len() > 0,
    ensures
        snap_of(redone(undone(v))) == snap_of(v),
        redone(undone(v)).undo == v.undo,
        redone(undone(v)).redo == v.redo,
        redone(undone(v)).mode == v.mode,
{
    let back = undone(v);
    assert(snap_of(back) == v.undo.last());
    assert(back.undo.push(snap_of(back)) =~= v.undo);
    assert(back.redo.drop_last() =~= v.redo);
}

} // verus!
