use codex_image::editor::{EditKind, EditorState, TextInputMode, MAX_UNDO_STATES};

const SECOND: u64 = 1_000_000_000;

fn editor(text: &str) -> EditorState {
    let mut editor = EditorState::new(TextInputMode::AutoGrow { max_lines: 4 });
    editor.set_content(text.to_string());
    editor
}

#[test]
fn edits_replace_the_range_and_leave_the_cursor_after_the_insertion() {
    let mut editor = editor("hello world");
    assert_eq!(editor.cursor(), 11);
    assert!(editor.apply_edit(6..11, "there", EditKind::Replace, 0));
    assert_eq!(editor.content(), "hello there");
    assert_eq!(editor.selected, 11..11);
    assert!(!editor.apply_edit(3..3, "", EditKind::Typing, SECOND));
    assert_eq!(editor.undo_stack.len(), 1);
    assert!(editor.apply_edit(0..0, "a\r\nb", EditKind::Replace, SECOND));
    assert_eq!(editor.content(), "a\nbhello there");
    let mut single = EditorState::new(TextInputMode::SingleLine);
    assert!(single.apply_edit(0..0, "one\ntwo", EditKind::Replace, 0));
    assert_eq!(single.content(), "one two");
    assert_eq!(single.spliced(&(1..3), "é"), "oé two");
}

#[test]
fn undo_restores_the_text_before_an_edit_and_redo_brings_it_back() {
    let mut editor = editor("draft");
    editor.select_to(0);
    assert_eq!(editor.selected, 0..5);
    assert!(editor.selection_reversed);
    assert!(editor.apply_edit(0..5, "final", EditKind::Replace, 0));
    assert!(editor.undo());
    assert_eq!(editor.content(), "draft");
    assert_eq!(editor.selected, 0..5);
    assert!(editor.selection_reversed);
    assert!(editor.redo());
    assert_eq!(editor.content(), "final");
    assert_eq!(editor.selected, 5..5);
    assert!(!editor.redo());
    assert!(editor.undo());
    assert!(!editor.undo());
}

#[test]
fn typing_in_quick_succession_is_one_undo_step() {
    let mut editor = editor("");
    assert!(editor.apply_edit(0..0, "a", EditKind::Typing, 0));
    assert!(editor.apply_edit(1..1, "b", EditKind::Typing, SECOND / 2));
    assert!(editor.apply_edit(2..2, "c", EditKind::Typing, SECOND));
    assert_eq!(editor.undo_stack.len(), 1);
    assert!(editor.apply_edit(3..3, "d", EditKind::Typing, 3 * SECOND));
    assert_eq!(editor.undo_stack.len(), 2);
    assert!(editor.apply_edit(3..4, "", EditKind::DeleteBackward, 3 * SECOND));
    assert_eq!(editor.undo_stack.len(), 3);
    editor.break_history_group();
    assert!(editor.apply_edit(2..3, "", EditKind::DeleteBackward, 3 * SECOND));
    assert_eq!(editor.undo_stack.len(), 4);
    assert!(editor.undo());
    assert_eq!(editor.content(), "abc");
    assert!(editor.undo());
    assert!(editor.undo());
    assert_eq!(editor.content(), "abc");
    assert!(editor.undo());
    assert_eq!(editor.content(), "");
}

#[test]
fn the_history_keeps_at_most_the_newest_states() {
    let mut editor = editor("");
    for step in 0..(MAX_UNDO_STATES + 20) {
        let at = editor.cursor();
        assert!(editor.apply_edit(at..at, "x", EditKind::Replace, step as u64));
    }
    assert_eq!(editor.undo_stack.len(), MAX_UNDO_STATES);
    let mut steps = 0;
    while editor.undo() {
        steps += 1;
    }
    assert_eq!(steps, MAX_UNDO_STATES);
    assert_eq!(editor.content().len(), 20);
}

#[test]
fn arrows_move_by_grapheme_and_collapse_selections() {
    let mut editor = editor("ab 👩🏽‍🎨 cd");
    let len = editor.content().len();
    editor.left();
    assert_eq!(editor.cursor(), len - 1);
    editor.word_left();
    assert_eq!(editor.cursor(), len - 2);
    editor.word_left();
    assert_eq!(editor.cursor(), 3);
    editor.select_right();
    assert_eq!(editor.selected, 3..len - 3);
    editor.left();
    assert_eq!(editor.selected, 3..3);
    editor.select_word_left();
    assert_eq!(editor.selected, 0..3);
    assert!(editor.selection_reversed);
    editor.right();
    assert_eq!(editor.selected, 3..3);
    editor.word_right();
    assert_eq!(editor.cursor(), len - 3);
    editor.select_all();
    assert_eq!(editor.selected, 0..len);
    assert_eq!(editor.deletion_range(0), 0..len);
    editor.move_to(2);
    assert_eq!(editor.deletion_range(0), 0..2);
    assert_eq!(editor.deletion_range(3), 2..3);
    editor.move_to(len + 10);
    assert_eq!(editor.cursor(), len);
}

#[test]
fn modes_decide_the_visible_lines() {
    assert_eq!(TextInputMode::SingleLine.viewport_lines(9), 1);
    assert_eq!(TextInputMode::AutoGrow { max_lines: 4 }.viewport_lines(9), 4);
    assert_eq!(TextInputMode::AutoGrow { max_lines: 4 }.viewport_lines(0), 1);
    assert_eq!(TextInputMode::AutoGrow { max_lines: 0 }.viewport_lines(3), 1);
    assert_eq!(TextInputMode::FixedMultiline { lines: 0 }.viewport_lines(3), 1);
    assert_eq!(TextInputMode::FixedMultiline { lines: 5 }.viewport_lines(3), 5);
    assert!(!TextInputMode::SingleLine.is_multiline());
    assert!(!TextInputMode::FixedMultiline { lines: 2 }.centers_single_line());
}

#[test]
fn clicks_and_mode_changes_set_the_selection_and_layout() {
    let mut editor = editor("one two three");
    editor.select_range(4..7);
    assert_eq!(editor.selected, 4..7);
    assert!(!editor.selection_reversed);
    editor.select_word_right();
    assert_eq!(editor.selected, 4..13);
    editor.move_to(7);
    editor.select_left();
    assert_eq!(editor.selected, 6..7);
    assert!(editor.selection_reversed);
    assert!(editor.set_mode(TextInputMode::SingleLine));
    assert!(!editor.set_mode(TextInputMode::SingleLine));
    editor.clear();
    assert_eq!(editor.content(), "");
    assert_eq!(editor.selected, 0..0);
}
