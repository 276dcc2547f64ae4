use codex_image::format::single_line_excerpt;
use codex_image::text::{
    line_range_at, logical_line_edge, next_grapheme_boundary, next_word_boundary,
    normalize_inserted_text, offset_from_utf16_in, offset_to_utf16_in, previous_grapheme_boundary,
    previous_word_boundary, word_range_at,
};
use codex_image::wrap::{collapse_prompt_lines, split_paragraphs, split_words, wrap_prompt};
use unicode_segmentation::UnicodeSegmentation;

#[test]
fn navigation_respects_graphemes_words_and_lines() {
    let text = "Hello, tall 👩🏽‍🎨 world\nsecond line";
    let emoji = text.find('👩').expect("emoji");
    assert_eq!(
        next_grapheme_boundary(text, emoji),
        text.find(" world").unwrap()
    );
    assert_eq!(
        previous_grapheme_boundary(text, text.find(" world").unwrap()),
        emoji
    );
    assert_eq!(
        previous_word_boundary(text, text.find("world").unwrap()),
        emoji
    );
    assert_eq!(
        next_word_boundary(text, text.find("world").unwrap()),
        text.find('\n').unwrap()
    );
    assert_eq!(word_range_at(text, 1), 0..5);
    assert_eq!(line_range_at(text, 2), 0..text.find('\n').unwrap() + 1);
    assert_eq!(
        logical_line_edge(text, text.len(), false),
        text.find('\n').unwrap() + 1
    );
}

#[test]
fn single_line_paste_is_sanitized_without_breaking_multiline_text() {
    assert_eq!(
        normalize_inserted_text("one\r\ntwo\rthree", false),
        "one two three"
    );
    assert_eq!(
        normalize_inserted_text("one\r\ntwo\rthree", true),
        "one\ntwo\nthree"
    );
}

#[test]
fn utf16_conversion_handles_non_bmp_input() {
    let text = "a👩🏽‍🎨b";
    for offset in text
        .char_indices()
        .map(|(offset, _)| offset)
        .chain([text.len()])
    {
        let utf16 = offset_to_utf16_in(text, offset);
        assert_eq!(offset_from_utf16_in(text, utf16), offset);
    }
}

#[test]
fn utf16_offsets_count_surrogate_pairs() {
    let text = "a😀b";
    assert_eq!(offset_to_utf16_in(text, 1), 1);
    assert_eq!(offset_to_utf16_in(text, 5), 3);
    assert_eq!(offset_from_utf16_in(text, 3), 5);
    assert_eq!(offset_to_utf16_in(text, text.len()), 4);
}

#[test]
fn grapheme_boundaries_at_the_edges() {
    let text = "ab";
    assert_eq!(previous_grapheme_boundary(text, 0), 0);
    assert_eq!(next_grapheme_boundary(text, 2), 2);
    assert_eq!(next_grapheme_boundary("", 0), 0);
}

#[test]
fn line_ranges_cover_the_last_line() {
    let text = "first\nsecond";
    assert_eq!(line_range_at(text, 8), 6..text.len());
    assert_eq!(logical_line_edge(text, 8, true), text.len());
    assert_eq!(logical_line_edge(text, 3, true), 5);
}

#[test]
fn prompt_wrap_is_deterministic_and_grapheme_safe() {
    let prompt = "alpha beta supercalifragilistic 🌍🌎🌏🌐";
    let lines = wrap_prompt(prompt, 8);
    assert!(lines.iter().all(|line| line.graphemes(true).count() <= 8));
    let source = prompt
        .chars()
        .filter(|character| !character.is_whitespace());
    let wrapped = lines
        .iter()
        .flat_map(|line| line.chars())
        .filter(|character| !character.is_whitespace());
    assert_eq!(source.collect::<String>(), wrapped.collect::<String>());
}

#[test]
fn prompt_wrap_preserves_explicit_blank_lines() {
    assert_eq!(
        wrap_prompt("one two\n\nthree", 6),
        vec!["one", "two", "", "three"]
    );
}

#[test]
fn prompt_wrap_breaks_long_words_between_clusters() {
    assert_eq!(
        wrap_prompt("abcdefghij", 4),
        vec!["abcd", "efgh", "ij"]
    );
    assert_eq!(wrap_prompt("", 5), vec![""]);
    assert_eq!(wrap_prompt("   ", 5), vec![""]);
    assert_eq!(wrap_prompt("a b c", 3), vec!["a b", "c"]);
}

#[test]
fn paragraphs_and_words_split_like_std() {
    assert_eq!(split_paragraphs("a\n\nb"), vec!["a", "", "b"]);
    assert_eq!(split_paragraphs(""), vec![""]);
    assert_eq!(split_words("  one\ttwo  three "), vec!["one", "two", "three"]);
}

#[test]
fn single_line_excerpt_removes_line_breaks_and_limits_characters() {
    assert_eq!(single_line_excerpt("one\ntwo\rthree", 9), "one two t");
}

#[test]
fn collapsed_prompts_mark_the_cut_with_an_ellipsis() {
    let lines: Vec<String> = (1..=8).map(|n| format!("line {n}")).collect();
    let collapsed = collapse_prompt_lines(&lines);
    assert_eq!(collapsed.len(), 6);
    assert_eq!(collapsed[4], "line 5");
    assert_eq!(collapsed[5], "line 6…");
    let exact: Vec<String> = lines[..6].to_vec();
    assert_eq!(collapse_prompt_lines(&exact), exact);
    assert!(collapse_prompt_lines(&Vec::new()).is_empty());
}

#[test]
fn wrapped_prompt_lines_never_hold_a_newline() {
    let lines = wrap_prompt("first line\r\n\n  second\tline with words\n\u{2028}end", 6);
    assert!(!lines.is_empty());
    for line in &lines {
        assert!(!line.contains('\n'), "line {line:?} holds a newline");
    }
    assert_eq!(lines, vec!["first", "line", "", "second", "line", "with", "words", "end"]);
}

#[test]
fn normalized_paste_is_settled() {
    for multiline in [false, true] {
        let once = normalize_inserted_text("a\r\n\rb\n\n c\r", multiline);
        assert!(!once.contains('\r'));
        assert_eq!(once.contains('\n'), multiline);
        assert_eq!(normalize_inserted_text(&once, multiline), once);
    }
}
