//! Prompt wrapping for cards: the prompt is split into paragraphs at
//! newlines and into words at whitespace; lines are filled with whole words
//! separated by single spaces, and a word longer than a line is broken
//! between its grapheme clusters.
//!
//! A line is modelled as its cells: the grapheme clusters it holds and the
//! single spaces placed between words. Its text is the concatenation of its
//! cells.

use vstd::prelude::*;

use crate::strings::{chars_of, concat, is_whitespace, is_whitespace_char, lemma_concat_push, push_char, push_str, push_string};
use crate::text::{all_whitespace, grapheme_clusters, graphemes_of, is_segmentation};

verus! {

/// `str::split('\n')`: the pieces of `text` between newlines.
pub open spec fn paragraphs_of(text: Seq<char>) -> Seq<Seq<char>>
    decreases text.len(),
{
    if text.len() == 0 {
        seq![Seq::empty()]
    } else {
        let before = paragraphs_of(text.drop_last());
        if text.last() == '\n' {
            before.push(Seq::empty())
        } else {
            before.drop_last().push(before.last().push(text.last()))
        }
    }
}

/// `str::split_whitespace`: the maximal runs of non-whitespace characters of
/// `text`, in order.
pub open spec fn words_of(text: Seq<char>) -> Seq<Seq<char>>
    decreases text.len(),
{
    if text.len() == 0 {
        Seq::empty()
    } else {
        let before = words_of(text.drop_last());
        let c = text.last();
        if is_whitespace_char(c) {
            before
        } else if text.len() >= 2 && !is_whitespace_char(text[text.len() - 2]) {
            before.drop_last().push(before.last().push(c))
        } else {
            before.push(seq![c])
        }
    }
}

/// The characters of `text` that are not whitespace, in order.
pub open spec fn visible(text: Seq<char>) -> Seq<char>
    decreases text.len(),
{
    if text.len() == 0 {
        Seq::empty()
    } else if is_whitespace_char(text.last()) {
        visible(text.drop_last())
    } else {
        visible(text.drop_last()).push(text.last())
    }
}

/// The text of lines given as cells, without anything between them.
pub open spec fn flat(lines: Seq<Seq<Seq<char>>>) -> Seq<char>
    decreases lines.len(),
{
    if lines.len() == 0 {
        Seq::empty()
    } else {
        flat(lines.drop_last()) + concat(lines.last())
    }
}

/// The text of each line.
pub open spec fn texts(lines: Seq<Seq<Seq<char>>>) -> Seq<Seq<char>> {
    lines.map_values(|line: Seq<Seq<char>>| concat(line))
}

/// The finished lines and the cells of the line being filled.
pub open spec fn fill_text(state: (Seq<Seq<Seq<char>>>, Seq<Seq<char>>)) -> Seq<char> {
    flat(state.0) + concat(state.1)
}

/// Adds one cluster of an over-long word; a line that reaches the width is
/// finished.
pub open spec fn add_cluster(
    state: (Seq<Seq<Seq<char>>>, Seq<Seq<char>>),
    cluster: Seq<char>,
    width: nat,
) -> (Seq<Seq<Seq<char>>>, Seq<Seq<char>>) {
    let grown = state.1.push(cluster);
    if grown.len() == width {
        (state.0.push(grown), Seq::empty())
    } else {
        (state.0, grown)
    }
}

/// Adds the clusters of an over-long word one at a time.
pub open spec fn add_clusters(
    state: (Seq<Seq<Seq<char>>>, Seq<Seq<char>>),
    clusters: Seq<Seq<char>>,
    width: nat,
) -> (Seq<Seq<Seq<char>>>, Seq<Seq<char>>)
    decreases clusters.len(),
{
    if clusters.len() == 0 {
        state
    } else {
        add_cluster(add_clusters(state, clusters.drop_last(), width), clusters.last(), width)
    }
}

/// Places one word, given as its clusters: on the current line after a
/// space when it fits, at the start of a new line when it fits a line, and
/// broken across lines otherwise.
pub open spec fn place_word(
    state: (Seq<Seq<Seq<char>>>, Seq<Seq<char>>),
    clusters: Seq<Seq<char>>,
    width: nat,
) -> (Seq<Seq<Seq<char>>>, Seq<Seq<char>>) {
    let lines = state.0;
    let current = state.1;
    if clusters.len() <= width {
        if current.len() == 0 {
            (lines, clusters)
        } else if current.len() + 1 + clusters.len() <= width {
            (lines, current.push(seq![' ']) + clusters)
        } else {
            (lines.push(current), clusters)
        }
    } else if current.len() == 0 {
        add_clusters((lines, current), clusters, width)
    } else {
        add_clusters((lines.push(current), Seq::empty()), clusters, width)
    }
}

/// Places the words in order.
pub open spec fn place_words(
    state: (Seq<Seq<Seq<char>>>, Seq<Seq<char>>),
    words: Seq<Seq<Seq<char>>>,
    width: nat,
) -> (Seq<Seq<Seq<char>>>, Seq<Seq<char>>)
    decreases words.len(),
{
    if words.len() == 0 {
        state
    } else {
        place_word(place_words(state, words.drop_last(), width), words.last(), width)
    }
}

/// The lines of one paragraph, given its words as clusters and whether it is
/// blank (all whitespace): a blank paragraph keeps one empty line.
pub open spec fn paragraph_cells(words: Seq<Seq<Seq<char>>>, blank: bool, width: nat) -> Seq<
    Seq<Seq<char>>,
> {
    let placed = place_words((Seq::empty(), Seq::empty()), words, width);
    if placed.1.len() > 0 {
        placed.0.push(placed.1)
    } else if blank {
        placed.0.push(Seq::empty())
    } else {
        placed.0
    }
}

/// Each word as its grapheme clusters.
pub open spec fn clustered(words: Seq<Seq<char>>) -> Seq<Seq<Seq<char>>> {
    words.map_values(|word: Seq<char>| grapheme_clusters(word))
}

/// The lines of the paragraphs, in order.
pub open spec fn paragraphs_cells(paragraphs: Seq<Seq<char>>, width: nat) -> Seq<Seq<Seq<char>>>
    decreases paragraphs.len(),
{
    if paragraphs.len() == 0 {
        Seq::empty()
    } else {
        let last = paragraphs.last();
        paragraphs_cells(paragraphs.drop_last(), width) + paragraph_cells(
            clustered(words_of(last)),
            all_whitespace(last),
            width,
        )
    }
}

/// The wrapped lines of a prompt as cells; never empty.
pub open spec fn prompt_cells(value: Seq<char>, width: nat) -> Seq<Seq<Seq<char>>> {
    let cells = paragraphs_cells(paragraphs_of(value), width);
    if cells.len() == 0 {
        seq![Seq::empty()]
    } else {
        cells
    }
}

/// The wrapped lines of a prompt.
pub open spec fn wrap_spec(value: Seq<char>, width: nat) -> Seq<Seq<char>> {
    texts(prompt_cells(value, width))
}

// ---------------------------------------------------------------------------
// Facts about the text model.

pub proof fn lemma_concat_append(a: Seq<Seq<char>>, b: Seq<Seq<char>>)
    ensures
        concat(a + b) == concat(a) + concat(b),
    decreases b.len(),
{
    if b.len() == 0 {
        assert(a + b =~= a);
        assert(concat(a) + concat(b) =~= concat(a));
    } else {
        assert((a + b).drop_last() =~= a + b.drop_last());
        lemma_concat_append(a, b.drop_last());
        assert(concat(a) + concat(b.drop_last()) + b.last() =~= concat(a) + (concat(
            b.drop_last(),
        ) + b.last()));
    }
}

pub proof fn lemma_visible_append(a: Seq<char>, b: Seq<char>)
    ensures
        visible(a + b) == visible(a) + visible(b),
    decreases b.len(),
{
    if b.len() == 0 {
        assert(a + b =~= a);
        assert(visible(a) + visible(b) =~= visible(a));
    } else {
        assert((a + b).drop_last() =~= a + b.drop_last());
        lemma_visible_append(a, b.drop_last());
        if !is_whitespace_char(b.last()) {
            assert(visible(a) + visible(b.drop_last()).push(b.last()) =~= (visible(a) + visible(
                b.drop_last(),
            )).push(b.last()));
        }
    }
}

pub proof fn lemma_visible_idempotent(text: Seq<char>)
    ensures
        visible(visible(text)) == visible(text),
    decreases text.len(),
{
    if text.len() > 0 {
        lemma_visible_idempotent(text.drop_last());
        if !is_whitespace_char(text.last()) {
            let v = visible(text.drop_last()).push(text.last());
            assert(v.drop_last() =~= visible(text.drop_last()));
        }
    }
}

proof fn lemma_visible_space()
    ensures
        visible(seq![' ']) == Seq::<char>::empty(),
{
    let space = seq![' '];
    assert(space.drop_last() =~= Seq::<char>::empty());
    assert(space.last() == ' ');
    assert(is_whitespace_char(' '));
    assert(visible(Seq::<char>::empty()) == Seq::<char>::empty());
    assert(visible(space) == visible(space.drop_last()));
}

proof fn lemma_flat_append(a: Seq<Seq<Seq<char>>>, b: Seq<Seq<Seq<char>>>)
    ensures
        flat(a + b) == flat(a) + flat(b),
    decreases b.len(),
{
    if b.len() == 0 {
        assert(a + b =~= a);
        assert(flat(a) + flat(b) =~= flat(a));
    } else {
        assert((a + b).drop_last() =~= a + b.drop_last());
        lemma_flat_append(a, b.drop_last());
        assert(flat(a) + flat(b.drop_last()) + concat(b.last()) =~= flat(a) + (flat(
            b.drop_last(),
        ) + concat(b.last())));
    }
}

proof fn lemma_flat_push(lines: Seq<Seq<Seq<char>>>, line: Seq<Seq<char>>)
    ensures
        flat(lines.push(line)) == flat(lines) + concat(line),
{
    assert(lines.push(line).drop_last() =~= lines);
}

proof fn lemma_texts_concat(lines: Seq<Seq<Seq<char>>>)
    ensures
        concat(texts(lines)) == flat(lines),
    decreases lines.len(),
{
    if lines.len() > 0 {
        assert(texts(lines).drop_last() =~= texts(lines.drop_last()));
        lemma_texts_concat(lines.drop_last());
    }
}

proof fn lemma_texts_append(a: Seq<Seq<Seq<char>>>, b: Seq<Seq<Seq<char>>>)
    ensures
        texts(a + b) == texts(a) + texts(b),
{
    assert(texts(a + b) =~= texts(a) + texts(b));
}

proof fn lemma_texts_push(a: Seq<Seq<Seq<char>>>, line: Seq<Seq<char>>)
    ensures
        texts(a.push(line)) == texts(a).push(concat(line)),
{
    assert(texts(a.push(line)) =~= texts(a).push(concat(line)));
}

proof fn lemma_paragraphs_nonempty(text: Seq<char>)
    ensures
        paragraphs_of(text).len() > 0,
    decreases text.len(),
{
    if text.len() > 0 {
        lemma_paragraphs_nonempty(text.drop_last());
    }
}

/// Splitting at newlines loses no visible character.
proof fn lemma_paragraphs_visible(text: Seq<char>)
    ensures
        visible(concat(paragraphs_of(text))) == visible(text),
    decreases text.len(),
{
    if text.len() > 0 {
        let rest = text.drop_last();
        let before = paragraphs_of(rest);
        lemma_paragraphs_visible(rest);
        lemma_paragraphs_nonempty(rest);
        if text.last() == '\n' {
            assert(is_whitespace_char('\n'));
            assert(visible(text) == visible(rest));
            lemma_concat_push(before, Seq::empty());
            assert(concat(before) + Seq::<char>::empty() =~= concat(before));
        } else {
            let last = before.last().push(text.last());
            lemma_concat_push(before.drop_last(), last);
            lemma_concat_push(before.drop_last(), before.last());
            assert(before.drop_last().push(before.last()) =~= before);
            assert(concat(before.drop_last()) + last =~= concat(before).push(text.last()));
            let joined = concat(before).push(text.last());
            assert(joined.drop_last() =~= concat(before));
            assert(joined.last() == text.last());
            assert(paragraphs_of(text) == before.drop_last().push(last));
            assert(concat(paragraphs_of(text)) == joined);
            if is_whitespace_char(text.last()) {
                assert(visible(joined) == visible(concat(before)));
                assert(visible(text) == visible(rest));
            } else {
                assert(visible(joined) == visible(concat(before)).push(text.last()));
                assert(visible(text) == visible(rest).push(text.last()));
            }
        }
    } else {
        lemma_concat_push(Seq::empty(), Seq::empty());
        assert(seq![Seq::<char>::empty()] =~= Seq::<Seq<char>>::empty().push(Seq::empty()));
        assert(concat(Seq::<Seq<char>>::empty()) + Seq::<char>::empty() =~= Seq::<char>::empty());
    }
}

proof fn lemma_words_nonempty(text: Seq<char>)
    requires
        text.len() > 0,
        !is_whitespace_char(text.last()),
    ensures
        words_of(text).len() > 0,
    decreases text.len(),
{
    if text.len() >= 2 && !is_whitespace_char(text[text.len() - 2]) {
        lemma_words_nonempty(text.drop_last());
    }
}

/// The words hold exactly the visible characters.
proof fn lemma_words_visible(text: Seq<char>)
    ensures
        concat(words_of(text)) == visible(text),
    decreases text.len(),
{
    if text.len() > 0 {
        let rest = text.drop_last();
        let before = words_of(rest);
        let c = text.last();
        lemma_words_visible(rest);
        if is_whitespace_char(c) {
        } else if text.len() >= 2 && !is_whitespace_char(text[text.len() - 2]) {
            assert(rest.last() == text[text.len() - 2]);
            lemma_words_nonempty(rest);
            lemma_concat_push(before.drop_last(), before.last().push(c));
            lemma_concat_push(before.drop_last(), before.last());
            assert(before.drop_last().push(before.last()) =~= before);
            assert(concat(before.drop_last()) + before.last().push(c) =~= concat(before).push(c));
        } else {
            lemma_concat_push(before, seq![c]);
            assert(concat(before) + seq![c] =~= concat(before).push(c));
        }
    }
}

/// Words whose clusters spell them out hold the words' text.
proof fn lemma_flat_words(clusters: Seq<Seq<Seq<char>>>, words: Seq<Seq<char>>)
    requires
        clusters.len() == words.len(),
        forall|i: int| 0 <= i < words.len() ==> concat(#[trigger] clusters[i]) == words[i],
    ensures
        flat(clusters) == concat(words),
    decreases words.len(),
{
    if words.len() > 0 {
        lemma_flat_words(clusters.drop_last(), words.drop_last());
    }
}

// ---------------------------------------------------------------------------
// Laws of wrapping.

/// The lines placed so far are no wider than `width` cells and the line
/// being filled is no wider either.
pub open spec fn fits(state: (Seq<Seq<Seq<char>>>, Seq<Seq<char>>), width: nat) -> bool {
    &&& forall|i: int| 0 <= i < state.0.len() ==> (#[trigger] state.0[i]).len() <= width
    &&& state.1.len() <= width
}

proof fn lemma_add_clusters(
    state: (Seq<Seq<Seq<char>>>, Seq<Seq<char>>),
    clusters: Seq<Seq<char>>,
    width: nat,
)
    requires
        fits(state, width),
        state.1.len() < width,
    ensures
        fits(add_clusters(state, clusters, width), width),
        add_clusters(state, clusters, width).1.len() < width,
        fill_text(add_clusters(state, clusters, width)) == fill_text(state) + concat(clusters),
    decreases clusters.len(),
{
    if clusters.len() == 0 {
        assert(fill_text(state) + concat(clusters) =~= fill_text(state));
    } else {
        let before = add_clusters(state, clusters.drop_last(), width);
        lemma_add_clusters(state, clusters.drop_last(), width);
        let g = clusters.last();
        let grown = before.1.push(g);
        lemma_concat_push(before.1, g);
        lemma_concat_push(clusters.drop_last(), g);
        assert(clusters.drop_last().push(g) =~= clusters);
        if grown.len() == width {
            lemma_flat_push(before.0, grown);
            assert(concat(Seq::<Seq<char>>::empty()) =~= Seq::<char>::empty());
            assert(flat(before.0) + concat(grown) + Seq::<char>::empty() =~= flat(before.0) + (
            concat(before.1) + g));
        }
        assert(fill_text(state) + concat(clusters.drop_last()) + g =~= fill_text(state) + (concat(
            clusters.drop_last(),
        ) + g));
        assert(flat(before.0) + (concat(before.1) + g) =~= flat(before.0) + concat(before.1) + g);
    }
}

proof fn lemma_place_word(
    state: (Seq<Seq<Seq<char>>>, Seq<Seq<char>>),
    clusters: Seq<Seq<char>>,
    width: nat,
)
    requires
        width > 0,
        fits(state, width),
    ensures
        fits(place_word(state, clusters, width), width),
        visible(fill_text(place_word(state, clusters, width))) == visible(fill_text(state))
            + visible(concat(clusters)),
{
    let lines = state.0;
    let current = state.1;
    let next = place_word(state, clusters, width);
    lemma_visible_append(fill_text(state), concat(clusters));
    if clusters.len() <= width {
        if current.len() == 0 {
            assert(concat(current) =~= Seq::<char>::empty());
            assert(fill_text(next) =~= fill_text(state) + concat(clusters));
        } else if current.len() + 1 + clusters.len() <= width {
            lemma_concat_push(current, seq![' ']);
            lemma_concat_append(current.push(seq![' ']), clusters);
            let spaced = fill_text(state) + seq![' '];
            assert(fill_text(next) =~= spaced + concat(clusters));
            lemma_visible_append(spaced, concat(clusters));
            lemma_visible_append(fill_text(state), seq![' ']);
            lemma_visible_space();
            assert(visible(fill_text(state)) + visible(seq![' ']) =~= visible(fill_text(state)));
        } else {
            lemma_flat_push(lines, current);
            assert(fill_text(next) =~= fill_text(state) + concat(clusters));
        }
    } else if current.len() == 0 {
        lemma_add_clusters((lines, current), clusters, width);
    } else {
        lemma_flat_push(lines, current);
        assert(concat(Seq::<Seq<char>>::empty()) =~= Seq::<char>::empty());
        assert(fill_text((lines.push(current), Seq::empty())) =~= fill_text(state));
        lemma_add_clusters((lines.push(current), Seq::empty()), clusters, width);
    }
}

proof fn lemma_place_words(words: Seq<Seq<Seq<char>>>, width: nat)
    requires
        width > 0,
    ensures
        fits(place_words((Seq::empty(), Seq::empty()), words, width), width),
        visible(fill_text(place_words((Seq::empty(), Seq::empty()), words, width))) == visible(
            flat(words),
        ),
    decreases words.len(),
{
    let empty: (Seq<Seq<Seq<char>>>, Seq<Seq<char>>) = (Seq::empty(), Seq::empty());
    if words.len() == 0 {
        assert(fill_text(empty) =~= Seq::<char>::empty());
    } else {
        lemma_place_words(words.drop_last(), width);
        let before = place_words(empty, words.drop_last(), width);
        lemma_place_word(before, words.last(), width);
        lemma_visible_append(flat(words.drop_last()), concat(words.last()));
    }
}

/// Every line of a wrapped paragraph holds at most `width` cells, and the
/// lines hold the visible characters of its words, in order.
pub proof fn lemma_paragraph_cells(words: Seq<Seq<Seq<char>>>, blank: bool, width: nat)
    requires
        width > 0,
    ensures
        forall|i: int|
            0 <= i < paragraph_cells(words, blank, width).len() ==> (#[trigger] paragraph_cells(
                words,
                blank,
                width,
            )[i]).len() <= width,
        visible(flat(paragraph_cells(words, blank, width))) == visible(flat(words)),
{
    let placed = place_words((Seq::empty(), Seq::empty()), words, width);
    lemma_place_words(words, width);
    if placed.1.len() > 0 {
        lemma_flat_push(placed.0, placed.1);
    } else {
        assert(concat(placed.1) =~= Seq::<char>::empty());
        assert(fill_text(placed) =~= flat(placed.0));
        if blank {
            lemma_flat_push(placed.0, Seq::empty());
            assert(concat(Seq::<Seq<char>>::empty()) =~= Seq::<char>::empty());
            assert(flat(placed.0) + Seq::<char>::empty() =~= flat(placed.0));
        }
    }
}

/// Every line of a wrapped prompt holds at most `width` cells.
pub proof fn lemma_prompt_lines_fit(value: Seq<char>, width: nat)
    requires
        width > 0,
    ensures
        forall|i: int|
            0 <= i < prompt_cells(value, width).len() ==> (#[trigger] prompt_cells(value, width)[i]).len()
                <= width,
{
    lemma_paragraphs_fit(paragraphs_of(value), width);
}

proof fn lemma_paragraphs_fit(paragraphs: Seq<Seq<char>>, width: nat)
    requires
        width > 0,
    ensures
        forall|i: int|
            0 <= i < paragraphs_cells(paragraphs, width).len() ==> (#[trigger] paragraphs_cells(
                paragraphs,
                width,
            )[i]).len() <= width,
    decreases paragraphs.len(),
{
    if paragraphs.len() > 0 {
        let last = paragraphs.last();
        lemma_paragraphs_fit(paragraphs.drop_last(), width);
        lemma_paragraph_cells(clustered(words_of(last)), all_whitespace(last), width);
        let a = paragraphs_cells(paragraphs.drop_last(), width);
        let b = paragraph_cells(clustered(words_of(last)), all_whitespace(last), width);
        assert forall|i: int| 0 <= i < (a + b).len() implies (#[trigger] (a + b)[i]).len()
            <= width by {
            if i >= a.len() {
                assert((a + b)[i] == b[i - a.len()]);
            }
        }
    }
}

/// No cell holds a newline.
pub open spec fn cells_clean(cells: Seq<Seq<char>>) -> bool {
    forall|j: int| 0 <= j < cells.len() ==> !(#[trigger] cells[j]).contains('\n')
}

/// No cell of any line holds a newline.
pub open spec fn lines_clean(lines: Seq<Seq<Seq<char>>>) -> bool {
    forall|i: int| 0 <= i < lines.len() ==> cells_clean(#[trigger] lines[i])
}

/// A character of a part is a character of the parts' concatenation.
proof fn lemma_concat_holds(parts: Seq<Seq<char>>, j: int, k: int)
    requires
        0 <= j < parts.len(),
        0 <= k < parts[j].len(),
    ensures
        concat(parts).contains(parts[j][k]),
    decreases parts.len(),
{
    let rest = parts.drop_last();
    if j == parts.len() - 1 {
        assert(concat(parts)[concat(rest).len() + k] == parts[j][k]);
    } else {
        lemma_concat_holds(rest, j, k);
        let w = choose|w: int| 0 <= w < concat(rest).len() && concat(rest)[w] == parts[j][k];
        assert(concat(parts)[w] == concat(rest)[w]);
    }
}

/// The parts of a text without newlines hold none.
proof fn lemma_parts_clean(parts: Seq<Seq<char>>)
    requires
        !concat(parts).contains('\n'),
    ensures
        cells_clean(parts),
{
    assert forall|j: int| 0 <= j < parts.len() implies !(#[trigger] parts[j]).contains('\n') by {
        if parts[j].contains('\n') {
            let k = choose|k: int| 0 <= k < parts[j].len() && parts[j][k] == '\n';
            lemma_concat_holds(parts, j, k);
        }
    }
}

/// Parts without newlines concatenate to a text without newlines.
proof fn lemma_concat_clean(parts: Seq<Seq<char>>)
    requires
        cells_clean(parts),
    ensures
        !concat(parts).contains('\n'),
    decreases parts.len(),
{
    if parts.len() > 0 {
        let rest = parts.drop_last();
        assert(cells_clean(rest)) by {
            assert forall|j: int| 0 <= j < rest.len() implies !(#[trigger] rest[j]).contains('\n') by {
                assert(rest[j] == parts[j]);
            }
        }
        lemma_concat_clean(rest);
        let last = parts.last();
        assert(!last.contains('\n')) by {
            assert(last == parts[parts.len() - 1]);
        }
        let whole = concat(rest) + last;
        assert forall|w: int| 0 <= w < whole.len() implies whole[w] != '\n' by {
            if w < concat(rest).len() {
                assert(whole[w] == concat(rest)[w]);
            } else {
                assert(whole[w] == last[w - concat(rest).len()]);
            }
        }
    }
}

/// No word of a text holds a newline.
proof fn lemma_words_clean(text: Seq<char>)
    ensures
        cells_clean(words_of(text)),
    decreases text.len(),
{
    if text.len() > 0 {
        let rest = text.drop_last();
        let before = words_of(rest);
        let c = text.last();
        lemma_words_clean(rest);
        assert(is_whitespace_char('\n'));
        let words = words_of(text);
        if is_whitespace_char(c) {
        } else if text.len() >= 2 && !is_whitespace_char(text[text.len() - 2]) {
            assert(rest.last() == text[text.len() - 2]);
            lemma_words_nonempty(rest);
            let grown = before.last().push(c);
            assert(!before.last().contains('\n')) by {
                assert(before.last() == before[before.len() - 1]);
            }
            assert(!grown.contains('\n')) by {
                assert forall|w: int| 0 <= w < grown.len() implies grown[w] != '\n' by {
                    if w < before.last().len() {
                        assert(grown[w] == before.last()[w]);
                    }
                }
            }
            assert forall|j: int| 0 <= j < words.len() implies !(#[trigger] words[j]).contains('\n') by {
                if j < words.len() - 1 {
                    assert(words[j] == before[j]);
                } else {
                    assert(words[j] == grown);
                }
            }
        } else {
            assert forall|j: int| 0 <= j < words.len() implies !(#[trigger] words[j]).contains('\n') by {
                if j < before.len() {
                    assert(words[j] == before[j]);
                } else {
                    assert(words[j] == seq![c]);
                    assert(seq![c][0] == c);
                }
            }
        }
    }
}

proof fn lemma_add_clusters_clean(
    state: (Seq<Seq<Seq<char>>>, Seq<Seq<char>>),
    clusters: Seq<Seq<char>>,
    width: nat,
)
    requires
        lines_clean(state.0),
        cells_clean(state.1),
        cells_clean(clusters),
    ensures
        lines_clean(add_clusters(state, clusters, width).0),
        cells_clean(add_clusters(state, clusters, width).1),
    decreases clusters.len(),
{
    if clusters.len() > 0 {
        let front = clusters.drop_last();
        assert(cells_clean(front)) by {
            assert forall|j: int| 0 <= j < front.len() implies !(#[trigger] front[j]).contains('\n') by {
                assert(front[j] == clusters[j]);
            }
        }
        lemma_add_clusters_clean(state, front, width);
        let before = add_clusters(state, front, width);
        let g = clusters.last();
        assert(!g.contains('\n')) by {
            assert(g == clusters[clusters.len() - 1]);
        }
        let grown = before.1.push(g);
        assert(cells_clean(grown)) by {
            assert forall|j: int| 0 <= j < grown.len() implies !(#[trigger] grown[j]).contains('\n') by {
                if j < before.1.len() {
                    assert(grown[j] == before.1[j]);
                }
            }
        }
        let pushed = before.0.push(grown);
        assert(lines_clean(pushed)) by {
            assert forall|i: int| 0 <= i < pushed.len() implies cells_clean(#[trigger] pushed[i]) by {
                if i < before.0.len() {
                    assert(pushed[i] == before.0[i]);
                }
            }
        }
        assert(cells_clean(Seq::<Seq<char>>::empty()));
    }
}

proof fn lemma_place_word_clean(
    state: (Seq<Seq<Seq<char>>>, Seq<Seq<char>>),
    clusters: Seq<Seq<char>>,
    width: nat,
)
    requires
        lines_clean(state.0),
        cells_clean(state.1),
        cells_clean(clusters),
    ensures
        lines_clean(place_word(state, clusters, width).0),
        cells_clean(place_word(state, clusters, width).1),
{
    let lines = state.0;
    let current = state.1;
    let pushed = lines.push(current);
    assert(lines_clean(pushed)) by {
        assert forall|i: int| 0 <= i < pushed.len() implies cells_clean(#[trigger] pushed[i]) by {
            if i < lines.len() {
                assert(pushed[i] == lines[i]);
            }
        }
    }
    assert(cells_clean(Seq::<Seq<char>>::empty()));
    if clusters.len() <= width {
        if current.len() > 0 && current.len() + 1 + clusters.len() <= width {
            let spaced = current.push(seq![' ']) + clusters;
            assert(!seq![' '].contains('\n')) by {
                assert(seq![' '].len() == 1);
                assert(seq![' '][0] == ' ');
            }
            assert forall|j: int| 0 <= j < spaced.len() implies !(#[trigger] spaced[j]).contains('\n') by {
                if j < current.len() {
                    assert(spaced[j] == current[j]);
                } else if j == current.len() {
                    assert(spaced[j] == seq![' ']);
                } else {
                    assert(spaced[j] == clusters[j - current.len() - 1]);
                }
            }
        }
    } else if current.len() == 0 {
        lemma_add_clusters_clean((lines, current), clusters, width);
    } else {
        lemma_add_clusters_clean((pushed, Seq::empty()), clusters, width);
    }
}

proof fn lemma_place_words_clean(words: Seq<Seq<Seq<char>>>, width: nat)
    requires
        lines_clean(words),
    ensures
        lines_clean(place_words((Seq::empty(), Seq::empty()), words, width).0),
        cells_clean(place_words((Seq::empty(), Seq::empty()), words, width).1),
    decreases words.len(),
{
    if words.len() > 0 {
        let front = words.drop_last();
        assert(lines_clean(front)) by {
            assert forall|i: int| 0 <= i < front.len() implies cells_clean(#[trigger] front[i]) by {
                assert(front[i] == words[i]);
            }
        }
        lemma_place_words_clean(front, width);
        assert(cells_clean(words.last())) by {
            assert(words.last() == words[words.len() - 1]);
        }
        lemma_place_word_clean(place_words((Seq::empty(), Seq::empty()), front, width), words.last(), width);
    } else {
        assert(lines_clean(Seq::<Seq<Seq<char>>>::empty()));
        assert(cells_clean(Seq::<Seq<char>>::empty()));
    }
}

/// Words without newlines wrap into lines without newlines.
proof fn lemma_paragraph_clean(words: Seq<Seq<Seq<char>>>, blank: bool, width: nat)
    requires
        lines_clean(words),
    ensures
        forall|i: int|
            0 <= i < texts(paragraph_cells(words, blank, width)).len() ==> !(#[trigger] texts(
                paragraph_cells(words, blank, width),
            )[i]).contains('\n'),
{
    let placed = place_words((Seq::empty(), Seq::empty()), words, width);
    lemma_place_words_clean(words, width);
    let cells = paragraph_cells(words, blank, width);
    assert(cells_clean(Seq::<Seq<char>>::empty()));
    assert(lines_clean(cells)) by {
        assert forall|i: int| 0 <= i < cells.len() implies cells_clean(#[trigger] cells[i]) by {
            if i < placed.0.len() {
                assert(cells[i] == placed.0[i]);
            }
        }
    }
    assert forall|i: int| 0 <= i < texts(cells).len() implies !(#[trigger] texts(cells)[i]).contains('\n') by {
        assert(texts(cells)[i] == concat(cells[i]));
        lemma_concat_clean(cells[i]);
    }
}

// ---------------------------------------------------------------------------
// Executable wrapping.

/// Splits `text` at every newline, as `str::split('\n')` does.
pub fn split_paragraphs(text: &str) -> (paragraphs: Vec<String>)
    ensures
        paragraphs.deep_view() == paragraphs_of(text@),
{
    let chars = chars_of(text);
    let mut paragraphs: Vec<String> = Vec::new();
    let mut current = String::new();
    let mut index: usize = 0;
    while index < chars.len()
        invariant
            index <= chars@.len(),
            chars@ == text@,
            paragraphs.deep_view().push(current@) == paragraphs_of(chars@.take(index as int)),
        decreases chars@.len() - index,
    {
        let c = chars[index];
        let ghost before = paragraphs.deep_view();
        let ghost cur = current@;
        assert(chars@.take(index + 1).drop_last() =~= chars@.take(index as int));
        if c == '\n' {
            let finished = current;
            current = String::new();
            push_string(&mut paragraphs, finished);
            assert(paragraphs.deep_view().push(current@) =~= before.push(cur).push(Seq::empty()));
        } else {
            push_char(&mut current, c);
            assert(before.push(cur).drop_last() =~= before);
            assert(paragraphs.deep_view().push(current@) =~= before.push(cur).drop_last().push(
                before.push(cur).last().push(c),
            ));
        }
        index += 1;
    }
    assert(chars@.take(chars@.len() as int) =~= chars@);
    push_string(&mut paragraphs, current);
    paragraphs
}

/// Splits `text` into its words, as `str::split_whitespace` does.
pub fn split_words(text: &str) -> (words: Vec<String>)
    ensures
        words.deep_view() == words_of(text@),
{
    let chars = chars_of(text);
    let mut words: Vec<String> = Vec::new();
    let mut current = String::new();
    let mut index: usize = 0;
    while index < chars.len()
        invariant
            index <= chars@.len(),
            chars@ == text@,
            current@.len() > 0 <==> (index > 0 && !is_whitespace_char(chars@[index - 1])),
            words_of(chars@.take(index as int)) == (if current@.len() > 0 {
                words.deep_view().push(current@)
            } else {
                words.deep_view()
            }),
        decreases chars@.len() - index,
    {
        let c = chars[index];
        let ghost before = words.deep_view();
        let ghost cur = current@;
        let ghost prefix = chars@.take(index + 1);
        assert(prefix.drop_last() =~= chars@.take(index as int));
        assert(prefix.last() == c);
        if is_whitespace(c) {
            if !current.as_str().is_empty() {
                let finished = current;
                current = String::new();
                push_string(&mut words, finished);
            }
        } else {
            let extends = !current.as_str().is_empty();
            push_char(&mut current, c);
            proof {
                if extends {
                    assert(prefix[prefix.len() - 2] == chars@[index - 1]);
                    assert(before.push(cur).drop_last() =~= before);
                    assert(words_of(prefix) == before.push(cur.push(c)));
                } else {
                    if index > 0 {
                        assert(prefix[prefix.len() - 2] == chars@[index - 1]);
                    }
                    assert(cur.push(c) =~= seq![c]);
                    assert(words_of(prefix) == before.push(seq![c]));
                }
            }
            assert(current@.len() > 0);
        }
        index += 1;
    }
    assert(chars@.take(chars@.len() as int) =~= chars@);
    if !current.as_str().is_empty() {
        push_string(&mut words, current);
    }
    words
}

/// Appends every piece to `text`.
fn append_all(text: &mut String, pieces: &Vec<String>)
    ensures
        final(text)@ == old(text)@ + concat(pieces.deep_view()),
{
    let ghost start = text@;
    let ghost view = pieces.deep_view();
    let mut index: usize = 0;
    while index < pieces.len()
        invariant
            index <= pieces@.len(),
            view == pieces.deep_view(),
            view.len() == pieces@.len(),
            text@ == start + concat(view.take(index as int)),
        decreases pieces@.len() - index,
    {
        assert(view[index as int] == pieces@[index as int]@);
        push_str(text, pieces[index].as_str());
        assert(view.take(index + 1) =~= view.take(index as int).push(view[index as int]));
        proof {
            lemma_concat_push(view.take(index as int), view[index as int]);
        }
        assert(start + concat(view.take(index as int)) + view[index as int] =~= start + (concat(
            view.take(index as int),
        ) + view[index as int]));
        index += 1;
    }
    assert(view.take(view.len() as int) =~= view);
}

/// Wraps one paragraph, given its words as grapheme clusters and whether it
/// is blank, appending its lines to `lines`.
pub fn wrap_paragraph(
    lines: &mut Vec<String>,
    words: &Vec<Vec<String>>,
    blank: bool,
    max_graphemes: usize,
)
    requires
        max_graphemes > 0,
    ensures
        final(lines).deep_view() == old(lines).deep_view() + texts(
            paragraph_cells(words.deep_view(), blank, max_graphemes as nat),
        ),
{
    let ghost all = words.deep_view();
    let ghost start = lines.deep_view();
    let ghost width = max_graphemes as nat;
    let mut current = String::new();
    let mut current_len: usize = 0;
    let ghost mut state: (Seq<Seq<Seq<char>>>, Seq<Seq<char>>) = (Seq::empty(), Seq::empty());
    let mut index: usize = 0;
    proof {
        lemma_place_words(Seq::empty(), width);
        assert(texts(Seq::<Seq<Seq<char>>>::empty()) =~= Seq::<Seq<char>>::empty());
        assert(start + Seq::<Seq<char>>::empty() =~= start);
        assert(concat(Seq::<Seq<char>>::empty()) =~= Seq::<char>::empty());
    }
    while index < words.len()
        invariant
            index <= all.len(),
            all == words.deep_view(),
            all.len() == words@.len(),
            width == max_graphemes as nat,
            width > 0,
            state == place_words((Seq::empty(), Seq::empty()), all.take(index as int), width),
            fits(state, width),
            lines.deep_view() == start + texts(state.0),
            current@ == concat(state.1),
            current_len == state.1.len(),
        decreases all.len() - index,
    {
        let clusters = &words[index];
        let ghost word = all[index as int];
        assert(word == clusters.deep_view());
        assert(word.len() == clusters@.len());
        assert(all.take(index + 1).drop_last() =~= all.take(index as int));
        assert(all.take(index + 1).last() == word);
        let ghost next = place_word(state, word, width);
        proof {
            lemma_place_word(state, word, width);
        }
        let count = clusters.len();
        if count <= max_graphemes {
            if current_len == 0 {
                append_all(&mut current, clusters);
                current_len = count;
                assert(concat(state.1) =~= Seq::<char>::empty());
                assert(current@ =~= concat(word));
            } else if current_len < max_graphemes - count {
                push_char(&mut current, ' ');
                append_all(&mut current, clusters);
                current_len = current_len + 1 + count;
                proof {
                    lemma_concat_push(state.1, seq![' ']);
                    lemma_concat_append(state.1.push(seq![' ']), word);
                    assert(current@ =~= concat(state.1) + seq![' '] + concat(word));
                }
            } else {
                let finished = current;
                current = String::new();
                push_string(lines, finished);
                append_all(&mut current, clusters);
                current_len = count;
                proof {
                    lemma_texts_push(state.0, state.1);
                    assert(current@ =~= concat(word));
                }
            }
        } else {
            let ghost mut inner: (Seq<Seq<Seq<char>>>, Seq<Seq<char>>) = state;
            if current_len > 0 {
                let finished = current;
                current = String::new();
                push_string(lines, finished);
                current_len = 0;
                proof {
                    lemma_texts_push(state.0, state.1);
                    inner = (state.0.push(state.1), Seq::empty());
                }
            }
            let ghost from = inner;
            proof {
                assert(concat(inner.1) =~= current@);
                assert(add_clusters(from, word.take(0), width) == from) by {
                    assert(word.take(0).len() == 0);
                }
            }
            let mut k: usize = 0;
            while k < count
                invariant
                    k <= count == word.len() == clusters@.len(),
                    word == clusters.deep_view(),
                    width == max_graphemes as nat,
                    inner == add_clusters(from, word.take(k as int), width),
                    fits(inner, width),
                    inner.1.len() < width,
                    lines.deep_view() == start + texts(inner.0),
                    current@ == concat(inner.1),
                    current_len == inner.1.len(),
                decreases count - k,
            {
                let ghost g = word[k as int];
                assert(g == clusters@[k as int]@);
                assert(word.take(k + 1).drop_last() =~= word.take(k as int));
                assert(word.take(k + 1).last() == g);
                push_str(&mut current, clusters[k].as_str());
                current_len += 1;
                proof {
                    lemma_concat_push(inner.1, g);
                }
                if current_len == max_graphemes {
                    let finished = current;
                    current = String::new();
                    push_string(lines, finished);
                    current_len = 0;
                    proof {
                        lemma_texts_push(inner.0, inner.1.push(g));
                        assert(concat(Seq::<Seq<char>>::empty()) =~= Seq::<char>::empty());
                    }
                }
                proof {
                    inner = add_cluster(inner, g, width);
                }
                k += 1;
            }
            assert(word.take(count as int) =~= word);
            proof {
                assert(inner == next);
            }
        }
        proof {
            state = next;
        }
        index += 1;
    }
    assert(all.take(all.len() as int) =~= all);
    if current_len > 0 {
        push_string(lines, current);
        proof {
            lemma_texts_push(state.0, state.1);
        }
    } else if blank {
        push_string(lines, String::new());
        proof {
            lemma_texts_push(state.0, Seq::empty());
            assert(concat(Seq::<Seq<char>>::empty()) =~= Seq::<char>::empty());
        }
    }
}

/// Wraps a prompt into lines of at most `max_graphemes` grapheme clusters:
/// words are kept whole where they fit and separated by single spaces, a
/// word longer than a line is broken between clusters, and empty or blank
/// paragraphs keep an empty line.
pub fn wrap_prompt(value: &str, max_graphemes: usize) -> (lines: Vec<String>)
    requires
        max_graphemes > 0,
    ensures
        lines.deep_view() == wrap_spec(value@, max_graphemes as nat),
        lines@.len() > 0,
        visible(concat(lines.deep_view())) == visible(value@),
        forall|i: int| 0 <= i < lines@.len() ==> !(#[trigger] lines.deep_view()[i]).contains('\n'),
        lines@.len() == prompt_cells(value@, max_graphemes as nat).len(),
        forall|i: int|
            0 <= i < lines@.len() ==> {
                &&& (#[trigger] lines.deep_view()[i]) == concat(prompt_cells(value@, max_graphemes as nat)[i])
                &&& prompt_cells(value@, max_graphemes as nat)[i].len() <= max_graphemes
            },
{
    let ghost width = max_graphemes as nat;
    let paragraphs = split_paragraphs(value);
    let ghost all = paragraphs.deep_view();
    let mut lines: Vec<String> = Vec::new();
    let mut index: usize = 0;
    proof {
        assert(all.take(0) =~= Seq::<Seq<char>>::empty());
        assert(texts(Seq::<Seq<Seq<char>>>::empty()) =~= Seq::<Seq<char>>::empty());
        assert(concat(Seq::<Seq<char>>::empty()) =~= Seq::<char>::empty());
    }
    while index < paragraphs.len()
        invariant
            index <= all.len(),
            all == paragraphs.deep_view(),
            all.len() == paragraphs@.len(),
            width == max_graphemes as nat,
            width > 0,
            lines.deep_view() == texts(paragraphs_cells(all.take(index as int), width)),
            visible(flat(paragraphs_cells(all.take(index as int), width))) == visible(
                concat(all.take(index as int)),
            ),
            forall|i: int|
                0 <= i < lines.deep_view().len() ==> !(#[trigger] lines.deep_view()[i]).contains(
                    '\n',
                ),
        decreases all.len() - index,
    {
        let paragraph = paragraphs[index].as_str();
        let ghost text = all[index as int];
        assert(text == paragraph@);
        let words = split_words(paragraph);
        let ghost word_texts = words.deep_view();
        let mut clusters: Vec<Vec<String>> = Vec::new();
        let mut k: usize = 0;
        while k < words.len()
            invariant
                k <= words@.len(),
                word_texts == words.deep_view(),
                word_texts.len() == words@.len(),
                clusters.deep_view() == clustered(word_texts.take(k as int)),
                forall|i: int|
                    0 <= i < k ==> concat(#[trigger] clusters.deep_view()[i]) == word_texts[i],
            decreases words@.len() - k,
        {
            assert(word_texts[k as int] == words@[k as int]@);
            let word_clusters = graphemes_of(words[k].as_str());
            let ghost before = clusters.deep_view();
            clusters.push(word_clusters);
            assert(clusters.deep_view() =~= before.push(grapheme_clusters(word_texts[k as int])));
            assert(clustered(word_texts.take(k + 1)) =~= clustered(word_texts.take(k as int)).push(
                grapheme_clusters(word_texts[k as int]),
            ));
            k += 1;
        }
        assert(word_texts.take(word_texts.len() as int) =~= word_texts);
        proof {
            lemma_words_clean(text);
            let split = clustered(word_texts);
            assert forall|i: int| 0 <= i < split.len() implies cells_clean(#[trigger] split[i]) by {
                assert(split[i] == clusters.deep_view()[i]);
                assert(!word_texts[i].contains('\n'));
                lemma_parts_clean(split[i]);
            }
        }
        let blank = all_blank(paragraph);
        let ghost before = lines.deep_view();
        wrap_paragraph(&mut lines, &clusters, blank, max_graphemes);
        proof {
            let done = paragraphs_cells(all.take(index as int), width);
            let added = paragraph_cells(clustered(word_texts), blank, width);
            assert(all.take(index + 1).drop_last() =~= all.take(index as int));
            assert(all.take(index + 1).last() == text);
            lemma_texts_append(done, added);
            lemma_paragraph_clean(clustered(word_texts), blank, width);
            assert forall|i: int| 0 <= i < lines.deep_view().len() implies !(
            #[trigger] lines.deep_view()[i]).contains('\n') by {
                if i < before.len() {
                    assert(lines.deep_view()[i] == before[i]);
                } else {
                    assert(lines.deep_view()[i] == texts(added)[i - before.len()]);
                }
            }
            lemma_flat_append(done, added);
            lemma_paragraph_cells(clustered(word_texts), blank, width);
            lemma_flat_words(clustered(word_texts), word_texts);
            lemma_words_visible(text);
            lemma_visible_idempotent(text);
            lemma_visible_append(flat(done), flat(added));
            lemma_concat_push(all.take(index as int), text);
            lemma_visible_append(concat(all.take(index as int)), text);
            assert(all.take(index as int).push(text) =~= all.take(index + 1));
        }
        index += 1;
    }
    proof {
        assert(all.take(all.len() as int) =~= all);
        lemma_prompt_lines_fit(value@, width);
        lemma_paragraphs_visible(value@);
        lemma_texts_concat(prompt_cells(value@, width));
    }
    if lines.len() == 0 {
        push_string(&mut lines, String::new());
        proof {
            assert(lines.deep_view()[0] =~= Seq::<char>::empty());
            let cells = paragraphs_cells(all, width);
            assert(texts(cells) =~= Seq::<Seq<char>>::empty());
            assert(cells.len() == 0);
            assert(texts(seq![Seq::<Seq<char>>::empty()]) =~= seq![Seq::<char>::empty()]);
            assert(concat(Seq::<Seq<char>>::empty()) =~= Seq::<char>::empty());
            lemma_flat_push(Seq::empty(), Seq::empty());
            assert(seq![Seq::<Seq<char>>::empty()] =~= Seq::<Seq<Seq<char>>>::empty().push(
                Seq::empty(),
            ));
            assert(flat(Seq::<Seq<Seq<char>>>::empty()) =~= Seq::<char>::empty());
        }
    } else {
        assert(paragraphs_cells(all, width).len() > 0);
    }
    lines
}

/// Whether every character of `text` is whitespace.
fn all_blank(text: &str) -> (blank: bool)
    ensures
        blank == all_whitespace(text@),
{
    let chars = chars_of(text);
    let mut index: usize = 0;
    while index < chars.len()
        invariant
            index <= chars@.len(),
            chars@ == text@,
            forall|i: int| 0 <= i < index ==> is_whitespace_char(#[trigger] chars@[i]),
        decreases chars@.len() - index,
    {
        if !is_whitespace(chars[index]) {
            return false;
        }
        index += 1;
    }
    true
}

/// How many prompt lines a collapsed card shows.
pub const COLLAPSED_PROMPT_LINES: usize = 6;

/// The first `COLLAPSED_PROMPT_LINES` lines; when lines were cut, the last
/// one shown ends with an ellipsis.
pub open spec fn collapsed_lines(lines: Seq<Seq<char>>) -> Seq<Seq<char>> {
    let shown = if lines.len() <= COLLAPSED_PROMPT_LINES {
        lines.len()
    } else {
        COLLAPSED_PROMPT_LINES as nat
    };
    Seq::new(
        shown,
        |i: int|
            if lines.len() > COLLAPSED_PROMPT_LINES && i + 1 == COLLAPSED_PROMPT_LINES {
                lines[i] + seq!['…']
            } else {
                lines[i]
            },
    )
}

/// Truncates wrapped prompt lines to the collapsed height.
pub fn collapse_prompt_lines(lines: &Vec<String>) -> (collapsed: Vec<String>)
    ensures
        collapsed.deep_view() == collapsed_lines(lines.deep_view()),
{
    let ghost view = lines.deep_view();
    let shown = if lines.len() <= COLLAPSED_PROMPT_LINES {
        lines.len()
    } else {
        COLLAPSED_PROMPT_LINES
    };
    let mut collapsed: Vec<String> = Vec::new();
    let mut index: usize = 0;
    while index < shown
        invariant
            index <= shown,
            shown == collapsed_lines(view).len(),
            shown <= lines@.len(),
            view == lines.deep_view(),
            collapsed.deep_view() == collapsed_lines(view).take(index as int),
        decreases shown - index,
    {
        let mut line = lines[index].clone();
        assert(view[index as int] == lines@[index as int]@);
        if lines.len() > COLLAPSED_PROMPT_LINES && index + 1 == COLLAPSED_PROMPT_LINES {
            push_char(&mut line, '…');
        }
        assert(collapsed_lines(view)[index as int] == line@);
        push_string(&mut collapsed, line);
        assert(collapsed_lines(view).take(index + 1) =~= collapsed_lines(view).take(
            index as int,
        ).push(collapsed_lines(view)[index as int]));
        index += 1;
    }
    assert(collapsed_lines(view).take(shown as int) =~= collapsed_lines(view));
    collapsed
}

} // verus!
