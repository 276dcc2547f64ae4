//! Text navigation for the prompt editor: grapheme and word boundaries, line
//! ranges, UTF-16 offset conversion, and paste normalization. Offsets are
//! byte offsets into the UTF-8 text, as Rust's `str` indexes it.

use std::ops::Range;
use unicode_segmentation::UnicodeSegmentation;
use vstd::prelude::*;
use vstd::string::StringSliceAdditionalSpecFns;

use crate::strings::{
    byte_len, char_len_utf16, char_len_utf8, chars_of, concat, is_whitespace, is_whitespace_char,
    lemma_concat_push, lemma_encode_utf8_len, lemma_utf8_len_concat, lemma_utf8_len_nonnegative,
    push_char, utf16_len, utf16_width, utf8_len, utf8_width, lemma_utf16_len_concat, lemma_single_char_lens,
};

verus! {

/// The extended grapheme clusters of a text, in order (UAX #29), as
/// `unicode_segmentation` computes them.
pub uninterp spec fn grapheme_clusters(text: Seq<char>) -> Seq<Seq<char>>;

/// The pieces of a text split at every UAX #29 word boundary, in order, as
/// `unicode_segmentation` computes them.
pub uninterp spec fn word_bound_pieces(text: Seq<char>) -> Seq<Seq<char>>;

/// `char::is_alphanumeric`: the Unicode `Alphabetic` or `Numeric` property.
pub uninterp spec fn char_is_alphanumeric(c: char) -> bool;

/// A segmentation of `text`: non-empty pieces whose concatenation is `text`.
pub open spec fn is_segmentation(pieces: Seq<Seq<char>>, text: Seq<char>) -> bool {
    &&& concat(pieces) == text
    &&& forall|i: int| 0 <= i < pieces.len() ==> #[trigger] pieces[i].len() > 0
}

/// Calls `UnicodeSegmentation::graphemes(text, true)`. The contract claims
/// the named clusters, and what the crate's documentation and source show of
/// them: they are non-empty and concatenate back to the text.
#[verifier::external_body]
pub(crate) fn graphemes_of(text: &str) -> (clusters: Vec<String>)
    ensures
        clusters.deep_view() == grapheme_clusters(text@),
        is_segmentation(clusters.deep_view(), text@),
{
    text.graphemes(true).map(str::to_owned).collect()
}

/// Calls `UnicodeSegmentation::split_word_bounds(text)`. The contract claims
/// the named pieces, and what the crate documents of them: they are
/// non-empty and "the concatenation of the substrings ... is just the
/// original string".
#[verifier::external_body]
fn word_bounds_of(text: &str) -> (pieces: Vec<String>)
    ensures
        pieces.deep_view() == word_bound_pieces(text@),
        is_segmentation(pieces.deep_view(), text@),
{
    text.split_word_bounds().map(str::to_owned).collect()
}

/// Calls `char::is_alphanumeric`.
#[verifier::external_body]
fn is_alphanumeric(c: char) -> (result: bool)
    ensures
        result == char_is_alphanumeric(c),
{
    c.is_alphanumeric()
}

/// Byte offset at which each piece starts.
pub open spec fn starts_of(pieces: Seq<Seq<char>>) -> Seq<int> {
    Seq::new(pieces.len(), |i: int| utf8_len(concat(pieces.take(i))))
}

/// Byte length of each piece.
pub open spec fn lens_of(pieces: Seq<Seq<char>>) -> Seq<int> {
    Seq::new(pieces.len(), |i: int| utf8_len(pieces[i]))
}

pub open spec fn as_ints(values: Seq<usize>) -> Seq<int> {
    values.map_values(|value: usize| value as int)
}

pub open spec fn non_decreasing(values: Seq<int>) -> bool {
    forall|i: int, j: int| 0 <= i <= j < values.len() ==> values[i] <= values[j]
}

proof fn lemma_starts_non_decreasing(pieces: Seq<Seq<char>>)
    ensures
        non_decreasing(starts_of(pieces)),
        forall|i: int|
            0 <= i < pieces.len() ==> #[trigger] starts_of(pieces)[i] + utf8_len(pieces[i])
                <= utf8_len(concat(pieces)),
    decreases pieces.len(),
{
    if pieces.len() > 0 {
        let init = pieces.drop_last();
        lemma_starts_non_decreasing(init);
        lemma_utf8_len_concat(concat(init), pieces.last());
        lemma_utf8_len_nonnegative(pieces.last());
        assert forall|i: int| 0 <= i < init.len() implies pieces.take(i) =~= init.take(i) by {}
        assert(pieces.take(init.len() as int) =~= init);
        assert forall|i: int, j: int| 0 <= i <= j < pieces.len() implies starts_of(pieces)[i]
            <= starts_of(pieces)[j] by {
            if j < init.len() {
                assert(starts_of(pieces)[i] == starts_of(init)[i]);
                assert(starts_of(pieces)[j] == starts_of(init)[j]);
            } else if i < init.len() {
                assert(starts_of(pieces)[i] == starts_of(init)[i]);
                assert(starts_of(init)[i] + utf8_len(init[i]) <= utf8_len(concat(init)));
                lemma_utf8_len_nonnegative(init[i]);
            }
        }
        assert forall|i: int| 0 <= i < pieces.len() implies #[trigger] starts_of(pieces)[i]
            + utf8_len(pieces[i]) <= utf8_len(concat(pieces)) by {
            if i < init.len() {
                assert(starts_of(pieces)[i] == starts_of(init)[i]);
                assert(starts_of(init)[i] + utf8_len(init[i]) <= utf8_len(concat(init)));
            }
        }
    }
}

/// The byte offset at which each of `pieces` starts within their
/// concatenation.
pub fn piece_starts(pieces: &Vec<String>) -> (starts: Vec<usize>)
    requires
        utf8_len(concat(pieces.deep_view())) <= usize::MAX,
    ensures
        as_ints(starts@) == starts_of(pieces.deep_view()),
{
    let ghost view = pieces.deep_view();
    let mut starts: Vec<usize> = Vec::new();
    let mut offset: usize = 0;
    let mut index: usize = 0;
    proof {
        lemma_starts_non_decreasing(view);
    }
    while index < pieces.len()
        invariant
            index <= pieces@.len(),
            view == pieces.deep_view(),
            view.len() == pieces@.len(),
            utf8_len(concat(view)) <= usize::MAX,
            forall|i: int|
                0 <= i < view.len() ==> #[trigger] starts_of(view)[i] + utf8_len(view[i])
                    <= utf8_len(concat(view)),
            offset == utf8_len(concat(view.take(index as int))),
            starts@.len() == index,
            forall|i: int| 0 <= i < index ==> #[trigger] starts@[i] as int == starts_of(view)[i],
        decreases pieces@.len() - index,
    {
        let width = byte_len(&pieces[index]);
        proof {
            assert(view[index as int] == pieces@[index as int]@);
            assert(starts_of(view)[index as int] == offset);
            assert(view.take(index + 1) =~= view.take(index as int).push(view[index as int]));
            lemma_concat_push(view.take(index as int), view[index as int]);
            lemma_utf8_len_concat(concat(view.take(index as int)), view[index as int]);
        }
        starts.push(offset);
        offset = offset + width;
        index += 1;
    }
    assert(as_ints(starts@) =~= starts_of(view));
    starts
}

/// The last start below `offset`, scanning from the end; 0 when there is none.
pub open spec fn last_below(starts: Seq<int>, offset: int) -> int
    decreases starts.len(),
{
    if starts.len() == 0 {
        0
    } else if starts.last() < offset {
        starts.last()
    } else {
        last_below(starts.drop_last(), offset)
    }
}

/// The first start above `offset`, scanning from the front; `fallback` when
/// there is none.
pub open spec fn first_above(starts: Seq<int>, offset: int, fallback: int) -> int
    decreases starts.len(),
{
    if starts.len() == 0 {
        fallback
    } else if starts[0] > offset {
        starts[0]
    } else {
        first_above(starts.drop_first(), offset, fallback)
    }
}

/// The last entry of `starts` that is below `offset`, or 0.
pub fn last_start_below(starts: &Vec<usize>, offset: usize) -> (result: usize)
    ensures
        result == last_below(as_ints(starts@), offset as int),
{
    let mut index: usize = starts.len();
    assert(as_ints(starts@).take(index as int) =~= as_ints(starts@));
    while index > 0
        invariant
            index <= starts@.len(),
            last_below(as_ints(starts@), offset as int) == last_below(
                as_ints(starts@).take(index as int),
                offset as int,
            ),
        decreases index,
    {
        let ghost prefix = as_ints(starts@).take(index as int);
        assert(prefix.drop_last() =~= as_ints(starts@).take(index - 1));
        if starts[index - 1] < offset {
            return starts[index - 1];
        }
        index -= 1;
    }
    0
}

/// The first entry of `starts` that is above `offset`, or `fallback`.
pub fn first_start_above(starts: &Vec<usize>, offset: usize, fallback: usize) -> (result: usize)
    ensures
        result == first_above(as_ints(starts@), offset as int, fallback as int),
{
    let mut index: usize = 0;
    assert(as_ints(starts@).skip(0) =~= as_ints(starts@));
    while index < starts.len()
        invariant
            index <= starts@.len(),
            first_above(as_ints(starts@), offset as int, fallback as int) == first_above(
                as_ints(starts@).skip(index as int),
                offset as int,
                fallback as int,
            ),
        decreases starts@.len() - index,
    {
        let ghost suffix = as_ints(starts@).skip(index as int);
        assert(suffix.drop_first() =~= as_ints(starts@).skip(index + 1));
        if starts[index] > offset {
            return starts[index];
        }
        index += 1;
    }
    fallback
}

/// Byte length of a text.
pub fn text_len(text: &str) -> (len: usize)
    ensures
        len == utf8_len(text@),
        len == text.spec_bytes().len(),
{
    let len = text.as_bytes().len();
    proof {
        lemma_encode_utf8_len(text@);
    }
    len
}


/// The grapheme boundary before `offset`: the start of the last grapheme
/// that begins before it, or 0.
pub fn previous_grapheme_boundary(text: &str, offset: usize) -> (result: usize)
    ensures
        result == last_below(starts_of(grapheme_clusters(text@)), offset as int),
{
    let _ = text_len(text);
    let clusters = graphemes_of(text);
    let starts = piece_starts(&clusters);
    last_start_below(&starts, offset)
}

/// The grapheme boundary after `offset`: the start of the first grapheme that
/// begins after it, or the end of the text.
pub fn next_grapheme_boundary(text: &str, offset: usize) -> (result: usize)
    ensures
        result == first_above(
            starts_of(grapheme_clusters(text@)),
            offset as int,
            utf8_len(text@),
        ),
{
    let len = text_len(text);
    let clusters = graphemes_of(text);
    let starts = piece_starts(&clusters);
    first_start_above(&starts, offset, len)
}

/// How a grapheme takes part in word navigation.
#[derive(Clone, Copy, Debug, PartialEq, Eq, Structural)]
pub enum BoundaryClass {
    Whitespace,
    Word,
    Punctuation,
}

pub open spec fn all_whitespace(g: Seq<char>) -> bool {
    forall|i: int| 0 <= i < g.len() ==> is_whitespace_char(#[trigger] g[i])
}

pub open spec fn is_word_char(c: char) -> bool {
    char_is_alphanumeric(c) || c == '_'
}

pub open spec fn has_word_char(g: Seq<char>) -> bool {
    exists|i: int| 0 <= i < g.len() && is_word_char(#[trigger] g[i])
}

/// Whitespace when every character is whitespace, a word part when some
/// character is alphanumeric or `_`, punctuation otherwise.
pub open spec fn class_of(g: Seq<char>) -> BoundaryClass {
    if all_whitespace(g) {
        BoundaryClass::Whitespace
    } else if has_word_char(g) {
        BoundaryClass::Word
    } else {
        BoundaryClass::Punctuation
    }
}

pub open spec fn classes_of(pieces: Seq<Seq<char>>) -> Seq<BoundaryClass> {
    pieces.map_values(|g: Seq<char>| class_of(g))
}

/// Classifies one grapheme for word navigation.
pub fn boundary_class(grapheme: &str) -> (class: BoundaryClass)
    ensures
        class == class_of(grapheme@),
{
    let chars = chars_of(grapheme);
    let mut index: usize = 0;
    let mut whitespace = true;
    while index < chars.len()
        invariant
            index <= chars@.len(),
            chars@ == grapheme@,
            whitespace == all_whitespace(chars@.take(index as int)),
        decreases chars@.len() - index,
    {
        let ghost before = chars@.take(index as int);
        let ghost c = chars@[index as int];
        assert(chars@.take(index + 1) =~= before.push(c));
        assert(all_whitespace(before.push(c)) == (all_whitespace(before) && is_whitespace_char(c)))
            by {
            if all_whitespace(before) && is_whitespace_char(c) {
                assert forall|i: int| 0 <= i < before.len() + 1 implies is_whitespace_char(
                    #[trigger] before.push(c)[i],
                ) by {
                    if i < before.len() {
                        assert(before.push(c)[i] == before[i]);
                    }
                }
            }
            if all_whitespace(before.push(c)) {
                assert(is_whitespace_char(before.push(c)[before.len() as int]));
                assert forall|i: int| 0 <= i < before.len() implies is_whitespace_char(
                    #[trigger] before[i],
                ) by {
                    assert(before.push(c)[i] == before[i]);
                }
            }
        }
        if !is_whitespace(chars[index]) {
            whitespace = false;
        }
        index += 1;
    }
    assert(chars@.take(chars@.len() as int) =~= chars@);
    if whitespace {
        return BoundaryClass::Whitespace;
    }
    let mut index: usize = 0;
    while index < chars.len()
        invariant
            index <= chars@.len(),
            chars@ == grapheme@,
            !all_whitespace(grapheme@),
            forall|i: int| 0 <= i < index ==> !is_word_char(#[trigger] chars@[i]),
        decreases chars@.len() - index,
    {
        let c = chars[index];
        if is_alphanumeric(c) || c == '_' {
            return BoundaryClass::Word;
        }
        index += 1;
    }
    BoundaryClass::Punctuation
}

/// The boundary class of every piece.
pub fn piece_classes(pieces: &Vec<String>) -> (classes: Vec<BoundaryClass>)
    ensures
        classes@ == classes_of(pieces.deep_view()),
{
    let mut classes: Vec<BoundaryClass> = Vec::new();
    let mut index: usize = 0;
    while index < pieces.len()
        invariant
            index <= pieces@.len(),
            classes@.len() == index,
            forall|i: int|
                0 <= i < index ==> #[trigger] classes@[i] == class_of(pieces.deep_view()[i]),
        decreases pieces@.len() - index,
    {
        classes.push(boundary_class(pieces[index].as_str()));
        index += 1;
    }
    assert(classes@ =~= classes_of(pieces.deep_view()));
    classes
}

/// How many leading starts lie below `offset`.
pub open spec fn count_below(starts: Seq<int>, offset: int) -> int
    decreases starts.len(),
{
    if starts.len() == 0 || starts[0] >= offset {
        0
    } else {
        1 + count_below(starts.drop_first(), offset)
    }
}

/// Moves `index` back over whitespace pieces.
pub open spec fn skip_back_whitespace(classes: Seq<BoundaryClass>, index: int) -> int
    decreases index,
{
    if 0 < index <= classes.len() && classes[index - 1] == BoundaryClass::Whitespace {
        skip_back_whitespace(classes, index - 1)
    } else {
        index
    }
}

/// Moves `index` back over pieces of class `class`.
pub open spec fn skip_back_class(
    classes: Seq<BoundaryClass>,
    index: int,
    class: BoundaryClass,
) -> int
    decreases index,
{
    if 0 < index <= classes.len() && classes[index - 1] == class {
        skip_back_class(classes, index - 1, class)
    } else {
        index
    }
}

/// Moves `index` forward over whitespace pieces.
pub open spec fn skip_forward_whitespace(classes: Seq<BoundaryClass>, index: int) -> int
    decreases classes.len() - index,
{
    if 0 <= index < classes.len() && classes[index] == BoundaryClass::Whitespace {
        skip_forward_whitespace(classes, index + 1)
    } else {
        index
    }
}

/// Moves `index` forward over pieces of class `class`.
pub open spec fn skip_forward_class(
    classes: Seq<BoundaryClass>,
    index: int,
    class: BoundaryClass,
) -> int
    decreases classes.len() - index,
{
    if 0 <= index < classes.len() && classes[index] == class {
        skip_forward_class(classes, index + 1, class)
    } else {
        index
    }
}

/// Among the graphemes that start before `offset`: skip trailing
/// whitespace, then the run of graphemes sharing the class of the one before
/// it; the result is where that run starts, or 0.
pub open spec fn previous_word_start(
    starts: Seq<int>,
    classes: Seq<BoundaryClass>,
    offset: int,
) -> int {
    let k = count_below(starts, offset);
    let i = skip_back_whitespace(classes, k);
    if i <= 0 {
        0
    } else {
        starts[skip_back_class(classes, i, classes[i - 1])]
    }
}

/// Among the graphemes that start at or after `offset`: skip leading
/// whitespace, then the run of graphemes sharing the class of the first one;
/// the result is where the next grapheme starts, or the end of the text.
pub open spec fn next_word_end(
    starts: Seq<int>,
    classes: Seq<BoundaryClass>,
    offset: int,
    text_len: int,
) -> int {
    let i = skip_forward_whitespace(classes, count_below(starts, offset));
    if i >= classes.len() {
        text_len
    } else {
        let j = skip_forward_class(classes, i, classes[i]);
        if j < classes.len() {
            starts[j]
        } else {
            text_len
        }
    }
}

proof fn lemma_count_below_bound(starts: Seq<int>, offset: int)
    ensures
        0 <= count_below(starts, offset) <= starts.len(),
    decreases starts.len(),
{
    if starts.len() > 0 && starts[0] < offset {
        lemma_count_below_bound(starts.drop_first(), offset);
    }
}

/// `count_below` computed on a vector.
fn count_starts_below(starts: &Vec<usize>, offset: usize) -> (count: usize)
    ensures
        count == count_below(as_ints(starts@), offset as int),
        count <= starts@.len(),
{
    let mut index: usize = 0;
    assert(as_ints(starts@).skip(0) =~= as_ints(starts@));
    while index < starts.len() && starts[index] < offset
        invariant
            index <= starts@.len(),
            count_below(as_ints(starts@), offset as int) == index + count_below(
                as_ints(starts@).skip(index as int),
                offset as int,
            ),
        decreases starts@.len() - index,
    {
        assert(as_ints(starts@).skip(index as int).drop_first() =~= as_ints(starts@).skip(
            index + 1,
        ));
        index += 1;
    }
    index
}

/// The word boundary before `offset`, computed from the text's graphemes.
pub fn previous_word_boundary_in(clusters: &Vec<String>, offset: usize) -> (result: usize)
    requires
        utf8_len(concat(clusters.deep_view())) <= usize::MAX,
    ensures
        result == previous_word_start(
            starts_of(clusters.deep_view()),
            classes_of(clusters.deep_view()),
            offset as int,
        ),
{
    let starts = piece_starts(clusters);
    let classes = piece_classes(clusters);
    let ghost s = starts_of(clusters.deep_view());
    let ghost c = classes_of(clusters.deep_view());
    let k = count_starts_below(&starts, offset);
    let mut index = k;
    while index > 0 && classes[index - 1] == BoundaryClass::Whitespace
        invariant
            index <= k <= classes@.len(),
            classes@ == c,
            skip_back_whitespace(c, k as int) == skip_back_whitespace(c, index as int),
        decreases index,
    {
        index -= 1;
    }
    if index == 0 {
        return 0;
    }
    let class = classes[index - 1];
    let ghost i = index as int;
    while index > 0 && classes[index - 1] == class
        invariant
            index <= i <= classes@.len(),
            classes@ == c,
            0 < i,
            class == c[i - 1],
            skip_back_class(c, i, class) == skip_back_class(c, index as int, class),
        decreases index,
    {
        index -= 1;
    }
    assert(as_ints(starts@)[index as int] == starts@[index as int] as int);
    starts[index]
}

/// The word boundary after `offset`, computed from the text's graphemes.
pub fn next_word_boundary_in(clusters: &Vec<String>, offset: usize, text_len: usize) -> (result:
    usize)
    requires
        utf8_len(concat(clusters.deep_view())) <= usize::MAX,
    ensures
        result == next_word_end(
            starts_of(clusters.deep_view()),
            classes_of(clusters.deep_view()),
            offset as int,
            text_len as int,
        ),
{
    let starts = piece_starts(clusters);
    let classes = piece_classes(clusters);
    let ghost c = classes_of(clusters.deep_view());
    let m = count_starts_below(&starts, offset);
    let mut index = m;
    while index < classes.len() && classes[index] == BoundaryClass::Whitespace
        invariant
            m <= index <= classes@.len(),
            classes@ == c,
            skip_forward_whitespace(c, m as int) == skip_forward_whitespace(c, index as int),
        decreases classes@.len() - index,
    {
        index += 1;
    }
    if index == classes.len() {
        return text_len;
    }
    let class = classes[index];
    let ghost i = index as int;
    while index < classes.len() && classes[index] == class
        invariant
            i <= index <= classes@.len(),
            0 <= i < classes@.len(),
            classes@ == c,
            class == c[i],
            skip_forward_class(c, i, class) == skip_forward_class(c, index as int, class),
        decreases classes@.len() - index,
    {
        index += 1;
    }
    if index < starts.len() {
        assert(as_ints(starts@)[index as int] == starts@[index as int] as int);
        starts[index]
    } else {
        text_len
    }
}

/// The word boundary before `offset`: skips whitespace backwards, then the
/// run of graphemes of the same class.
pub fn previous_word_boundary(text: &str, offset: usize) -> (result: usize)
    ensures
        result == previous_word_start(
            starts_of(grapheme_clusters(text@)),
            classes_of(grapheme_clusters(text@)),
            offset as int,
        ),
{
    let _ = text_len(text);
    let clusters = graphemes_of(text);
    previous_word_boundary_in(&clusters, offset)
}

/// The word boundary after `offset`: skips whitespace forwards, then the run
/// of graphemes of the same class.
pub fn next_word_boundary(text: &str, offset: usize) -> (result: usize)
    ensures
        result == next_word_end(
            starts_of(grapheme_clusters(text@)),
            classes_of(grapheme_clusters(text@)),
            offset as int,
            utf8_len(text@),
        ),
{
    let len = text_len(text);
    let clusters = graphemes_of(text);
    next_word_boundary_in(&clusters, offset, len)
}


/// Scans the word-bound pieces from `index` for the first one that contains
/// `offset`, or that ends at the end of the text when `offset` is there.
pub open spec fn word_range_from(
    starts: Seq<int>,
    lens: Seq<int>,
    offset: int,
    len: int,
    index: int,
) -> (int, int)
    decreases starts.len() - index,
{
    if index < 0 || index >= starts.len() || index >= lens.len() {
        (offset, offset)
    } else {
        let start = starts[index];
        let end = start + lens[index];
        if (start <= offset < end) || (offset == len && end == len) {
            (start, end)
        } else {
            word_range_from(starts, lens, offset, len, index + 1)
        }
    }
}

/// The word-bound piece around `offset` (clamped to the text), as a byte
/// range; empty for an empty text.
pub open spec fn word_range_spec(text: Seq<char>, offset: int) -> (int, int) {
    if text.len() == 0 {
        (0, 0)
    } else {
        let len = utf8_len(text);
        let offset = if offset < len {
            offset
        } else {
            len
        };
        let pieces = word_bound_pieces(text);
        word_range_from(starts_of(pieces), lens_of(pieces), offset, len, 0)
    }
}

/// The word-bound piece around `offset`, computed from the pieces of the
/// text; `offset` is clamped to `len`.
pub fn word_range_in(pieces: &Vec<String>, offset: usize, len: usize) -> (range: Range<usize>)
    requires
        utf8_len(concat(pieces.deep_view())) == len,
    ensures
        (range.start as int, range.end as int) == word_range_from(
            starts_of(pieces.deep_view()),
            lens_of(pieces.deep_view()),
            clamp_offset(offset as int, len as int),
            len as int,
            0,
        ),
{
    let clamped = if offset < len {
        offset
    } else {
        len
    };
    let starts = piece_starts(pieces);
    let ghost view = pieces.deep_view();
    proof {
        lemma_starts_non_decreasing(view);
        assert(starts@.len() == as_ints(starts@).len());
    }
    let mut index: usize = 0;
    while index < pieces.len()
        invariant
            index <= pieces@.len(),
            clamped as int == clamp_offset(offset as int, len as int),
            view == pieces.deep_view(),
            view.len() == pieces@.len(),
            starts@.len() == view.len(),
            as_ints(starts@) == starts_of(view),
            utf8_len(concat(view)) == len,
            forall|i: int|
                0 <= i < view.len() ==> #[trigger] starts_of(view)[i] + utf8_len(view[i])
                    <= utf8_len(concat(view)),
            word_range_from(starts_of(view), lens_of(view), clamped as int, len as int, 0)
                == word_range_from(
                starts_of(view),
                lens_of(view),
                clamped as int,
                len as int,
                index as int,
            ),
        decreases pieces@.len() - index,
    {
        let start = starts[index];
        let width = byte_len(&pieces[index]);
        proof {
            assert(as_ints(starts@)[index as int] == start as int);
            assert(view[index as int] == pieces@[index as int]@);
            assert(starts_of(view)[index as int] + utf8_len(view[index as int]) <= len);
            assert(lens_of(view)[index as int] == width as int);
        }
        let end = start + width;
        if (start <= clamped && clamped < end) || (clamped == len && end == len) {
            assert(lens_of(view).len() == view.len());
            let range = start..end;
            return range;
        }
        index += 1;
    }
    clamped..clamped
}

/// The word around `offset`, as a byte range.
pub fn word_range_at(text: &str, offset: usize) -> (range: Range<usize>)
    ensures
        (range.start as int, range.end as int) == word_range_spec(text@, offset as int),
{
    if text.is_empty() {
        return 0..0;
    }
    let len = text_len(text);
    let pieces = word_bounds_of(text);
    word_range_in(&pieces, offset, len)
}

/// Index of the last newline byte before `end`, or -1.
pub open spec fn last_newline_before(bytes: Seq<u8>, end: int) -> int
    decreases end,
{
    if end <= 0 || end > bytes.len() {
        -1
    } else if bytes[end - 1] == 10 {
        end - 1
    } else {
        last_newline_before(bytes, end - 1)
    }
}

/// Index of the first newline byte at or after `start`, or -1.
pub open spec fn first_newline_from(bytes: Seq<u8>, start: int) -> int
    decreases bytes.len() - start,
{
    if start < 0 || start >= bytes.len() {
        -1
    } else if bytes[start] == 10 {
        start
    } else {
        first_newline_from(bytes, start + 1)
    }
}

fn find_last_newline(bytes: &[u8], end: usize) -> (index: Option<usize>)
    requires
        end <= bytes@.len(),
    ensures
        match index {
            Some(i) => i < end && i as int == last_newline_before(bytes@, end as int),
            None => last_newline_before(bytes@, end as int) == -1,
        },
{
    let mut position = end;
    while position > 0
        invariant
            position <= end <= bytes@.len(),
            last_newline_before(bytes@, end as int) == last_newline_before(
                bytes@,
                position as int,
            ),
        decreases position,
    {
        if bytes[position - 1] == 10 {
            return Some(position - 1);
        }
        position -= 1;
    }
    None
}

fn find_first_newline(bytes: &[u8], start: usize) -> (index: Option<usize>)
    requires
        start <= bytes@.len(),
    ensures
        match index {
            Some(i) => start <= i < bytes@.len() && i as int == first_newline_from(
                bytes@,
                start as int,
            ),
            None => first_newline_from(bytes@, start as int) == -1,
        },
{
    let mut position = start;
    while position < bytes.len()
        invariant
            start <= position <= bytes@.len(),
            first_newline_from(bytes@, start as int) == first_newline_from(
                bytes@,
                position as int,
            ),
        decreases bytes@.len() - position,
    {
        if bytes[position] == 10 {
            return Some(position);
        }
        position += 1;
    }
    None
}

pub open spec fn clamp_offset(offset: int, len: int) -> int {
    if offset < len {
        offset
    } else {
        len
    }
}

/// The logical line holding `offset`, including its newline.
pub open spec fn line_range_spec(bytes: Seq<u8>, offset: int) -> (int, int) {
    let offset = clamp_offset(offset, bytes.len() as int);
    let next = first_newline_from(bytes, offset);
    (
        last_newline_before(bytes, offset) + 1,
        if next < 0 {
            bytes.len() as int
        } else {
            next + 1
        },
    )
}

/// The start (`end == false`) or the end before the newline (`end == true`)
/// of the logical line holding `offset`.
pub open spec fn line_edge_spec(bytes: Seq<u8>, offset: int, end: bool) -> int {
    let offset = clamp_offset(offset, bytes.len() as int);
    if end {
        let next = first_newline_from(bytes, offset);
        if next < 0 {
            bytes.len() as int
        } else {
            next
        }
    } else {
        last_newline_before(bytes, offset) + 1
    }
}

/// The byte range of the line holding `offset` (clamped to the text), from
/// after the previous newline through its own newline.
pub fn line_range_at(text: &str, offset: usize) -> (range: Range<usize>)
    requires
        vstd::utf8::is_char_boundary(
            text.spec_bytes(),
            clamp_offset(offset as int, text.spec_bytes().len() as int),
        ),
    ensures
        (range.start as int, range.end as int) == line_range_spec(text.spec_bytes(), offset as int),
{
    let bytes = text.as_bytes();
    let offset = if offset < bytes.len() {
        offset
    } else {
        bytes.len()
    };
    let start = match find_last_newline(bytes, offset) {
        Some(position) => position + 1,
        None => 0,
    };
    let end = match find_first_newline(bytes, offset) {
        Some(position) => position + 1,
        None => bytes.len(),
    };
    start..end
}

/// The start or the end (before its newline) of the line holding `offset`.
pub fn logical_line_edge(text: &str, offset: usize, end: bool) -> (edge: usize)
    requires
        vstd::utf8::is_char_boundary(
            text.spec_bytes(),
            clamp_offset(offset as int, text.spec_bytes().len() as int),
        ),
    ensures
        edge == line_edge_spec(text.spec_bytes(), offset as int, end),
{
    let bytes = text.as_bytes();
    let offset = if offset < bytes.len() {
        offset
    } else {
        bytes.len()
    };
    if end {
        match find_first_newline(bytes, offset) {
            Some(position) => position,
            None => bytes.len(),
        }
    } else {
        match find_last_newline(bytes, offset) {
            Some(position) => position + 1,
            None => 0,
        }
    }
}


/// `text` with every "\r\n" pair, scanned left to right, replaced by "\n".
pub open spec fn collapse_crlf(text: Seq<char>) -> Seq<char>
    decreases text.len(),
{
    if text.len() == 0 {
        Seq::empty()
    } else if text.len() >= 2 && text[0] == '\r' && text[1] == '\n' {
        seq!['\n'] + collapse_crlf(text.skip(2))
    } else {
        seq![text[0]] + collapse_crlf(text.drop_first())
    }
}

/// What a pasted character becomes: a lone carriage return is a line break,
/// and a line break is a space in a single-line field.
pub open spec fn normalized_char(c: char, multiline: bool) -> char {
    let c = if c == '\r' {
        '\n'
    } else {
        c
    };
    if !multiline && c == '\n' {
        ' '
    } else {
        c
    }
}

/// Pasted text with Windows and old Mac line endings turned into "\n", and
/// line breaks turned into spaces unless the field is multiline.
pub open spec fn normalized_text(text: Seq<char>, multiline: bool) -> Seq<char> {
    collapse_crlf(text).map_values(|c: char| normalized_char(c, multiline))
}

proof fn lemma_collapse_without_returns(text: Seq<char>)
    requires
        forall|i: int| 0 <= i < text.len() ==> #[trigger] text[i] != '\r',
    ensures
        collapse_crlf(text) == text,
    decreases text.len(),
{
    if text.len() > 0 {
        assert forall|i: int| 0 <= i < text.drop_first().len() implies #[trigger] text.drop_first()[i]
            != '\r' by {
            assert(text.drop_first()[i] == text[i + 1]);
        }
        lemma_collapse_without_returns(text.drop_first());
        assert(seq![text[0]] + text.drop_first() =~= text);
    }
}

/// Normalized text holds no carriage return, and no line break when the
/// field is single-line; normalizing it again changes nothing.
pub proof fn lemma_normalized_text_settled(text: Seq<char>, multiline: bool)
    ensures
        forall|i: int|
            0 <= i < normalized_text(text, multiline).len() ==> #[trigger] normalized_text(
                text,
                multiline,
            )[i] != '\r',
        !multiline ==> forall|i: int|
            0 <= i < normalized_text(text, multiline).len() ==> #[trigger] normalized_text(
                text,
                multiline,
            )[i] != '\n',
        normalized_text(normalized_text(text, multiline), multiline) == normalized_text(
            text,
            multiline,
        ),
{
    let once = normalized_text(text, multiline);
    assert forall|i: int| 0 <= i < once.len() implies #[trigger] once[i] != '\r' by {}
    lemma_collapse_without_returns(once);
    assert(normalized_text(once, multiline) =~= once);
}

/// Normalizes pasted text for a text field.
pub fn normalize_inserted_text(text: &str, multiline: bool) -> (result: String)
    ensures
        result@ == normalized_text(text@, multiline),
{
    let chars = chars_of(text);
    let mut collapsed: Vec<char> = Vec::new();
    let mut index: usize = 0;
    assert(chars@.skip(0) =~= chars@);
    while index < chars.len()
        invariant
            index <= chars@.len(),
            collapsed@ + collapse_crlf(chars@.skip(index as int)) == collapse_crlf(chars@),
        decreases chars@.len() - index,
    {
        let ghost rest = chars@.skip(index as int);
        if index + 1 < chars.len() && chars[index] == '\r' && chars[index + 1] == '\n' {
            assert(rest.skip(2) =~= chars@.skip(index + 2));
            assert(collapsed@.push('\n') + collapse_crlf(rest.skip(2)) =~= collapsed@ + (seq!['\n'] + collapse_crlf(rest.skip(2))));
            collapsed.push('\n');
            index += 2;
        } else {
            assert(rest.drop_first() =~= chars@.skip(index + 1));
            assert(collapsed@.push(chars@[index as int]) + collapse_crlf(rest.drop_first()) =~= collapsed@ + (seq![rest[0]] + collapse_crlf(rest.drop_first())));
            collapsed.push(chars[index]);
            index += 1;
        }
    }
    assert(chars@.skip(index as int) =~= Seq::<char>::empty());
    assert(collapsed@ + Seq::<char>::empty() =~= collapsed@);
    let mut result = String::new();
    let mut index: usize = 0;
    while index < collapsed.len()
        invariant
            index <= collapsed@.len(),
            collapsed@ == collapse_crlf(chars@),
            chars@ == text@,
            result@ == collapsed@.take(index as int).map_values(
                |c: char| normalized_char(c, multiline),
            ),
        decreases collapsed@.len() - index,
    {
        let mut c = collapsed[index];
        if c == '\r' {
            c = '\n';
        }
        if !multiline && c == '\n' {
            c = ' ';
        }
        push_char(&mut result, c);
        assert(collapsed@.take(index + 1).map_values(|c: char| normalized_char(c, multiline))
            =~= collapsed@.take(index as int).map_values(
            |c: char| normalized_char(c, multiline),
        ).push(normalized_char(collapsed@[index as int], multiline)));
        index += 1;
    }
    assert(collapsed@.take(collapsed@.len() as int) =~= collapsed@);
    result
}

/// The UTF-8 offset reached when walking `text` until `offset` UTF-16 units
/// have been passed.
pub open spec fn utf8_offset_for_utf16(text: Seq<char>, offset: int) -> int
    decreases text.len(),
{
    if text.len() == 0 || offset <= 0 {
        0
    } else {
        utf8_width(text[0]) + utf8_offset_for_utf16(text.drop_first(), offset - utf16_width(text[0]))
    }
}

/// The UTF-16 offset reached when walking `text` until `offset` UTF-8 bytes
/// have been passed.
pub open spec fn utf16_offset_for_utf8(text: Seq<char>, offset: int) -> int
    decreases text.len(),
{
    if text.len() == 0 || offset <= 0 {
        0
    } else {
        utf16_width(text[0]) + utf16_offset_for_utf8(text.drop_first(), offset - utf8_width(text[0]))
    }
}

proof fn lemma_prefix_lengths(text: Seq<char>, i: int)
    requires
        0 <= i <= text.len(),
    ensures
        utf16_len(text.take(i)) <= utf8_len(text.take(i)) <= utf8_len(text),
    decreases i,
{
    if i > 0 {
        lemma_prefix_lengths(text, i - 1);
        assert(text.take(i) =~= text.take(i - 1) + seq![text[i - 1]]);
        lemma_utf8_len_concat(text.take(i - 1), seq![text[i - 1]]);
        lemma_utf16_len_concat(text.take(i - 1), seq![text[i - 1]]);
        assert(text =~= text.take(i) + text.skip(i));
        lemma_utf8_len_concat(text.take(i), text.skip(i));
        lemma_utf8_len_nonnegative(text.skip(i));
        lemma_single_char_lens(text[i - 1]);
    } else {
        assert(text.take(i) =~= Seq::<char>::empty());
        lemma_utf8_len_nonnegative(text);
    }
}

/// Converts a UTF-16 offset into a UTF-8 byte offset.
pub fn offset_from_utf16_in(text: &str, offset: usize) -> (result: usize)
    ensures
        result == utf8_offset_for_utf16(text@, offset as int),
{
    let len = text_len(text);
    let chars = chars_of(text);
    let mut utf8: usize = 0;
    let mut utf16: usize = 0;
    let mut index: usize = 0;
    assert(chars@.skip(0) =~= chars@);
    while index < chars.len()
        invariant
            index <= chars@.len(),
            chars@ == text@,
            len == utf8_len(text@),
            utf8 == utf8_len(chars@.take(index as int)),
            utf16 == utf16_len(chars@.take(index as int)),
            utf8 + utf8_offset_for_utf16(chars@.skip(index as int), offset - utf16)
                == utf8_offset_for_utf16(chars@, offset as int),
        ensures
            utf8 == utf8_offset_for_utf16(chars@, offset as int),
        decreases chars@.len() - index,
    {
        if utf16 >= offset {
            break;
        }
        assert(index + 1 <= chars@.len());
        proof {
            lemma_prefix_lengths(chars@, index + 1);
            assert(chars@.take(index + 1) =~= chars@.take(index as int) + seq![chars@[index as int]]);
            lemma_utf8_len_concat(chars@.take(index as int), seq![chars@[index as int]]);
            lemma_utf16_len_concat(chars@.take(index as int), seq![chars@[index as int]]);
            lemma_single_char_lens(chars@[index as int]);
            assert(chars@.skip(index as int).drop_first() =~= chars@.skip(index + 1));
        }
        utf16 += char_len_utf16(chars[index]);
        utf8 += char_len_utf8(chars[index]);
        index += 1;
    }
    utf8
}

/// Converts a UTF-8 byte offset into a UTF-16 offset.
pub fn offset_to_utf16_in(text: &str, offset: usize) -> (result: usize)
    ensures
        result == utf16_offset_for_utf8(text@, offset as int),
{
    let len = text_len(text);
    let chars = chars_of(text);
    let mut utf8: usize = 0;
    let mut utf16: usize = 0;
    let mut index: usize = 0;
    assert(chars@.skip(0) =~= chars@);
    while index < chars.len()
        invariant
            index <= chars@.len(),
            chars@ == text@,
            len == utf8_len(text@),
            utf8 == utf8_len(chars@.take(index as int)),
            utf16 == utf16_len(chars@.take(index as int)),
            utf16 + utf16_offset_for_utf8(chars@.skip(index as int), offset - utf8)
                == utf16_offset_for_utf8(chars@, offset as int),
        ensures
            utf16 == utf16_offset_for_utf8(chars@, offset as int),
        decreases chars@.len() - index,
    {
        if utf8 >= offset {
            break;
        }
        assert(index + 1 <= chars@.len());
        proof {
            lemma_prefix_lengths(chars@, index + 1);
            assert(chars@.take(index + 1) =~= chars@.take(index as int) + seq![chars@[index as int]]);
            lemma_utf8_len_concat(chars@.take(index as int), seq![chars@[index as int]]);
            lemma_utf16_len_concat(chars@.take(index as int), seq![chars@[index as int]]);
            lemma_single_char_lens(chars@[index as int]);
            assert(chars@.skip(index as int).drop_first() =~= chars@.skip(index + 1));
        }
        utf8 += char_len_utf8(chars[index]);
        utf16 += char_len_utf16(chars[index]);
        index += 1;
    }
    utf16
}

/// Converting a character boundary to UTF-16 and back gives the same byte
/// offset.
pub proof fn lemma_utf16_round_trip(text: Seq<char>, chars: int)
    requires
        0 <= chars <= text.len(),
    ensures
        utf8_offset_for_utf16(text, utf16_offset_for_utf8(text, utf8_len(text.take(chars))))
            == utf8_len(text.take(chars)),
    decreases text.len(),
{
    if chars > 0 {
        let rest = text.drop_first();
        assert(text.take(chars) =~= seq![text[0]] + rest.take(chars - 1));
        lemma_utf8_len_concat(seq![text[0]], rest.take(chars - 1));
        lemma_single_char_lens(text[0]);
        lemma_utf8_len_nonnegative(rest.take(chars - 1));
        lemma_utf16_round_trip(rest, chars - 1);
        let inner = utf16_offset_for_utf8(rest, utf8_len(rest.take(chars - 1)));
        lemma_utf16_offset_nonnegative(rest, utf8_len(rest.take(chars - 1)));
        assert(utf16_offset_for_utf8(text, utf8_len(text.take(chars))) == utf16_width(text[0]) + inner);
    } else {
        assert(text.take(0) =~= Seq::<char>::empty());
    }
}

/// A character boundary of a text's UTF-8 bytes is where some prefix of its
/// characters ends.
proof fn lemma_boundary_prefix(text: Seq<char>, offset: int) -> (chars: int)
    requires
        vstd::utf8::is_char_boundary(vstd::utf8::encode_utf8(text), offset),
    ensures
        0 <= chars <= text.len(),
        utf8_len(text.take(chars)) == offset,
    decreases text.len(),
{
    broadcast use vstd::utf8::encode_utf8_valid_utf8;

    let bytes = vstd::utf8::encode_utf8(text);
    if offset == 0 {
        assert(text.take(0) =~= Seq::<char>::empty());
        0
    } else {
        lemma_encode_utf8_len(text);
        if text.len() == 0 {
            assert(bytes.len() == 0);
            assert(false);
        }
        vstd::utf8::encode_utf8_first_scalar(text);
        crate::strings::lemma_encode_scalar_len(text[0]);
        assert(vstd::utf8::pop_first_scalar(bytes) =~= vstd::utf8::encode_utf8(text.drop_first()));
        let k = lemma_boundary_prefix(text.drop_first(), offset - utf8_width(text[0]));
        assert(text.take(k + 1).drop_first() =~= text.drop_first().take(k));
        assert(text.take(k + 1)[0] == text[0]);
        k + 1
    }
}

/// Converting any character boundary of a text's bytes to a UTF-16 offset
/// and back gives the same byte offset.
pub proof fn lemma_utf16_round_trip_at_boundary(text: Seq<char>, offset: int)
    requires
        vstd::utf8::is_char_boundary(vstd::utf8::encode_utf8(text), offset),
    ensures
        utf8_offset_for_utf16(text, utf16_offset_for_utf8(text, offset)) == offset,
{
    let chars = lemma_boundary_prefix(text, offset);
    lemma_utf16_round_trip(text, chars);
}

proof fn lemma_utf16_offset_nonnegative(text: Seq<char>, offset: int)
    ensures
        utf16_offset_for_utf8(text, offset) >= 0,
    decreases text.len(),
{
    if text.len() > 0 && offset > 0 {
        lemma_utf16_offset_nonnegative(text.drop_first(), offset - utf8_width(text[0]));
    }
}

} // verus!
