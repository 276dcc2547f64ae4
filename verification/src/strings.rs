//! Character-level building blocks shared by the other modules: UTF-8 and
//! UTF-16 widths, whitespace, ASCII case, decimal rendering, and the small
//! string operations the verified code is written in.

use vstd::prelude::*;
use vstd::std_specs::iter::IteratorSpec;
use vstd::string::StringSliceAdditionalSpecFns;
use vstd::string::StringExecFns;
use vstd::utf8::decode_utf8;
use vstd::utf8::encode_utf8;
use vstd::utf8::encode_scalar;

verus! {

broadcast use vstd::string::group_string_axioms;

/// Number of bytes the UTF-8 encoding of `c` takes.
pub open spec fn utf8_width(c: char) -> int {
    if (c as u32) < 0x80 {
        1
    } else if (c as u32) < 0x800 {
        2
    } else if (c as u32) < 0x10000 {
        3
    } else {
        4
    }
}

/// Number of UTF-16 code units `c` takes.
pub open spec fn utf16_width(c: char) -> int {
    if (c as u32) < 0x10000 {
        1
    } else {
        2
    }
}

/// Byte length of the UTF-8 encoding of a character sequence.
pub open spec fn utf8_len(s: Seq<char>) -> int
    decreases s.len(),
{
    if s.len() == 0 {
        0
    } else {
        utf8_width(s[0]) + utf8_len(s.drop_first())
    }
}

/// Length of a character sequence in UTF-16 code units.
pub open spec fn utf16_len(s: Seq<char>) -> int
    decreases s.len(),
{
    if s.len() == 0 {
        0
    } else {
        utf16_width(s[0]) + utf16_len(s.drop_first())
    }
}

/// The concatenation of a sequence of character sequences.
pub open spec fn concat(parts: Seq<Seq<char>>) -> Seq<char>
    decreases parts.len(),
{
    if parts.len() == 0 {
        Seq::empty()
    } else {
        concat(parts.drop_last()) + parts.last()
    }
}

pub proof fn lemma_utf8_len_nonnegative(s: Seq<char>)
    ensures
        utf8_len(s) >= 0,
        s.len() > 0 ==> utf8_len(s) > 0,
    decreases s.len(),
{
    if s.len() > 0 {
        lemma_utf8_len_nonnegative(s.drop_first());
    }
}

pub proof fn lemma_single_char_lens(c: char)
    ensures
        utf8_len(seq![c]) == utf8_width(c),
        utf16_len(seq![c]) == utf16_width(c),
        utf16_width(c) <= utf8_width(c),
{
    assert(seq![c].drop_first() =~= Seq::<char>::empty());
    assert(utf8_len(Seq::<char>::empty()) == 0);
    assert(utf16_len(Seq::<char>::empty()) == 0);
}

pub proof fn lemma_utf8_len_concat(a: Seq<char>, b: Seq<char>)
    ensures
        utf8_len(a + b) == utf8_len(a) + utf8_len(b),
    decreases a.len(),
{
    if a.len() == 0 {
        assert(a + b =~= b);
    } else {
        assert((a + b).drop_first() =~= a.drop_first() + b);
        lemma_utf8_len_concat(a.drop_first(), b);
    }
}

pub proof fn lemma_utf16_len_concat(a: Seq<char>, b: Seq<char>)
    ensures
        utf16_len(a + b) == utf16_len(a) + utf16_len(b),
    decreases a.len(),
{
    if a.len() == 0 {
        assert(a + b =~= b);
    } else {
        assert((a + b).drop_first() =~= a.drop_first() + b);
        lemma_utf16_len_concat(a.drop_first(), b);
    }
}

pub proof fn lemma_encode_scalar_len(c: char)
    ensures
        encode_scalar(c as u32).len() == utf8_width(c),
{
    vstd::utf8::char_is_scalar(c);
}

/// The byte length Rust reports for a string is `utf8_len` of its characters.
pub proof fn lemma_encode_utf8_len(s: Seq<char>)
    ensures
        encode_utf8(s).len() == utf8_len(s),
    decreases s.len(),
{
    if s.len() > 0 {
        lemma_encode_scalar_len(s[0]);
        lemma_encode_utf8_len(s.drop_first());
    }
}

pub proof fn lemma_concat_push(parts: Seq<Seq<char>>, part: Seq<char>)
    ensures
        concat(parts.push(part)) == concat(parts) + part,
{
    assert(parts.push(part).drop_last() =~= parts);
}

/// `char::len_utf8`.
pub fn char_len_utf8(c: char) -> (width: usize)
    ensures
        width == utf8_width(c),
{
    let code = c as u32;
    if code < 0x80 {
        1
    } else if code < 0x800 {
        2
    } else if code < 0x10000 {
        3
    } else {
        4
    }
}

/// `char::len_utf16`.
pub fn char_len_utf16(c: char) -> (width: usize)
    ensures
        width == utf16_width(c),
{
    if (c as u32) < 0x10000 {
        1
    } else {
        2
    }
}

/// The Unicode `White_Space` property, which is what `char::is_whitespace`
/// tests.
pub open spec fn is_whitespace_char(c: char) -> bool {
    let v = c as u32;
    ||| v == 0x20
    ||| 0x09 <= v <= 0x0D
    ||| v == 0x85
    ||| v == 0xA0
    ||| v == 0x1680
    ||| 0x2000 <= v <= 0x200A
    ||| v == 0x2028
    ||| v == 0x2029
    ||| v == 0x202F
    ||| v == 0x205F
    ||| v == 0x3000
}

/// `char::is_whitespace`.
pub fn is_whitespace(c: char) -> (result: bool)
    ensures
        result == is_whitespace_char(c),
{
    let v = c as u32;
    v == 0x20 || (0x09 <= v && v <= 0x0D) || v == 0x85 || v == 0xA0 || v == 0x1680 || (0x2000
        <= v && v <= 0x200A) || v == 0x2028 || v == 0x2029 || v == 0x202F || v == 0x205F || v
        == 0x3000
}

/// Appends one character to a string.
#[verifier::external_body]
pub(crate) fn push_char(text: &mut String, character: char)
    ensures
        final(text)@ == old(text)@.push(character),
{
    text.push(character);
}

/// Appends a string slice to a string.
pub(crate) fn push_str(text: &mut String, tail: &str)
    ensures
        final(text)@ == old(text)@ + tail@,
{
    text.append(tail);
}

/// The characters of a string slice, in order.
pub fn chars_of(text: &str) -> (result: Vec<char>)
    ensures
        result@ == text@,
{
    let mut result: Vec<char> = Vec::new();
    let mut iter = text.chars();
    let ghost all = text@;
    loop
        invariant
            iter.remaining() == all.skip(result@.len() as int),
            result@ == all.take(result@.len() as int),
            result@.len() <= all.len(),
        ensures
            result@ == all,
        decreases all.len() - result@.len(),
    {
        match iter.next() {
            Some(c) => {
                result.push(c);
            }
            None => {
                break;
            }
        }
    }
    result
}

/// The string made of `chars[start..end]`.
pub fn string_from_range(chars: &Vec<char>, start: usize, end: usize) -> (result: String)
    requires
        start <= end <= chars@.len(),
    ensures
        result@ == chars@.subrange(start as int, end as int),
{
    let mut result = String::new();
    let mut index = start;
    while index < end
        invariant
            start <= index <= end <= chars@.len(),
            result@ == chars@.subrange(start as int, index as int),
        decreases end - index,
    {
        push_char(&mut result, chars[index]);
        index += 1;
    }
    result
}

/// The string made of all of `chars`.
pub fn string_from_chars(chars: &Vec<char>) -> (result: String)
    ensures
        result@ == chars@,
{
    let result = string_from_range(chars, 0, chars.len());
    assert(chars@.subrange(0, chars@.len() as int) =~= chars@);
    result
}

/// A copy of a string slice.
pub fn owned(text: &str) -> (result: String)
    ensures
        result@ == text@,
{
    let mut result = String::new();
    push_str(&mut result, text);
    assert(Seq::<char>::empty() + text@ =~= text@);
    result
}

/// Byte length of a string.
pub fn byte_len(text: &String) -> (len: usize)
    ensures
        len == utf8_len(text@),
{
    let len = text.as_str().as_bytes().len();
    proof {
        lemma_encode_utf8_len(text@);
    }
    len
}


/// `s` without its leading whitespace.
pub open spec fn trim_start_chars(s: Seq<char>) -> Seq<char>
    decreases s.len(),
{
    if s.len() > 0 && is_whitespace_char(s[0]) {
        trim_start_chars(s.drop_first())
    } else {
        s
    }
}

/// `s` without its trailing whitespace.
pub open spec fn trim_end_chars(s: Seq<char>) -> Seq<char>
    decreases s.len(),
{
    if s.len() > 0 && is_whitespace_char(s.last()) {
        trim_end_chars(s.drop_last())
    } else {
        s
    }
}

/// `str::trim`: `s` without leading and trailing whitespace.
pub open spec fn trim_chars(s: Seq<char>) -> Seq<char> {
    trim_end_chars(trim_start_chars(s))
}

/// Removes leading and trailing whitespace, as `str::trim` does.
pub fn trim(text: &str) -> (result: String)
    ensures
        result@ == trim_chars(text@),
{
    let chars = chars_of(text);
    let mut start: usize = 0;
    assert(chars@.skip(0) =~= chars@);
    while start < chars.len() && is_whitespace(chars[start])
        invariant
            start <= chars@.len(),
            trim_start_chars(chars@) == trim_start_chars(chars@.skip(start as int)),
        decreases chars@.len() - start,
    {
        assert(chars@.skip(start as int).drop_first() =~= chars@.skip(start + 1));
        start += 1;
    }
    let mut end: usize = chars.len();
    let ghost rest = chars@.skip(start as int);
    assert(chars@.subrange(start as int, end as int) =~= rest);
    while end > start && is_whitespace(chars[end - 1])
        invariant
            start <= end <= chars@.len(),
            rest == chars@.skip(start as int),
            trim_end_chars(rest) == trim_end_chars(chars@.subrange(start as int, end as int)),
        decreases end,
    {
        assert(chars@.subrange(start as int, end as int).drop_last() =~= chars@.subrange(
            start as int,
            end - 1,
        ));
        end -= 1;
    }
    string_from_range(&chars, start, end)
}

/// Whether two strings hold the same characters.
pub fn same_text(a: &str, b: &str) -> (result: bool)
    ensures
        result == (a@ == b@),
{
    broadcast use vstd::utf8::encode_utf8_decode_utf8;

    let left = a.as_bytes();
    let right = b.as_bytes();
    if left.len() != right.len() {
        return false;
    }
    let mut index: usize = 0;
    while index < left.len()
        invariant
            index <= left@.len(),
            left@.len() == right@.len(),
            left@ == a.spec_bytes(),
            right@ == b.spec_bytes(),
            forall|i: int| 0 <= i < index ==> left@[i] == right@[i],
        decreases left@.len() - index,
    {
        if left[index] != right[index] {
            assert(left@[index as int] != right@[index as int]);
            return false;
        }
        index += 1;
    }
    assert(left@ =~= right@);
    assert(decode_utf8(encode_utf8(a@)) == a@);
    assert(decode_utf8(encode_utf8(b@)) == b@);
    true
}

/// Whether `text` starts with `prefix`.
pub fn starts_with_text(text: &str, prefix: &str) -> (result: bool)
    ensures
        result == (prefix@.len() <= text@.len() && text@.take(prefix@.len() as int) == prefix@),
{
    let left = chars_of(text);
    let right = chars_of(prefix);
    if right.len() > left.len() {
        return false;
    }
    let mut index: usize = 0;
    while index < right.len()
        invariant
            index <= right@.len() <= left@.len(),
            left@ == text@,
            right@ == prefix@,
            forall|i: int| 0 <= i < index ==> left@[i] == right@[i],
        decreases right@.len() - index,
    {
        if left[index] != right[index] {
            assert(left@.take(right@.len() as int)[index as int] == left@[index as int]);
            assert(left@.take(right@.len() as int)[index as int] != right@[index as int]);
            return false;
        }
        index += 1;
    }
    assert(left@.take(right@.len() as int) =~= right@);
    true
}

/// The ASCII lowercase of a character.
pub open spec fn ascii_lower(c: char) -> char {
    if 'A' <= c <= 'Z' {
        ((c as u32) + 32) as char
    } else {
        c
    }
}

/// `str::to_ascii_lowercase`.
pub open spec fn ascii_lowercase(s: Seq<char>) -> Seq<char> {
    s.map_values(|c: char| ascii_lower(c))
}

pub fn to_ascii_lower(c: char) -> (result: char)
    ensures
        result == ascii_lower(c),
{
    if 'A' <= c && c <= 'Z' {
        let code = (c as u32) + 32;
        proof {
            assert(('a' as u32) <= code <= ('z' as u32));
        }
        char_from_ascii_code(code)
    } else {
        c
    }
}

fn char_from_ascii_code(code: u32) -> (result: char)
    requires
        ('a' as u32) <= code <= ('z' as u32),
    ensures
        result == code as char,
{
    (code as u8) as char
}

/// The ASCII-lowercased copy of a text.
pub fn to_ascii_lowercase(text: &str) -> (result: String)
    ensures
        result@ == ascii_lowercase(text@),
{
    let chars = chars_of(text);
    let mut result = String::new();
    let mut index: usize = 0;
    while index < chars.len()
        invariant
            index <= chars@.len(),
            chars@ == text@,
            result@ == ascii_lowercase(chars@.take(index as int)),
        decreases chars@.len() - index,
    {
        push_char(&mut result, to_ascii_lower(chars[index]));
        assert(ascii_lowercase(chars@.take(index + 1)) =~= ascii_lowercase(
            chars@.take(index as int),
        ).push(ascii_lower(chars@[index as int])));
        index += 1;
    }
    assert(chars@.take(chars@.len() as int) =~= chars@);
    result
}

/// The decimal digits of `n`, most significant first, without leading zeros
/// ("0" for zero).
pub open spec fn decimal(n: nat) -> Seq<char>
    decreases n,
{
    if n < 10 {
        seq![digit_char((n % 10) as nat)]
    } else {
        decimal(n / 10).push(digit_char((n % 10) as nat))
    }
}

pub open spec fn digit_char(d: nat) -> char {
    ((('0' as u32) + d) as u32) as char
}

fn digit(d: u128) -> (c: char)
    requires
        d < 10,
    ensures
        c == digit_char(d as nat),
{
    ((48 + d) as u8) as char
}

/// The decimal rendering of `n`, as `to_string` on an unsigned integer
/// produces it.
pub fn decimal_string(n: u128) -> (result: String)
    ensures
        result@ == decimal(n as nat),
{
    let mut digits: Vec<char> = Vec::new();
    let mut rest = n;
    loop
        invariant_except_break
            decimal(n as nat) == decimal(rest as nat) + digits@.reverse(),
        invariant
            rest <= n,
        ensures
            decimal(n as nat) == digits@.reverse(),
        decreases rest,
    {
        proof {
            reveal_with_fuel(decimal, 2);
        }
        digits.push(digit(rest % 10));
        if rest < 10 {
            assert(digits@.reverse() =~= seq![digit_char((rest % 10) as nat)] + digits@.drop_last().reverse());
            break;
        }
        assert(decimal(rest as nat) == decimal((rest / 10) as nat).push(digit_char((rest % 10) as nat)));
        assert(digits@.reverse() =~= seq![digit_char((rest % 10) as nat)] + digits@.drop_last().reverse());
        rest = rest / 10;
    }
    let mut result = String::new();
    let mut index: usize = digits.len();
    while index > 0
        invariant
            index <= digits@.len(),
            result@ == digits@.reverse().take(digits@.len() - index),
        decreases index,
    {
        index -= 1;
        push_char(&mut result, digits[index]);
        assert(digits@.reverse().take(digits@.len() - index) =~= digits@.reverse().take(
            digits@.len() - index - 1,
        ).push(digits@[index as int]));
    }
    assert(digits@.reverse().take(digits@.len() as int) =~= digits@.reverse());
    result
}


/// `parts` joined with `separator` between consecutive parts.
pub open spec fn join(parts: Seq<Seq<char>>, separator: Seq<char>) -> Seq<char>
    decreases parts.len(),
{
    if parts.len() == 0 {
        Seq::empty()
    } else if parts.len() == 1 {
        parts[0]
    } else {
        join(parts.drop_last(), separator) + separator + parts.last()
    }
}

/// Joins strings with a separator, as `[String]::join` does.
pub fn join_strings(parts: &Vec<String>, separator: &str) -> (joined: String)
    ensures
        joined@ == join(parts.deep_view(), separator@),
{
    let ghost view = parts.deep_view();
    let mut joined = String::new();
    let mut index: usize = 0;
    while index < parts.len()
        invariant
            index <= parts@.len(),
            view == parts.deep_view(),
            view.len() == parts@.len(),
            joined@ == join(view.take(index as int), separator@),
        decreases parts@.len() - index,
    {
        if index > 0 {
            push_str(&mut joined, separator);
        }
        push_str(&mut joined, parts[index].as_str());
        proof {
            assert(view.take(index + 1).drop_last() =~= view.take(index as int));
            assert(view[index as int] == parts@[index as int]@);
            if index == 0 {
                assert(joined@ =~= Seq::<char>::empty() + view[0]);
            }
        }
        index += 1;
    }
    assert(view.take(parts@.len() as int) =~= view);
    joined
}

/// A path extended by `name`, as `Path::join` builds it on Unix: an absolute
/// `name` replaces the base; otherwise a `/` is inserted unless the base is
/// empty or already ends with one.
pub open spec fn join_path(base: Seq<char>, name: Seq<char>) -> Seq<char> {
    if name.len() > 0 && name[0] == '/' {
        name
    } else if base.len() == 0 || base.last() == '/' {
        base + name
    } else {
        base + seq!['/'] + name
    }
}

/// Calls `Path::join`, whose documented result is `join_path`: an absolute
/// name replaces the base, a relative one is appended after a separator.
#[verifier::external_body]
pub(crate) fn join_path_text(base: &str, name: &str) -> (joined: String)
    ensures
        joined@ == join_path(base@, name@),
{
    std::path::Path::new(base).join(name).to_string_lossy().into_owned()
}


/// Appends a string to a list of strings.
pub fn push_string(list: &mut Vec<String>, item: String)
    ensures
        final(list).deep_view() == old(list).deep_view().push(item@),
        final(list)@.len() == old(list)@.len() + 1,
{
    let ghost before = list.deep_view();
    let ghost view = item@;
    list.push(item);
    assert(list.deep_view() =~= before.push(view));
}

/// The first `limit` characters of `value`, or all of them.
pub open spec fn head_chars_spec(value: Seq<char>, limit: nat) -> Seq<char> {
    if value.len() <= limit {
        value
    } else {
        value.take(limit as int)
    }
}

/// The first `limit` characters of `value`, as `chars().take(limit)`
/// collects them.
pub fn head_chars(value: &str, limit: usize) -> (result: String)
    ensures
        result@ == head_chars_spec(value@, limit as nat),
{
    let chars = chars_of(value);
    let end = if chars.len() <= limit {
        chars.len()
    } else {
        limit
    };
    let result = string_from_range(&chars, 0, end);
    assert(chars@.subrange(0, chars@.len() as int) =~= chars@);
    result
}

/// A copy of every string, in order.
pub fn copy_strings(items: &Vec<String>) -> (copies: Vec<String>)
    ensures
        copies@ == items@,
{
    let mut copies: Vec<String> = Vec::new();
    let mut index: usize = 0;
    while index < items.len()
        invariant
            index <= items@.len(),
            copies@ == items@.take(index as int),
        decreases items@.len() - index,
    {
        copies.push(items[index].clone());
        assert(copies@ =~= items@.take(index + 1));
        index += 1;
    }
    assert(items@.take(items@.len() as int) =~= items@);
    copies
}

} // verus!
