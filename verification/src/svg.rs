//! Text escaping for the SVG sprites that draw far-out cards.

use vstd::prelude::*;

use crate::strings::{chars_of, push_char, push_str};

verus! {

/// What one character becomes inside SVG text or an attribute value.
pub open spec fn xml_escape_char(c: char) -> Seq<char> {
    if c == '&' {
        "&amp;"@
    } else if c == '<' {
        "&lt;"@
    } else if c == '>' {
        "&gt;"@
    } else if c == '"' {
        "&quot;"@
    } else if c == '\'' {
        "&apos;"@
    } else {
        seq![c]
    }
}

/// `text` with the five XML special characters replaced by entities.
pub open spec fn xml_escaped(text: Seq<char>) -> Seq<char>
    decreases text.len(),
{
    if text.len() == 0 {
        Seq::empty()
    } else {
        xml_escaped(text.drop_last()) + xml_escape_char(text.last())
    }
}

/// Appends `value` to `output` with XML special characters escaped.
pub fn push_xml_escaped(output: &mut String, value: &str)
    ensures
        final(output)@ == old(output)@ + xml_escaped(value@),
{
    let chars = chars_of(value);
    let mut index: usize = 0;
    assert(chars@.take(0) =~= Seq::<char>::empty());
    assert(old(output)@ + Seq::<char>::empty() =~= old(output)@);
    while index < chars.len()
        invariant
            index <= chars@.len(),
            chars@ == value@,
            output@ == old(output)@ + xml_escaped(chars@.take(index as int)),
        decreases chars@.len() - index,
    {
        let c = chars[index];
        if c == '&' {
            push_str(output, "&amp;");
        } else if c == '<' {
            push_str(output, "&lt;");
        } else if c == '>' {
            push_str(output, "&gt;");
        } else if c == '"' {
            push_str(output, "&quot;");
        } else if c == '\'' {
            push_str(output, "&apos;");
        } else {
            push_char(output, c);
        }
        assert(chars@.take(index + 1).drop_last() =~= chars@.take(index as int));
        assert(output@ =~= old(output)@ + xml_escaped(chars@.take(index + 1)));
        index += 1;
    }
    assert(chars@.take(chars@.len() as int) =~= chars@);
}

} // verus!
