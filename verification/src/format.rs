//! Human-readable text for nodes and timestamps: status lines, footers,
//! one-line excerpts, relative times, and the image kind a file name
//! announces.

use vstd::prelude::*;

use crate::boards::{shows_attached_text, BoardNode};
use crate::model::{NodeStatus, StopReason};
use crate::storage::{extension_of, path_extension};
use crate::strings::{
    ascii_lowercase, chars_of, decimal, decimal_string, owned, push_char, push_str, same_text,
    to_ascii_lowercase,
};

verus! {

/// The first `limit` characters of `text`, each line break made a space.
pub open spec fn single_line_spec(text: Seq<char>, limit: nat) -> Seq<char> {
    let kept = if text.len() <= limit {
        text
    } else {
        text.take(limit as int)
    };
    kept.map_values(|c: char| if c == '\n' || c == '\r' { ' ' } else { c })
}

/// A one-line excerpt of `text`: its first `max_chars` characters, with
/// line breaks made spaces.
pub fn single_line_excerpt(text: &str, max_chars: usize) -> (excerpt: String)
    ensures
        excerpt@ == single_line_spec(text@, max_chars as nat),
{
    let chars = chars_of(text);
    let end = if chars.len() <= max_chars {
        chars.len()
    } else {
        max_chars
    };
    let ghost kept = if text@.len() <= max_chars {
        text@
    } else {
        text@.take(max_chars as int)
    };
    assert(kept.len() == end);
    let mut excerpt = String::new();
    let mut index: usize = 0;
    while index < end
        invariant
            index <= end <= chars@.len(),
            chars@ == text@,
            kept.len() == end,
            forall|i: int| 0 <= i < end ==> kept[i] == chars@[i],
            excerpt@ == kept.take(index as int).map_values(
                |c: char|
                    if c == '\n' || c == '\r' {
                        ' '
                    } else {
                        c
                    },
            ),
        decreases end - index,
    {
        let c = chars[index];
        let shown = if c == '\n' || c == '\r' {
            ' '
        } else {
            c
        };
        push_char(&mut excerpt, shown);
        assert(kept.take(index + 1) =~= kept.take(index as int).push(c));
        assert(excerpt@ =~= kept.take(index + 1).map_values(
            |c: char|
                if c == '\n' || c == '\r' {
                    ' '
                } else {
                    c
                },
        ));
        index += 1;
    }
    assert(kept.take(end as int) =~= kept);
    excerpt
}

/// The message of a node's status line, before it is cut to one line.
pub open spec fn status_text(node: BoardNode) -> Seq<char> {
    match node.status {
        NodeStatus::Error => match node.error {
            Some(error) => error@,
            None => "Generation failed"@,
        },
        NodeStatus::Stopped => match node.stop_reason {
            Some(StopReason::User) => "Stopped by you."@,
            Some(StopReason::AppQuit) => "Stopped when CodexImage quit."@,
            Some(StopReason::Deleted) => "Stopped when this node was deleted."@,
            None => "Stopped."@,
        },
        _ => Seq::empty(),
    }
}

/// The first 220 characters of the status message, newlines made spaces.
pub open spec fn status_message_spec(node: BoardNode) -> Seq<char> {
    let text = status_text(node);
    let kept = if text.len() <= 220 {
        text
    } else {
        text.take(220)
    };
    kept.map_values(|c: char| if c == '\n' { ' ' } else { c })
}

/// The status line of an error or stopped node; empty for others.
pub fn status_message(node: &BoardNode) -> (message: String)
    ensures
        message@ == status_message_spec(*node),
{
    let text: &str = match node.status {
        NodeStatus::Error => match &node.error {
            Some(error) => error.as_str(),
            None => "Generation failed",
        },
        NodeStatus::Stopped => match node.stop_reason {
            Some(StopReason::User) => "Stopped by you.",
            Some(StopReason::AppQuit) => "Stopped when CodexImage quit.",
            Some(StopReason::Deleted) => "Stopped when this node was deleted.",
            None => "Stopped.",
        },
        NodeStatus::Running | NodeStatus::Done => "",
    };
    proof {
        reveal_strlit("");
    }
    assert(text@ == status_text(*node));
    let chars = chars_of(text);
    let end: usize = if chars.len() <= 220 {
        chars.len()
    } else {
        220
    };
    let ghost kept = if text@.len() <= 220 {
        text@
    } else {
        text@.take(220)
    };
    let mut message = String::new();
    let mut index: usize = 0;
    while index < end
        invariant
            index <= end <= chars@.len(),
            chars@ == text@,
            kept.len() == end,
            forall|i: int| 0 <= i < end ==> kept[i] == chars@[i],
            message@ == kept.take(index as int).map_values(|c: char| if c == '\n' { ' ' } else { c }),
        decreases end - index,
    {
        let c = chars[index];
        let shown = if c == '\n' {
            ' '
        } else {
            c
        };
        push_char(&mut message, shown);
        assert(kept.take(index + 1) =~= kept.take(index as int).push(c));
        assert(message@ =~= kept.take(index + 1).map_values(
            |c: char|
                if c == '\n' {
                    ' '
                } else {
                    c
                },
        ));
        index += 1;
    }
    assert(kept.take(end as int) =~= kept);
    message
}

/// A one-line excerpt of the text the agent attached to an error or
/// stopped node; empty when the card already shows that text elsewhere.
pub fn attached_text_excerpt(node: &BoardNode) -> (excerpt: String)
    ensures
        excerpt@ == (if shows_attached_text(*node) {
            single_line_spec(node.text@, 90)
        } else {
            Seq::empty()
        }),
{
    match node.attached_text() {
        Some(text) => single_line_excerpt(text, 90),
        None => String::new(),
    }
}

/// The short status of a node: what it is doing, or how many images it
/// made.
pub open spec fn status_label_spec(node: BoardNode) -> Seq<char> {
    match node.status {
        NodeStatus::Running => "Generating"@,
        NodeStatus::Error => "Failed"@,
        NodeStatus::Stopped => "Stopped"@,
        NodeStatus::Done => decimal(node.images@.len()) + if node.images@.len() == 1 {
            " image"@
        } else {
            " images"@
        },
    }
}

pub fn status_label(node: &BoardNode) -> (label: String)
    ensures
        label@ == status_label_spec(*node),
{
    match node.status {
        NodeStatus::Running => owned("Generating"),
        NodeStatus::Error => owned("Failed"),
        NodeStatus::Stopped => owned("Stopped"),
        NodeStatus::Done => {
            let count = node.images.len();
            let mut label = decimal_string(count as u128);
            if count == 1 {
                push_str(&mut label, " image");
            } else {
                push_str(&mut label, " images");
            }
            label
        },
    }
}

/// The footer of a finished node: how many images it made when more than
/// one, an excerpt of the agent's text, and the tokens it used, given
/// already written out as `token_text`.
pub open spec fn done_footer_spec(node: BoardNode, token_text: Seq<char>) -> Seq<char> {
    let count = node.images@.len();
    let head = "✓ Finished"@ + if count > 1 {
        " · "@ + decimal(count) + " images"@
    } else {
        Seq::empty()
    };
    let with_text = if node.text@.len() > 0 {
        head + " · "@ + single_line_spec(node.text@, 90)
    } else {
        head
    };
    if crate::boards::node_tokens(node) > 0 {
        with_text + " · "@ + token_text + " tok"@
    } else {
        with_text
    }
}

/// The footer of a finished node; `token_text` is its token count as the
/// card writes it.
pub fn done_footer(node: &BoardNode, token_text: &str) -> (footer: String)
    requires
        crate::boards::node_tokens(*node) <= u64::MAX,
    ensures
        footer@ == done_footer_spec(*node, token_text@),
{
    let mut footer = owned("✓ Finished");
    let count = node.images.len();
    if count > 1 {
        push_str(&mut footer, " · ");
        let number = decimal_string(count as u128);
        push_str(&mut footer, number.as_str());
        push_str(&mut footer, " images");
    }
    if !node.text.as_str().is_empty() {
        push_str(&mut footer, " · ");
        let excerpt = single_line_excerpt(node.text.as_str(), 90);
        push_str(&mut footer, excerpt.as_str());
    }
    if node.token_count() > 0 {
        push_str(&mut footer, " · ");
        push_str(&mut footer, token_text);
        push_str(&mut footer, " tok");
    }
    proof {
        let head = "✓ Finished"@ + if count > 1 {
            " · "@ + decimal(count as nat) + " images"@
        } else {
            Seq::empty()
        };
        assert(head + Seq::<char>::empty() =~= head);
    }
    assert(footer@ =~= done_footer_spec(*node, token_text@));
    footer
}

/// How long ago `timestamp` was at `now`, both in milliseconds: `now`
/// under a minute, then whole minutes, hours or days.
pub open spec fn time_ago_spec(now: i64, timestamp: i64) -> Seq<char> {
    let elapsed = (now - timestamp) / 1000;
    let seconds = if now - timestamp < 0 || elapsed < 0 {
        0
    } else {
        elapsed
    };
    if seconds < 60 {
        "now"@
    } else if seconds < 3600 {
        decimal((seconds / 60) as nat) + "m ago"@
    } else if seconds < 86400 {
        decimal((seconds / 3600) as nat) + "h ago"@
    } else {
        decimal((seconds / 86400) as nat) + "d ago"@
    }
}

/// How long ago `timestamp` was at `now`.
pub fn time_ago_at(now: i64, timestamp: i64) -> (text: String)
    ensures
        text@ == time_ago_spec(now, timestamp),
{
    let difference: i128 = (now as i128) - (timestamp as i128);
    let seconds: i128 = if difference < 0 {
        0
    } else {
        difference / 1000
    };
    let mut text;
    if seconds < 60 {
        text = owned("now");
    } else if seconds < 3600 {
        text = decimal_string((seconds / 60) as u128);
        push_str(&mut text, "m ago");
    } else if seconds < 86400 {
        text = decimal_string((seconds / 3600) as u128);
        push_str(&mut text, "h ago");
    } else {
        text = decimal_string((seconds / 86400) as u128);
        push_str(&mut text, "d ago");
    }
    text
}

#[verifier::external_type_specification]
#[verifier::external_body]
pub struct ExSystemTime(std::time::SystemTime);

/// Calls `SystemTime::now`. Nothing is claimed of the reading.
#[verifier::external_body]
fn system_now() -> (now: std::time::SystemTime) {
    std::time::SystemTime::now()
}

/// Calls `SystemTime::duration_since(UNIX_EPOCH)` on `time` and takes the
/// whole nanoseconds of the distance: `Ok` after the epoch, `Err` with the
/// distance before it. Nothing is claimed of the value: it is the clock's.
#[verifier::external_body]
fn nanos_around_epoch(time: &std::time::SystemTime) -> (nanos: Result<u128, u128>) {
    match time.duration_since(std::time::UNIX_EPOCH) {
        Ok(after) => Ok(after.as_nanos()),
        Err(before) => Err(before.duration().as_nanos()),
    }
}

/// Milliseconds since the epoch of a clock reading given as nanoseconds
/// after (`Ok`) or before (`Err`) it, rounded down as a timestamp's
/// milliseconds are, and held within `-i64::MAX..=i64::MAX`.
pub open spec fn epoch_millis(reading: Result<u128, u128>) -> int {
    match reading {
        Ok(after) => {
            let millis = after as int / 1_000_000;
            if millis > i64::MAX {
                i64::MAX as int
            } else {
                millis
            }
        },
        Err(before) => {
            let millis = (before as int + 999_999) / 1_000_000;
            if millis > i64::MAX {
                -i64::MAX
            } else {
                -millis
            }
        },
    }
}

/// The milliseconds since the epoch of a clock reading, rounded down.
pub fn millis_from_epoch_nanos(reading: Result<u128, u128>) -> (millis: i64)
    ensures
        millis == epoch_millis(reading),
{
    match reading {
        Ok(after) => {
            let millis = after / 1_000_000;
            if millis <= 0x7fff_ffff_ffff_ffff {
                millis as i64
            } else {
                i64::MAX
            }
        },
        Err(before) => {
            let whole = before / 1_000_000;
            let millis = if before % 1_000_000 == 0 {
                whole
            } else {
                whole + 1
            };
            assert(millis == (before as int + 999_999) / 1_000_000) by (nonlinear_arith)
                requires
                    whole == before as int / 1_000_000,
                    millis == (if before as int % 1_000_000 == 0 { whole as int } else { whole + 1 }),
                    before >= 0,
            ;
            if millis <= 0x7fff_ffff_ffff_ffff {
                -(millis as i64)
            } else {
                -i64::MAX
            }
        },
    }
}

/// The current time in milliseconds since the Unix epoch, by the system
/// clock: negative for a clock set before the epoch, rounded down.
pub fn now_ms() -> (now: i64)
    ensures
        exists|reading: Result<u128, u128>| now == epoch_millis(reading),
        now >= -i64::MAX,
{
    let time = system_now();
    let reading = nanos_around_epoch(&time);
    millis_from_epoch_nanos(reading)
}

/// How long ago `timestamp` was, by the clock.
pub fn time_ago(timestamp: i64) -> (text: String)
    ensures
        exists|now: i64| text@ == time_ago_spec(now, timestamp),
{
    let now = now_ms();
    time_ago_at(now, timestamp)
}

/// The image formats the canvas decodes.
#[derive(Clone, Copy, Debug, PartialEq, Eq, Structural)]
pub enum ImageKind {
    Png,
    Jpeg,
    Webp,
    Gif,
    Svg,
    Bmp,
    Tiff,
    Ico,
    Pnm,
}

/// The image format a lowercase extension announces.
pub open spec fn kind_for_extension(extension: Seq<char>) -> Option<ImageKind> {
    if extension == "png"@ {
        Some(ImageKind::Png)
    } else if extension == "jpg"@ || extension == "jpeg"@ {
        Some(ImageKind::Jpeg)
    } else if extension == "webp"@ {
        Some(ImageKind::Webp)
    } else if extension == "gif"@ {
        Some(ImageKind::Gif)
    } else if extension == "svg"@ {
        Some(ImageKind::Svg)
    } else if extension == "bmp"@ {
        Some(ImageKind::Bmp)
    } else if extension == "tif"@ || extension == "tiff"@ {
        Some(ImageKind::Tiff)
    } else if extension == "ico"@ {
        Some(ImageKind::Ico)
    } else if extension == "pnm"@ || extension == "pbm"@ || extension == "pgm"@ || extension
        == "ppm"@ {
        Some(ImageKind::Pnm)
    } else {
        None
    }
}

/// The image format a path's extension announces, ignoring case.
pub fn image_kind_for_path(path: &str) -> (kind: Option<ImageKind>)
    ensures
        kind == match path_extension(path@) {
            Some(extension) => kind_for_extension(ascii_lowercase(extension)),
            None => None,
        },
{
    let extension = match extension_of(path) {
        Some(extension) => extension,
        None => {
            return None;
        },
    };
    let lower = to_ascii_lowercase(extension.as_str());
    let text = lower.as_str();
    if same_text(text, "png") {
        Some(ImageKind::Png)
    } else if same_text(text, "jpg") || same_text(text, "jpeg") {
        Some(ImageKind::Jpeg)
    } else if same_text(text, "webp") {
        Some(ImageKind::Webp)
    } else if same_text(text, "gif") {
        Some(ImageKind::Gif)
    } else if same_text(text, "svg") {
        Some(ImageKind::Svg)
    } else if same_text(text, "bmp") {
        Some(ImageKind::Bmp)
    } else if same_text(text, "tif") || same_text(text, "tiff") {
        Some(ImageKind::Tiff)
    } else if same_text(text, "ico") {
        Some(ImageKind::Ico)
    } else if same_text(text, "pnm") || same_text(text, "pbm") || same_text(text, "pgm")
        || same_text(text, "ppm") {
        Some(ImageKind::Pnm)
    } else {
        None
    }
}

} // verus!
