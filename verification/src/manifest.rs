//! The output manifest Codex returns at the end of a run, the checks that
//! decide whether its selection can be applied, and the normalization of the
//! image paths it names.

use vstd::prelude::*;
use vstd::string::StringSliceAdditionalSpecFns;
use vstd::utf8::{decode_utf8, encode_utf8, valid_utf8};

use crate::strings::{
    chars_of, join, join_strings, owned, push_string, same_text, starts_with_text,
    string_from_range, trim, trim_chars,
};

verus! {

/// One image the run selected, with a short label.
#[derive(Clone, Debug)]
pub struct FinalOutput {
    pub path: String,
    pub label: String,
}

/// The final response of a run.
#[derive(Clone, Debug)]
pub struct OutputManifest {
    pub summary: String,
    pub complete: bool,
    pub outputs: Vec<FinalOutput>,
}

/// Why a manifest or a selected path was refused.
#[derive(Clone, Copy, Debug, PartialEq, Eq, Structural)]
pub enum ManifestError {
    SummaryTooLong,
    EmptyPathOrLabel,
    LabelTooLong,
    DuplicatePath,
    CompleteWithoutOutputs,
    NotAbsolute,
    InvalidFileUrl,
    /// The two bytes after a `%` are not UTF-8 text: the sequence starting
    /// at byte `at` of the pair is cut off when `incomplete`, invalid
    /// otherwise.
    EscapeNotUtf8 { at: u8, incomplete: bool },
    InvalidEscape,
    NotUtf8,
}

impl ManifestError {
    /// The message shown for this error.
    pub fn message(&self) -> (text: &'static str)
        ensures
            text@ == manifest_error_message(*self),
    {
        match self {
            ManifestError::SummaryTooLong => "the final summary was too long",
            ManifestError::EmptyPathOrLabel => "an output had an empty path or label",
            ManifestError::LabelTooLong => "an output label was too long",
            ManifestError::DuplicatePath => "the same generated image was selected more than once",
            ManifestError::CompleteWithoutOutputs => "a complete manifest did not select any outputs",
            ManifestError::NotAbsolute => "a selected image path was not absolute",
            ManifestError::InvalidFileUrl => "a selected image used an invalid file URL",
            ManifestError::EscapeNotUtf8 { at, incomplete } => {
                if *at == 0 {
                    if *incomplete {
                        "incomplete utf-8 byte sequence from index 0"
                    } else {
                        "invalid utf-8 sequence of 1 bytes from index 0"
                    }
                } else if *incomplete {
                    "incomplete utf-8 byte sequence from index 1"
                } else {
                    "invalid utf-8 sequence of 1 bytes from index 1"
                }
            },
            ManifestError::InvalidEscape => "invalid file URL escape",
            ManifestError::NotUtf8 => "file URL was not UTF-8",
        }
    }
}

pub open spec fn manifest_error_message(error: ManifestError) -> Seq<char> {
    match error {
        ManifestError::SummaryTooLong => "the final summary was too long"@,
        ManifestError::EmptyPathOrLabel => "an output had an empty path or label"@,
        ManifestError::LabelTooLong => "an output label was too long"@,
        ManifestError::DuplicatePath => "the same generated image was selected more than once"@,
        ManifestError::CompleteWithoutOutputs => "a complete manifest did not select any outputs"@,
        ManifestError::NotAbsolute => "a selected image path was not absolute"@,
        ManifestError::InvalidFileUrl => "a selected image used an invalid file URL"@,
        ManifestError::EscapeNotUtf8 { at, incomplete } => if at == 0 {
            if incomplete {
                "incomplete utf-8 byte sequence from index 0"@
            } else {
                "invalid utf-8 sequence of 1 bytes from index 0"@
            }
        } else if incomplete {
            "incomplete utf-8 byte sequence from index 1"@
        } else {
            "invalid utf-8 sequence of 1 bytes from index 1"@
        },
        ManifestError::InvalidEscape => "invalid file URL escape"@,
        ManifestError::NotUtf8 => "file URL was not UTF-8"@,
    }
}

pub const MAX_SUMMARY_CHARS: usize = 500;

pub const MAX_LABEL_CHARS: usize = 120;

/// The trimmed paths of `outputs`.
pub open spec fn trimmed_paths(outputs: Seq<FinalOutput>) -> Seq<Seq<char>> {
    outputs.map_values(|output: FinalOutput| trim_chars(output.path@))
}

/// The first problem found scanning `outputs` in order: an empty trimmed
/// path or label, a label over the limit, or a path already selected.
pub open spec fn outputs_error(outputs: Seq<FinalOutput>) -> Option<ManifestError>
    decreases outputs.len(),
{
    if outputs.len() == 0 {
        None
    } else {
        match outputs_error(outputs.drop_last()) {
            Some(error) => Some(error),
            None => {
                let path = trim_chars(outputs.last().path@);
                let label = trim_chars(outputs.last().label@);
                if path.len() == 0 || label.len() == 0 {
                    Some(ManifestError::EmptyPathOrLabel)
                } else if label.len() > MAX_LABEL_CHARS {
                    Some(ManifestError::LabelTooLong)
                } else if trimmed_paths(outputs.drop_last()).contains(path) {
                    Some(ManifestError::DuplicatePath)
                } else {
                    None
                }
            },
        }
    }
}

/// Why `manifest` cannot be applied, or `None` when it can.
pub open spec fn manifest_error(manifest: OutputManifest) -> Option<ManifestError> {
    if trim_chars(manifest.summary@).len() > MAX_SUMMARY_CHARS {
        Some(ManifestError::SummaryTooLong)
    } else if outputs_error(manifest.outputs@) is Some {
        outputs_error(manifest.outputs@)
    } else if manifest.complete && manifest.outputs@.len() == 0 {
        Some(ManifestError::CompleteWithoutOutputs)
    } else {
        None
    }
}

/// Checks a decoded manifest and trims its summary, paths and labels.
#[verifier::loop_isolation(false)]
pub fn validate(manifest: OutputManifest) -> (result: Result<OutputManifest, ManifestError>)
    ensures
        match result {
            Ok(checked) => {
                &&& manifest_error(manifest) is None
                &&& checked.summary@ == trim_chars(manifest.summary@)
                &&& checked.complete == manifest.complete
                &&& checked.outputs@.len() == manifest.outputs@.len()
                &&& forall|i: int|
                    #![trigger checked.outputs@[i]]
                    0 <= i < checked.outputs@.len() ==> {
                        &&& checked.outputs@[i].path@ == trim_chars(
                            manifest.outputs@[i].path@,
                        )
                        &&& checked.outputs@[i].label@ == trim_chars(manifest.outputs@[i].label@)
                    }
            },
            Err(error) => manifest_error(manifest) == Some(error),
        },
{
    let summary = trim(manifest.summary.as_str());
    if chars_of(summary.as_str()).len() > MAX_SUMMARY_CHARS {
        return Err(ManifestError::SummaryTooLong);
    }
    let ghost outputs_view = manifest.outputs@;
    let mut outputs: Vec<FinalOutput> = Vec::new();
    let mut paths: Vec<String> = Vec::new();
    let mut index: usize = 0;
    while index < manifest.outputs.len()
        invariant
            index <= outputs_view.len(),
            outputs_view == manifest.outputs@,
            outputs_error(outputs_view.take(index as int)) is None,
            outputs@.len() == index,
            paths.deep_view() == trimmed_paths(outputs_view.take(index as int)),
            forall|i: int|
                #![trigger outputs@[i]]
                0 <= i < index ==> {
                    &&& outputs@[i].path@ == trim_chars(outputs_view[i].path@)
                    &&& outputs@[i].label@ == trim_chars(outputs_view[i].label@)
                },
        decreases outputs_view.len() - index,
    {
        let ghost prefix = outputs_view.take(index + 1);
        assert(prefix.drop_last() =~= outputs_view.take(index as int));
        let path = trim(manifest.outputs[index].path.as_str());
        let label = trim(manifest.outputs[index].label.as_str());
        let path_len = chars_of(path.as_str()).len();
        let label_len = chars_of(label.as_str()).len();
        assert(prefix.last() == outputs_view[index as int]);
        if path_len == 0 || label_len == 0 {
            proof {
                lemma_outputs_error_extends(outputs_view, (index + 1) as int);
            }
            return Err(ManifestError::EmptyPathOrLabel);
        }
        if label_len > MAX_LABEL_CHARS {
            proof {
                lemma_outputs_error_extends(outputs_view, (index + 1) as int);
            }
            return Err(ManifestError::LabelTooLong);
        }
        let mut seen: usize = 0;
        while seen < paths.len()
            invariant
                seen <= paths@.len(),
                forall|j: int| 0 <= j < seen ==> #[trigger] paths.deep_view()[j] != path@,
            decreases paths@.len() - seen,
        {
            if same_text(paths[seen].as_str(), path.as_str()) {
                proof {
                    assert(paths.deep_view()[seen as int] == path@);
                    assert(trimmed_paths(outputs_view.take(index as int)).contains(path@));
                    lemma_outputs_error_extends(outputs_view, (index + 1) as int);
                }
                return Err(ManifestError::DuplicatePath);
            }
            seen += 1;
        }
        assert(!trimmed_paths(outputs_view.take(index as int)).contains(path@));
        assert(trimmed_paths(prefix) =~= trimmed_paths(outputs_view.take(index as int)).push(path@));
        push_string(&mut paths, path.clone());
        outputs.push(FinalOutput { path, label });
        index += 1;
    }
    assert(outputs_view.take(outputs_view.len() as int) =~= outputs_view);
    if manifest.complete && manifest.outputs.len() == 0 {
        return Err(ManifestError::CompleteWithoutOutputs);
    }
    Ok(OutputManifest { summary, complete: manifest.complete, outputs })
}

/// An error found in a prefix of the outputs is the error of the whole list.
proof fn lemma_outputs_error_extends(outputs: Seq<FinalOutput>, end: int)
    requires
        0 <= end <= outputs.len(),
        outputs_error(outputs.take(end)) is Some,
    ensures
        outputs_error(outputs) == outputs_error(outputs.take(end)),
    decreases outputs.len() - end,
{
    if end < outputs.len() {
        assert(outputs.take(end + 1).drop_last() =~= outputs.take(end));
        lemma_outputs_error_extends(outputs, end + 1);
    } else {
        assert(outputs.take(end) =~= outputs);
    }
}


/// The components of a path as `Path::components` yields them, each as its
/// text: `/` for the root, `.` and `..`, and the normal names.
pub uninterp spec fn path_components(path: Seq<char>) -> Seq<Seq<char>>;

/// Calls `Path::components` and takes each component's text.
#[verifier::external_body]
fn components_of(path: &str) -> (components: Vec<String>)
    ensures
        components.deep_view() == path_components(path@),
{
    std::path::Path::new(path).components().map(|component| component.as_os_str().to_string_lossy().into_owned()).collect()
}

/// The components of a path, as text.
pub fn components_vector(path: &str) -> (components: Vec<String>)
    ensures
        components.deep_view() == path_components(path@),
{
    components_of(path)
}

/// How many components a path has.
pub fn component_count(path: &str) -> (count: usize)
    ensures
        count == path_components(path@).len(),
{
    components_of(path).len()
}

/// Calls `String::from_utf8`, which fails exactly when the bytes are not
/// UTF-8 and otherwise keeps them as they are.
#[verifier::external_body]
pub(crate) fn string_from_utf8(bytes: Vec<u8>) -> (text: Option<String>)
    ensures
        text is Some <==> valid_utf8(bytes@),
        text matches Some(text) ==> encode_utf8(text@) == bytes@,
{
    String::from_utf8(bytes).ok()
}

/// The value of an ASCII hexadecimal digit.
pub open spec fn hex_value(byte: u8) -> Option<u8> {
    if 48 <= byte <= 57 {
        Some((byte - 48) as u8)
    } else if 97 <= byte <= 102 {
        Some((byte - 87) as u8)
    } else if 65 <= byte <= 70 {
        Some((byte - 55) as u8)
    } else {
        None
    }
}

/// What `u8::from_str_radix(pair, 16)` makes of a two-byte escape: two hex
/// digits, or a `+` sign and one digit.
pub open spec fn escape_value(first: u8, second: u8) -> Option<u8> {
    match (hex_value(first), hex_value(second)) {
        (Some(high), Some(low)) => Some((high * 16 + low) as u8),
        (None, Some(low)) => if first == 43 {
            Some(low)
        } else {
            None
        },
        _ => None,
    }
}

/// Whether a byte can follow `first`, a lead byte of three or four, as
/// the second byte of a UTF-8 sequence.
pub open spec fn second_byte_fits(first: u8, second: u8) -> bool {
    if first == 0xe0 {
        0xa0 <= second <= 0xbf
    } else if first == 0xed {
        0x80 <= second <= 0x9f
    } else if first == 0xf0 {
        0x90 <= second <= 0xbf
    } else if first == 0xf4 {
        0x80 <= second <= 0x8f
    } else {
        0x80 <= second <= 0xbf
    }
}

/// Why two bytes are not UTF-8 text, as `std::str::from_utf8` reports it:
/// where the bad sequence starts and whether it is only cut off; `None`
/// when they are UTF-8.
pub open spec fn pair_utf8_error(first: u8, second: u8) -> Option<(u8, bool)> {
    if first < 0x80 {
        if second < 0x80 {
            None
        } else {
            Some((1u8, 0xc2 <= second <= 0xf4))
        }
    } else if 0xc2 <= first <= 0xdf {
        if 0x80 <= second <= 0xbf {
            None
        } else {
            Some((0u8, false))
        }
    } else if 0xe0 <= first <= 0xf4 {
        Some((0u8, second_byte_fits(first, second)))
    } else {
        Some((0u8, false))
    }
}

/// `bytes` with each `%XX` escape replaced by its byte, or why an escape
/// is refused: cut short, not UTF-8 text, or not a hexadecimal number.
pub open spec fn percent_decoded(bytes: Seq<u8>) -> Result<Seq<u8>, ManifestError>
    decreases bytes.len(),
{
    if bytes.len() == 0 {
        Ok(Seq::empty())
    } else if bytes[0] == 37 {
        if bytes.len() <= 2 {
            Err(ManifestError::InvalidFileUrl)
        } else {
            match pair_utf8_error(bytes[1], bytes[2]) {
                Some((at, incomplete)) => Err(ManifestError::EscapeNotUtf8 { at, incomplete }),
                None => match escape_value(bytes[1], bytes[2]) {
                    None => Err(ManifestError::InvalidEscape),
                    Some(value) => match percent_decoded(bytes.skip(3)) {
                        Err(error) => Err(error),
                        Ok(rest) => Ok(seq![value] + rest),
                    },
                },
            }
        }
    } else {
        match percent_decoded(bytes.drop_first()) {
            Err(error) => Err(error),
            Ok(rest) => Ok(seq![bytes[0]] + rest),
        }
    }
}

fn pair_error(first: u8, second: u8) -> (error: Option<(u8, bool)>)
    ensures
        error == pair_utf8_error(first, second),
{
    if first < 0x80 {
        if second < 0x80 {
            None
        } else {
            Some((1, 0xc2 <= second && second <= 0xf4))
        }
    } else if 0xc2 <= first && first <= 0xdf {
        if 0x80 <= second && second <= 0xbf {
            None
        } else {
            Some((0, false))
        }
    } else if 0xe0 <= first && first <= 0xf4 {
        let fits = if first == 0xe0 {
            0xa0 <= second && second <= 0xbf
        } else if first == 0xed {
            0x80 <= second && second <= 0x9f
        } else if first == 0xf0 {
            0x90 <= second && second <= 0xbf
        } else if first == 0xf4 {
            0x80 <= second && second <= 0x8f
        } else {
            0x80 <= second && second <= 0xbf
        };
        Some((0, fits))
    } else {
        Some((0, false))
    }
}

fn hex_digit_value(byte: u8) -> (value: Option<u8>)
    ensures
        value == hex_value(byte),
{
    if 48 <= byte && byte <= 57 {
        Some(byte - 48)
    } else if 97 <= byte && byte <= 102 {
        Some(byte - 87)
    } else if 65 <= byte && byte <= 70 {
        Some(byte - 55)
    } else {
        None
    }
}

fn escape_byte(first: u8, second: u8) -> (value: Option<u8>)
    ensures
        value == escape_value(first, second),
{
    match (hex_digit_value(first), hex_digit_value(second)) {
        (Some(high), Some(low)) => Some(high * 16 + low),
        (None, Some(low)) => if first == 43 {
            Some(low)
        } else {
            None
        },
        _ => None,
    }
}

/// Decodes the `%XX` escapes of a file URL.
pub fn percent_decode(value: &str) -> (result: Result<String, ManifestError>)
    ensures
        match result {
            Ok(text) => percent_decoded(value.spec_bytes()) matches Ok(bytes) && valid_utf8(bytes)
                && text@ == decode_utf8(bytes),
            Err(error) => match percent_decoded(value.spec_bytes()) {
                Err(refused) => error == refused,
                Ok(bytes) => !valid_utf8(bytes) && error == ManifestError::NotUtf8,
            },
        },
{
    broadcast use vstd::utf8::encode_utf8_decode_utf8;

    let bytes = value.as_bytes();
    let mut output: Vec<u8> = Vec::new();
    let mut index: usize = 0;
    assert(bytes@.skip(0) =~= bytes@);
    while index < bytes.len()
        invariant
            index <= bytes@.len(),
            bytes@ == value.spec_bytes(),
            percent_decoded(bytes@) == match percent_decoded(bytes@.skip(index as int)) {
                Err(error) => Err(error),
                Ok(rest) => Ok(output@ + rest),
            },
        decreases bytes@.len() - index,
    {
        let ghost rest = bytes@.skip(index as int);
        if bytes[index] == 37 {
            if bytes.len() - index <= 2 {
                return Err(ManifestError::InvalidFileUrl);
            }
            match pair_error(bytes[index + 1], bytes[index + 2]) {
                Some((at, incomplete)) => {
                    return Err(ManifestError::EscapeNotUtf8 { at, incomplete });
                },
                None => {},
            }
            match escape_byte(bytes[index + 1], bytes[index + 2]) {
                None => {
                    return Err(ManifestError::InvalidEscape);
                },
                Some(decoded) => {
                    assert(rest.skip(3) =~= bytes@.skip(index + 3));
                    proof {
                        if let Ok(tail) = percent_decoded(bytes@.skip(index + 3)) {
                            assert(output@.push(decoded) + tail =~= output@ + (seq![decoded]
                                + tail));
                        }
                    }
                    output.push(decoded);
                    index += 3;
                },
            }
        } else {
            assert(rest.drop_first() =~= bytes@.skip(index + 1));
            proof {
                if let Ok(tail) = percent_decoded(bytes@.skip(index + 1)) {
                    assert(output@.push(bytes@[index as int]) + tail =~= output@ + (seq![
                        bytes@[index as int],
                    ] + tail));
                }
            }
            output.push(bytes[index]);
            index += 1;
        }
    }
    assert(bytes@.skip(index as int) =~= Seq::<u8>::empty());
    assert(output@ + Seq::<u8>::empty() =~= output@);
    let ghost decoded = output@;
    match string_from_utf8(output) {
        Some(text) => Ok(text),
        None => Err(ManifestError::NotUtf8),
    }
}

/// The components left after resolving `.` and `..` the way pushing and
/// popping a `PathBuf` does: `.` is skipped, `..` drops the last component
/// unless only the root (or nothing) is left.
pub open spec fn normalized_components(components: Seq<Seq<char>>) -> Seq<Seq<char>>
    decreases components.len(),
{
    if components.len() == 0 {
        Seq::empty()
    } else {
        let stack = normalized_components(components.drop_last());
        let component = components.last();
        if component == "."@ {
            stack
        } else if component == ".."@ {
            if stack.len() > 0 && stack.last() != "/"@ {
                stack.drop_last()
            } else {
                stack
            }
        } else {
            stack.push(component)
        }
    }
}

/// The path text a `PathBuf` holds after pushing `components` in order.
pub open spec fn render_components(components: Seq<Seq<char>>) -> Seq<char> {
    if components.len() > 0 && components[0] == "/"@ {
        "/"@ + join(components.skip(1), "/"@)
    } else {
        join(components, "/"@)
    }
}

/// `path` with `.` and `..` components resolved lexically.
pub open spec fn normalize_spec(path: Seq<char>) -> Seq<char> {
    render_components(normalized_components(path_components(path)))
}

/// Resolves `.` and `..` in a path without touching the filesystem.
pub fn normalize(path: &str) -> (normalized: String)
    ensures
        normalized@ == normalize_spec(path@),
{
    let components = components_of(path);
    let ghost view = components.deep_view();
    let mut stack: Vec<String> = Vec::new();
    let mut index: usize = 0;
    while index < components.len()
        invariant
            index <= components@.len(),
            view == components.deep_view(),
            view.len() == components@.len(),
            stack.deep_view() == normalized_components(view.take(index as int)),
        decreases components@.len() - index,
    {
        assert(view.take(index + 1).drop_last() =~= view.take(index as int));
        assert(view[index as int] == components@[index as int]@);
        let component = components[index].as_str();
        if same_text(component, ".") {
        } else if same_text(component, "..") {
            if stack.len() > 0 && !same_text(stack[stack.len() - 1].as_str(), "/") {
                let ghost before = stack.deep_view();
                stack.pop();
                assert(stack.deep_view() =~= before.drop_last());
            }
        } else {
            push_string(&mut stack, components[index].clone());
        }
        index += 1;
    }
    assert(view.take(components@.len() as int) =~= view);
    if stack.len() > 0 && same_text(stack[0].as_str(), "/") {
        let mut rest: Vec<String> = Vec::new();
        let mut k: usize = 1;
        while k < stack.len()
            invariant
                1 <= k <= stack@.len(),
                rest.deep_view() == stack.deep_view().subrange(1, k as int),
            decreases stack@.len() - k,
        {
            push_string(&mut rest, stack[k].clone());
            assert(stack.deep_view().subrange(1, k + 1) =~= stack.deep_view().subrange(1, k as int).push(stack@[k as int]@));
            k += 1;
        }
        assert(stack.deep_view().subrange(1, stack@.len() as int) =~= stack.deep_view().skip(1));
        let mut normalized = owned("/");
        let joined = join_strings(&rest, "/");
        crate::strings::push_str(&mut normalized, joined.as_str());
        normalized
    } else {
        join_strings(&stack, "/")
    }
}

/// The path a file URL or plain path names, before normalization.
pub open spec fn selected_path_text(value: Seq<char>) -> Result<Seq<char>, ManifestError> {
    if value.len() >= 7 && value.take(7) == "file://"@ {
        match percent_decoded(encode_utf8(value.skip(7))) {
            Err(error) => Err(error),
            Ok(bytes) => if valid_utf8(bytes) {
                Ok(decode_utf8(bytes))
            } else {
                Err(ManifestError::NotUtf8)
            },
        }
    } else {
        Ok(value)
    }
}

/// The normalized absolute path a selection names (a plain path or a
/// `file://` URL), or why it is refused. A path is absolute when it starts
/// at the root.
pub open spec fn absolute_file_path_spec(value: Seq<char>) -> Result<Seq<char>, ManifestError> {
    match selected_path_text(value) {
        Err(error) => Err(error),
        Ok(path) => if path.len() > 0 && path[0] == '/' {
            Ok(normalize_spec(path))
        } else {
            Err(ManifestError::NotAbsolute)
        },
    }
}

/// Resolves a selected output path to a normalized absolute path.
pub fn absolute_file_path(value: &str) -> (result: Result<String, ManifestError>)
    ensures
        match result {
            Ok(path) => absolute_file_path_spec(value@) == Ok::<Seq<char>, ManifestError>(path@),
            Err(error) => absolute_file_path_spec(value@) == Err::<Seq<char>, ManifestError>(error),
        },
{
    let path = if starts_with_text(value, "file://") {
        proof {
            reveal_strlit("file://");
        }
        let chars = chars_of(value);
        let raw = string_from_range(&chars, 7, chars.len());
        assert(chars@.subrange(7, chars@.len() as int) =~= value@.skip(7));
        match percent_decode(raw.as_str()) {
            Ok(decoded) => decoded,
            Err(error) => {
                return Err(error);
            },
        }
    } else {
        proof {
            reveal_strlit("file://");
        }
        owned(value)
    };
    assert(selected_path_text(value@) == Ok::<Seq<char>, ManifestError>(path@));
    let chars = chars_of(path.as_str());
    if chars.len() > 0 && chars[0] == '/' {
        Ok(normalize(path.as_str()))
    } else {
        Err(ManifestError::NotAbsolute)
    }
}

/// Whether `components` extends `prefix`.
pub open spec fn is_component_prefix(prefix: Seq<Seq<char>>, components: Seq<Seq<char>>) -> bool {
    prefix.len() <= components.len() && components.take(prefix.len() as int) == prefix
}

/// Whether `candidate` lies strictly inside `root`, comparing components as
/// `Path::starts_with` and `Path`'s equality do.
pub open spec fn is_inside_spec(root: Seq<char>, candidate: Seq<char>) -> bool {
    path_components(candidate) != path_components(root) && is_component_prefix(
        path_components(root),
        path_components(candidate),
    )
}

/// Checks two paths that the caller has already canonicalized.
pub fn is_canonical_path_inside(root: &str, candidate: &str) -> (inside: bool)
    ensures
        inside == is_inside_spec(root@, candidate@),
{
    let root_components = components_of(root);
    let candidate_components = components_of(candidate);
    let ghost r = root_components.deep_view();
    let ghost c = candidate_components.deep_view();
    if root_components.len() > candidate_components.len() {
        return false;
    }
    let mut index: usize = 0;
    while index < root_components.len()
        invariant
            index <= root_components@.len() <= candidate_components@.len(),
            r == root_components.deep_view(),
            c == candidate_components.deep_view(),
            r == path_components(root@),
            c == path_components(candidate@),
            forall|i: int| 0 <= i < index ==> r[i] == c[i],
        decreases root_components@.len() - index,
    {
        if !same_text(root_components[index].as_str(), candidate_components[index].as_str()) {
            assert(r[index as int] == root_components@[index as int]@);
            assert(c[index as int] == candidate_components@[index as int]@);
            assert(c.take(r.len() as int)[index as int] != r[index as int]);
            return false;
        }
        index += 1;
    }
    assert(c.take(r.len() as int) =~= r);
    if root_components.len() == candidate_components.len() {
        assert(c =~= r);
        false
    } else {
        true
    }
}

} // verus!
