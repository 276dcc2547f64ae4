//! Where the board store keeps its files, how stored images and their
//! thumbnails are named, and which image URLs resolve to files.

use vstd::prelude::*;

use crate::manifest::path_components;
use crate::model::{MAX_ATTACHMENT_BYTES, MAX_ATTACHMENT_TOTAL_BYTES};
use crate::strings::{
    ascii_lowercase, chars_of, join_path, join_path_text, owned, push_char, push_str, same_text,
    starts_with_text, string_from_chars, string_from_range, to_ascii_lowercase,
};

verus! {

/// The final component of a path, as `Path::file_name` gives it.
pub uninterp spec fn path_file_name(path: Seq<char>) -> Option<Seq<char>>;

/// The index of the last `.` of a name, or -1 when it has none.
pub open spec fn last_dot(name: Seq<char>) -> int
    decreases name.len(),
{
    if name.len() == 0 {
        -1
    } else if name.last() == '.' {
        name.len() - 1
    } else {
        last_dot(name.drop_last())
    }
}

/// The extension of a file name, as `Path::extension` documents it: none
/// when the name has no `.` after its first character, else what follows
/// the last `.`.
pub open spec fn name_extension(name: Seq<char>) -> Option<Seq<char>> {
    let dot = last_dot(name);
    if dot <= 0 {
        None
    } else {
        Some(name.skip(dot + 1))
    }
}

/// The extension of a path's file name; none without a file name.
pub open spec fn path_extension(path: Seq<char>) -> Option<Seq<char>> {
    match path_file_name(path) {
        Some(name) => name_extension(name),
        None => None,
    }
}

/// A path with its file name replaced, as `Path::with_file_name` builds it.
pub uninterp spec fn path_with_file_name(path: Seq<char>, name: Seq<char>) -> Seq<char>;


/// Calls `Path::file_name`. The contract claims the named result, and what
/// the documentation says of it: a name is the path's final component.
#[verifier::external_body]
fn file_name_of(path: &str) -> (name: Option<String>)
    ensures
        match name {
            Some(name) => {
                &&& path_file_name(path@) == Some(name@)
                &&& path_components(path@).len() > 0
                &&& name@ == path_components(path@).last()
            },
            None => path_file_name(path@) is None,
        },
{
    std::path::Path::new(path).file_name().map(|name| name.to_string_lossy().into_owned())
}

/// Calls `Path::extension`, whose documented result is `path_extension`:
/// the file name's text after its last `.`, none when there is no file
/// name, no `.` in it, or only a leading one.
#[verifier::external_body]
pub(crate) fn extension_of(path: &str) -> (extension: Option<String>)
    ensures
        match extension {
            Some(extension) => path_extension(path@) == Some(extension@),
            None => path_extension(path@) is None,
        },
{
    std::path::Path::new(path).extension().map(|extension| extension.to_string_lossy().into_owned())
}

/// Calls `Path::with_file_name`.
#[verifier::external_body]
fn with_file_name(path: &str, name: &str) -> (result: String)
    ensures
        result@ == path_with_file_name(path@, name@),
{
    std::path::Path::new(path).with_file_name(name).to_string_lossy().into_owned()
}

/// Where the board store keeps its files.
#[derive(Clone, Debug)]
pub struct DataPaths {
    pub root: String,
    pub boards_file: String,
    pub images: String,
    pub generated_originals: String,
    pub workspaces: String,
    pub logs: String,
    pub output_schema: String,
    pub generated_images: String,
}

impl DataPaths {
    /// The layout of a store rooted at `root`, watching `generated_images`
    /// for Codex output.
    pub fn at(root: String, generated_images: String) -> (paths: Self)
        ensures
            paths.root@ == root@,
            paths.generated_images@ == generated_images@,
            paths.boards_file@ == join_path(root@, "boards.json"@),
            paths.images@ == join_path(root@, "images"@),
            paths.generated_originals@ == join_path(root@, "generated-originals"@),
            paths.workspaces@ == join_path(root@, "workspaces"@),
            paths.logs@ == join_path(root@, "logs"@),
            paths.output_schema@ == join_path(root@, "output-manifest.schema.json"@),
    {
        DataPaths {
            boards_file: join_path_text(root.as_str(), "boards.json"),
            images: join_path_text(root.as_str(), "images"),
            generated_originals: join_path_text(root.as_str(), "generated-originals"),
            workspaces: join_path_text(root.as_str(), "workspaces"),
            logs: join_path_text(root.as_str(), "logs"),
            output_schema: join_path_text(root.as_str(), "output-manifest.schema.json"),
            root,
            generated_images,
        }
    }
}

/// Raster formats an SVG sprite can embed directly.
pub open spec fn embeddable_extension(extension: Seq<char>) -> bool {
    let lower = ascii_lowercase(extension);
    lower == "gif"@ || lower == "jpeg"@ || lower == "jpg"@ || lower == "png"@ || lower == "webp"@
}

pub open spec fn is_svg_embeddable_spec(path: Seq<char>) -> bool {
    match path_extension(path) {
        Some(extension) => embeddable_extension(extension),
        None => false,
    }
}

/// Whether a thumbnail of `path` can keep the original's format.
pub fn is_svg_embeddable_raster(path: &str) -> (embeddable: bool)
    ensures
        embeddable == is_svg_embeddable_spec(path@),
{
    match extension_of(path) {
        Some(extension) => {
            let lower = to_ascii_lowercase(extension.as_str());
            same_text(lower.as_str(), "gif") || same_text(lower.as_str(), "jpeg") || same_text(
                lower.as_str(),
                "jpg",
            ) || same_text(lower.as_str(), "png") || same_text(lower.as_str(), "webp")
        },
        None => false,
    }
}

/// The thumbnail beside `source`: the file name with `prefix` in front, and
/// `.png` behind unless the format can be embedded as it is.
pub open spec fn prefixed_thumbnail_spec(source: Seq<char>, prefix: Seq<char>) -> Option<Seq<char>> {
    match path_file_name(source) {
        None => None,
        Some(name) => Some(
            path_with_file_name(
                source,
                prefix + name + (if is_svg_embeddable_spec(source) {
                    Seq::empty()
                } else {
                    ".png"@
                }),
            ),
        ),
    }
}

/// The thumbnail path for `source` under `prefix`.
pub fn prefixed_thumbnail_path(source: &str, prefix: &str) -> (path: Option<String>)
    ensures
        match path {
            Some(path) => prefixed_thumbnail_spec(source@, prefix@) == Some(path@),
            None => prefixed_thumbnail_spec(source@, prefix@) is None,
        },
{
    let name = match file_name_of(source) {
        Some(name) => name,
        None => {
            return None;
        },
    };
    let mut file_name = owned(prefix);
    push_str(&mut file_name, name.as_str());
    if !is_svg_embeddable_raster(source) {
        push_str(&mut file_name, ".png");
    } else {
        assert(file_name@ + Seq::<char>::empty() =~= file_name@);
    }
    Some(with_file_name(source, file_name.as_str()))
}

/// The display thumbnail (`t_`) of `source`.
pub fn thumbnail_path_for(source: &str) -> (path: Option<String>)
    ensures
        match path {
            Some(path) => prefixed_thumbnail_spec(source@, "t_"@) == Some(path@),
            None => prefixed_thumbnail_spec(source@, "t_"@) is None,
        },
{
    prefixed_thumbnail_path(source, "t_")
}

/// The tiny sprite thumbnail (`s_`) of `source`.
pub fn sprite_thumbnail_path_for(source: &str) -> (path: Option<String>)
    ensures
        match path {
            Some(path) => prefixed_thumbnail_spec(source@, "s_"@) == Some(path@),
            None => prefixed_thumbnail_spec(source@, "s_"@) is None,
        },
{
    prefixed_thumbnail_path(source, "s_")
}

/// What a file-name character becomes in a stored image name: ASCII letters,
/// digits, `.`, `-` and `_` stay; anything else is `_`.
pub open spec fn filename_char(c: char) -> char {
    if ('a' <= c <= 'z') || ('A' <= c <= 'Z') || ('0' <= c <= '9') || c == '.' || c == '-' || c
        == '_' {
        c
    } else {
        '_'
    }
}

pub open spec fn sanitize_filename_spec(name: Seq<char>) -> Seq<char> {
    if name.len() == 0 {
        "image.png"@
    } else {
        name.map_values(|c: char| filename_char(c))
    }
}

/// Makes a file name safe to store.
pub fn sanitize_filename(name: &str) -> (cleaned: String)
    ensures
        cleaned@ == sanitize_filename_spec(name@),
{
    let chars = chars_of(name);
    if chars.len() == 0 {
        return owned("image.png");
    }
    let mut cleaned: Vec<char> = Vec::new();
    let mut index: usize = 0;
    while index < chars.len()
        invariant
            index <= chars@.len(),
            chars@ == name@,
            cleaned@ == chars@.take(index as int).map_values(|c: char| filename_char(c)),
        decreases chars@.len() - index,
    {
        let c = chars[index];
        let kept = if ('a' <= c && c <= 'z') || ('A' <= c && c <= 'Z') || ('0' <= c && c <= '9')
            || c == '.' || c == '-' || c == '_' {
            c
        } else {
            '_'
        };
        cleaned.push(kept);
        assert(chars@.take(index + 1).map_values(|c: char| filename_char(c)) =~= chars@.take(
            index as int,
        ).map_values(|c: char| filename_char(c)).push(filename_char(c)));
        index += 1;
    }
    assert(chars@.take(chars@.len() as int) =~= chars@);
    string_from_chars(&cleaned)
}

/// The `/images/{board}/` prefix of a board's image URLs.
pub open spec fn image_url_prefix(board_id: Seq<char>) -> Seq<char> {
    "/images/"@ + board_id + "/"@
}

/// The stored file an image URL names: the URL must be the board's prefix
/// followed by a name of exactly one path component.
pub open spec fn image_path_spec(images: Seq<char>, board_id: Seq<char>, url: Seq<char>) -> Option<
    Seq<char>,
> {
    let prefix = image_url_prefix(board_id);
    if prefix.len() <= url.len() && url.take(prefix.len() as int) == prefix {
        let name = url.skip(prefix.len() as int);
        if path_components(name).len() == 1 {
            Some(join_path(join_path(images, board_id), name))
        } else {
            None
        }
    } else {
        None
    }
}

/// Resolves an image URL of a board to its stored file under `images`.
pub fn image_path(images: &str, board_id: &str, url: &str) -> (path: Option<String>)
    ensures
        match path {
            Some(path) => image_path_spec(images@, board_id@, url@) == Some(path@),
            None => image_path_spec(images@, board_id@, url@) is None,
        },
{
    let mut prefix = owned("/images/");
    push_str(&mut prefix, board_id);
    push_char(&mut prefix, '/');
    proof {
        reveal_strlit("/");
        assert("/"@ =~= seq!['/']);
        assert(prefix@ =~= image_url_prefix(board_id@));
    }
    if !starts_with_text(url, prefix.as_str()) {
        return None;
    }
    let chars = chars_of(url);
    let prefix_len = chars_of(prefix.as_str()).len();
    let name = string_from_range(&chars, prefix_len, chars.len());
    assert(chars@.subrange(prefix_len as int, chars@.len() as int) =~= url@.skip(prefix_len as int));
    if crate::manifest::component_count(name.as_str()) != 1 {
        return None;
    }
    let board_directory = join_path_text(images, board_id);
    Some(join_path_text(board_directory.as_str(), name.as_str()))
}

/// What the file system says of an attachment: whether it is a regular
/// file, its byte length, and whether its extension names a supported image.
#[derive(Clone, Copy, Debug, PartialEq, Eq, Structural)]
pub struct AttachmentFacts {
    pub is_file: bool,
    pub len: u64,
    pub supported: bool,
}

/// Why attachments were refused; indexes point into the attached paths.
#[derive(Clone, Copy, Debug, PartialEq, Eq, Structural)]
pub enum AttachmentError {
    Unreadable(usize),
    NotAFile(usize),
    TooLarge,
    TotalTooLarge,
    Unsupported(usize),
}

impl AttachmentError {
    /// What the user is told, naming `path`, the attachment refused.
    pub fn message(&self, path: &str) -> (text: String)
        ensures
            text@ == match *self {
                AttachmentError::Unreadable(_) => "could not read attachment "@ + path@,
                AttachmentError::NotAFile(_) => path@ + " is not a file"@,
                AttachmentError::TooLarge => "Attachment exceeds 8 MB"@,
                AttachmentError::TotalTooLarge => "Attachments exceed 32 MB total"@,
                AttachmentError::Unsupported(_) => path@ + " is not a supported image"@,
            },
    {
        match self {
            AttachmentError::Unreadable(_) => {
                let mut text = owned("could not read attachment ");
                push_str(&mut text, path);
                text
            },
            AttachmentError::NotAFile(_) => {
                let mut text = owned(path);
                push_str(&mut text, " is not a file");
                text
            },
            AttachmentError::TooLarge => owned("Attachment exceeds 8 MB"),
            AttachmentError::TotalTooLarge => owned("Attachments exceed 32 MB total"),
            AttachmentError::Unsupported(_) => {
                let mut text = owned(path);
                push_str(&mut text, " is not a supported image");
                text
            },
        }
    }
}

/// The first refusal, checking the attachments from `index` on with
/// `total` bytes counted before them: an unreadable path, one that is not a
/// file, one over the per-file limit, the running total over its limit, or
/// an unsupported format, in that order for each path.
pub open spec fn attachment_refusal(
    found: Seq<Option<AttachmentFacts>>,
    index: int,
    total: int,
) -> Option<AttachmentError>
    decreases found.len() - index,
{
    if index < 0 || index >= found.len() {
        None
    } else {
        match found[index] {
            None => Some(AttachmentError::Unreadable(index as usize)),
            Some(facts) => if !facts.is_file {
                Some(AttachmentError::NotAFile(index as usize))
            } else if facts.len > MAX_ATTACHMENT_BYTES {
                Some(AttachmentError::TooLarge)
            } else if total + facts.len > MAX_ATTACHMENT_TOTAL_BYTES {
                Some(AttachmentError::TotalTooLarge)
            } else if !facts.supported {
                Some(AttachmentError::Unsupported(index as usize))
            } else {
                attachment_refusal(found, index + 1, total + facts.len)
            },
        }
    }
}

/// Checks attachments before they are copied into a board: `Ok` when every
/// one is a readable, supported image file within the size limits, the
/// first refusal otherwise.
pub fn check_attachments(found: &Vec<Option<AttachmentFacts>>) -> (checked: Result<(), AttachmentError>)
    ensures
        match checked {
            Ok(()) => attachment_refusal(found@, 0, 0) is None,
            Err(error) => attachment_refusal(found@, 0, 0) == Some(error),
        },
{
    let mut total: u64 = 0;
    let mut index: usize = 0;
    while index < found.len()
        invariant
            index <= found@.len(),
            total <= MAX_ATTACHMENT_TOTAL_BYTES,
            attachment_refusal(found@, 0, 0) == attachment_refusal(found@, index as int, total as int),
        decreases found@.len() - index,
    {
        match found[index] {
            None => {
                return Err(AttachmentError::Unreadable(index));
            },
            Some(facts) => {
                if !facts.is_file {
                    return Err(AttachmentError::NotAFile(index));
                }
                if facts.len > MAX_ATTACHMENT_BYTES {
                    return Err(AttachmentError::TooLarge);
                }
                if total + facts.len > MAX_ATTACHMENT_TOTAL_BYTES {
                    return Err(AttachmentError::TotalTooLarge);
                }
                if !facts.supported {
                    return Err(AttachmentError::Unsupported(index));
                }
                total = total + facts.len;
            },
        }
        index += 1;
    }
    Ok(())
}

} // verus!
