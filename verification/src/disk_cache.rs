//! The naming and format of the decoded-image disk cache. Each entry starts
//! with a fixed header that names the format, the image size, and the size
//! and modification time of the source it was decoded from, followed by the
//! length of the decoded pixels and the pixels as one LZ4 block.

use vstd::prelude::*;
use vstd::string::StringSliceAdditionalSpecFns;

use crate::strings::{push_char, push_str};

verus! {

pub const MAGIC: u32 = 0x4247_5241;

pub const VERSION: u32 = 1;

pub const HEADER_LEN: usize = 32;

/// The header plus the stored pixel length.
pub const PREFIX_LEN: usize = 36;

pub const MAX_DECODED_ENTRY_BYTES: usize = 512 * 1024 * 1024;

/// The decoded byte length of a `width` by `height` BGRA image, when it is
/// small enough to cache.
pub open spec fn decoded_len_spec(width: u32, height: u32) -> Option<usize> {
    let len = width as int * height as int * 4;
    if len <= MAX_DECODED_ENTRY_BYTES {
        Some(len as usize)
    } else {
        None
    }
}

/// `width * height * 4`, or `None` past the entry size cap.
pub fn decoded_len(width: u32, height: u32) -> (len: Option<usize>)
    ensures
        len == decoded_len_spec(width, height),
{
    let w = width as u64;
    let h = height as u64;
    assert(w * h <= 0xffff_ffff * 0xffff_ffff) by (nonlinear_arith)
        requires
            w <= 0xffff_ffff,
            h <= 0xffff_ffff,
    ;
    let pixels: u64 = w * h;
    if pixels > (MAX_DECODED_ENTRY_BYTES / 4) as u64 {
        return None;
    }
    Some((pixels * 4) as usize)
}

/// How old, in nanoseconds, an entry's modification time must be before a
/// hit refreshes it: the time only orders pruning, so it is kept coarsely.
pub const TOUCH_GRANULARITY_NANOS: u128 = 900_000_000_000;

/// Whether a hit refreshes an entry's modification time, given how long ago
/// it was last modified (`None` when that cannot be told, as for a time in
/// the future): only when it is older than the granularity.
pub fn refreshes_on_hit(age_nanos: Option<u128>) -> (refresh: bool)
    ensures
        refresh == (age_nanos matches Some(age) && age > TOUCH_GRANULARITY_NANOS),
{
    match age_nanos {
        Some(age) => age > TOUCH_GRANULARITY_NANOS,
        None => false,
    }
}

pub const FNV_OFFSET: u64 = 0xcbf2_9ce4_8422_2325;

pub const FNV_PRIME: u64 = 0x0000_0100_0000_01b3;

/// The 64-bit FNV-1a hash of `bytes`.
pub open spec fn fnv1a_spec(bytes: Seq<u8>) -> u64
    decreases bytes.len(),
{
    if bytes.len() == 0 {
        FNV_OFFSET
    } else {
        vstd::wrapping::u64_specs::wrapping_mul(
            fnv1a_spec(bytes.drop_last()) ^ (bytes.last() as u64),
            FNV_PRIME,
        )
    }
}

/// 64-bit FNV-1a.
pub fn fnv1a(bytes: &[u8]) -> (hash: u64)
    ensures
        hash == fnv1a_spec(bytes@),
{
    let mut hash = FNV_OFFSET;
    let mut index: usize = 0;
    while index < bytes.len()
        invariant
            index <= bytes@.len(),
            hash == fnv1a_spec(bytes@.take(index as int)),
        decreases bytes@.len() - index,
    {
        assert(bytes@.take(index + 1).drop_last() =~= bytes@.take(index as int));
        hash = (hash ^ (bytes[index] as u64)).wrapping_mul(FNV_PRIME);
        index += 1;
    }
    assert(bytes@.take(bytes@.len() as int) =~= bytes@);
    hash
}

/// The little-endian bytes of a `u32`.
pub open spec fn le_u32(value: u32) -> Seq<u8> {
    seq![
        (value & 0xff) as u8,
        ((value >> 8) & 0xff) as u8,
        ((value >> 16) & 0xff) as u8,
        ((value >> 24) & 0xff) as u8,
    ]
}

/// The little-endian bytes of a `u64`.
pub open spec fn le_u64(value: u64) -> Seq<u8> {
    le_u32((value & 0xffff_ffff) as u32) + le_u32((value >> 32) as u32)
}

/// The `u32` whose little-endian bytes start at `at`.
pub open spec fn read_le_u32(bytes: Seq<u8>, at: int) -> u32 {
    (bytes[at] as u32) | ((bytes[at + 1] as u32) << 8) | ((bytes[at + 2] as u32) << 16) | ((
    bytes[at + 3] as u32) << 24)
}

/// The `u64` whose little-endian bytes start at `at`.
pub open spec fn read_le_u64(bytes: Seq<u8>, at: int) -> u64 {
    (read_le_u32(bytes, at) as u64) | ((read_le_u32(bytes, at + 4) as u64) << 32)
}

fn u32_le_bytes(value: u32) -> (bytes: [u8; 4])
    ensures
        bytes@ == le_u32(value),
{
    [
        (value & 0xff) as u8,
        ((value >> 8) & 0xff) as u8,
        ((value >> 16) & 0xff) as u8,
        ((value >> 24) & 0xff) as u8,
    ]
}

fn load_le_u32(bytes: &[u8], at: usize) -> (value: u32)
    requires
        at + 4 <= bytes@.len(),
    ensures
        value == read_le_u32(bytes@, at as int),
{
    (bytes[at] as u32) | ((bytes[at + 1] as u32) << 8) | ((bytes[at + 2] as u32) << 16) | ((
    bytes[at + 3] as u32) << 24)
}

fn load_le_u64(bytes: &[u8], at: usize) -> (value: u64)
    requires
        at + 8 <= bytes@.len(),
    ensures
        value == read_le_u64(bytes@, at as int),
{
    let _ = bytes.len();
    (load_le_u32(bytes, at) as u64) | ((load_le_u32(bytes, at + 4) as u64) << 32)
}

proof fn lemma_le_u32_round_trip(value: u32)
    ensures
        read_le_u32(le_u32(value), 0) == value,
{
    let b = le_u32(value);
    let b0 = b[0];
    let b1 = b[1];
    let b2 = b[2];
    let b3 = b[3];
    assert(b0 == (value & 0xff) as u8);
    assert(b1 == ((value >> 8) & 0xff) as u8);
    assert(b2 == ((value >> 16) & 0xff) as u8);
    assert(b3 == ((value >> 24) & 0xff) as u8);
    assert((b0 as u32) | ((b1 as u32) << 8) | ((b2 as u32) << 16) | ((b3 as u32) << 24) == value)
        by (bit_vector)
        requires
            b0 == (value & 0xff) as u8,
            b1 == ((value >> 8) & 0xff) as u8,
            b2 == ((value >> 16) & 0xff) as u8,
            b3 == ((value >> 24) & 0xff) as u8,
    ;
}

proof fn lemma_le_u64_round_trip(value: u64)
    ensures
        read_le_u64(le_u64(value), 0) == value,
{
    let low = (value & 0xffff_ffff) as u32;
    let high = (value >> 32) as u32;
    let bytes = le_u64(value);
    lemma_le_u32_round_trip(low);
    lemma_le_u32_round_trip(high);
    assert(bytes.subrange(0, 4) =~= le_u32(low));
    assert(bytes.subrange(4, 8) =~= le_u32(high));
    assert(read_le_u32(bytes, 0) == read_le_u32(le_u32(low), 0));
    assert(read_le_u32(bytes, 4) == read_le_u32(le_u32(high), 0));
    assert((low as u64) | ((high as u64) << 32) == value) by (bit_vector)
        requires
            low == (value & 0xffff_ffff) as u32,
            high == (value >> 32) as u32,
    ;
}

/// The header of an entry for a `width` by `height` decode of a source of
/// `source_len` bytes last modified at `source_mtime`, followed by the stored
/// pixel length.
pub open spec fn entry_prefix(
    width: u32,
    height: u32,
    source_len: u64,
    source_mtime: u64,
    pixel_len: u32,
) -> Seq<u8> {
    le_u32(MAGIC) + le_u32(VERSION) + le_u32(width) + le_u32(height) + le_u64(source_len) + le_u64(
        source_mtime,
    ) + le_u32(pixel_len)
}

/// What a cache entry's bytes say, checked against the source's current
/// size and modification time: the image size and pixel length, or `None`
/// for a stale, foreign or truncated entry.
pub open spec fn entry_check(bytes: Seq<u8>, source_len: u64, source_mtime: u64) -> Option<
    (u32, u32, usize),
> {
    if bytes.len() < PREFIX_LEN {
        None
    } else if read_le_u32(bytes, 0) != MAGIC || read_le_u32(bytes, 4) != VERSION {
        None
    } else if read_le_u64(bytes, 16) != source_len || read_le_u64(bytes, 24) != source_mtime {
        None
    } else {
        let width = read_le_u32(bytes, 8);
        let height = read_le_u32(bytes, 12);
        match decoded_len_spec(width, height) {
            None => None,
            Some(len) => if read_le_u32(bytes, 32) as usize == len {
                Some((width, height, len))
            } else {
                None
            },
        }
    }
}

/// Reads and checks an entry's header.
pub fn check_entry(bytes: &[u8], source_len: u64, source_mtime: u64) -> (checked: Option<
    (u32, u32, usize),
>)
    ensures
        checked == entry_check(bytes@, source_len, source_mtime),
{
    if bytes.len() < PREFIX_LEN {
        return None;
    }
    if load_le_u32(bytes, 0) != MAGIC || load_le_u32(bytes, 4) != VERSION {
        return None;
    }
    if load_le_u64(bytes, 16) != source_len || load_le_u64(bytes, 24) != source_mtime {
        return None;
    }
    let width = load_le_u32(bytes, 8);
    let height = load_le_u32(bytes, 12);
    match decoded_len(width, height) {
        None => None,
        Some(len) => {
            if load_le_u32(bytes, 32) as usize == len {
                Some((width, height, len))
            } else {
                None
            }
        },
    }
}

/// Builds an entry's header for the given image and source.
pub fn encode_entry_prefix(
    width: u32,
    height: u32,
    source_len: u64,
    source_mtime: u64,
    pixel_len: u32,
) -> (bytes: Vec<u8>)
    ensures
        bytes@ == entry_prefix(width, height, source_len, source_mtime, pixel_len),
{
    let mut bytes: Vec<u8> = Vec::new();
    append_u32(&mut bytes, MAGIC);
    append_u32(&mut bytes, VERSION);
    append_u32(&mut bytes, width);
    append_u32(&mut bytes, height);
    append_u32(&mut bytes, (source_len & 0xffff_ffff) as u32);
    append_u32(&mut bytes, (source_len >> 32) as u32);
    append_u32(&mut bytes, (source_mtime & 0xffff_ffff) as u32);
    append_u32(&mut bytes, (source_mtime >> 32) as u32);
    append_u32(&mut bytes, pixel_len);
    assert(bytes@ =~= entry_prefix(width, height, source_len, source_mtime, pixel_len));
    bytes
}

fn append_u32(bytes: &mut Vec<u8>, value: u32)
    ensures
        final(bytes)@ == old(bytes)@ + le_u32(value),
{
    let encoded = u32_le_bytes(value);
    bytes.push(encoded[0]);
    bytes.push(encoded[1]);
    bytes.push(encoded[2]);
    bytes.push(encoded[3]);
    assert(final(bytes)@ =~= old(bytes)@ + le_u32(value));
}

/// A cache entry written for a source is read back as valid while the
/// source is unchanged: the check returns the size it was written with.
pub proof fn lemma_entry_round_trip(
    width: u32,
    height: u32,
    source_len: u64,
    source_mtime: u64,
    pixels: Seq<u8>,
)
    requires
        decoded_len_spec(width, height) is Some,
    ensures
        entry_check(
            entry_prefix(
                width,
                height,
                source_len,
                source_mtime,
                decoded_len_spec(width, height)->0 as u32,
            ) + pixels,
            source_len,
            source_mtime,
        ) == Some((width, height, decoded_len_spec(width, height)->0)),
{
    let len = decoded_len_spec(width, height)->0;
    let bytes = entry_prefix(width, height, source_len, source_mtime, len as u32) + pixels;
    assert(bytes.subrange(0, 4) =~= le_u32(MAGIC));
    assert(bytes.subrange(4, 8) =~= le_u32(VERSION));
    assert(bytes.subrange(8, 12) =~= le_u32(width));
    assert(bytes.subrange(12, 16) =~= le_u32(height));
    assert(bytes.subrange(16, 24) =~= le_u64(source_len));
    assert(bytes.subrange(24, 32) =~= le_u64(source_mtime));
    assert(bytes.subrange(32, 36) =~= le_u32(len as u32));
    lemma_le_u32_round_trip(MAGIC);
    lemma_le_u32_round_trip(VERSION);
    lemma_le_u32_round_trip(width);
    lemma_le_u32_round_trip(height);
    lemma_le_u32_round_trip(len as u32);
    lemma_le_u64_round_trip(source_len);
    lemma_le_u64_round_trip(source_mtime);
    assert(read_le_u32(bytes, 0) == read_le_u32(bytes.subrange(0, 4), 0));
    assert(read_le_u32(bytes, 4) == read_le_u32(bytes.subrange(4, 8), 0));
    assert(read_le_u32(bytes, 8) == read_le_u32(bytes.subrange(8, 12), 0));
    assert(read_le_u32(bytes, 12) == read_le_u32(bytes.subrange(12, 16), 0));
    assert(read_le_u32(bytes, 32) == read_le_u32(bytes.subrange(32, 36), 0));
    assert(read_le_u64(bytes, 16) == read_le_u64(bytes.subrange(16, 24), 0));
    assert(read_le_u64(bytes, 24) == read_le_u64(bytes.subrange(24, 32), 0));
}

/// `x.rotate_left(1)`.
pub open spec fn rotate_left_one(x: u64) -> u64 {
    (x << 1) | (x >> 63)
}

/// The lowercase hexadecimal digit for a nibble.
pub open spec fn hex_digit(nibble: u64) -> char {
    if nibble < 10 {
        (('0' as u64) + nibble) as char
    } else {
        (('a' as u64) + nibble - 10) as char
    }
}

/// `value` as 16 lowercase hexadecimal digits, most significant first.
pub open spec fn hex16(value: u64) -> Seq<char> {
    Seq::new(16, |k: int| hex_digit((value >> ((60 - 4 * k) as u64)) & 0xf))
}

/// The hash that names an entry: FNV-1a of the source path's bytes, mixed
/// with the rotated hash of the decode cap's little-endian bytes.
pub open spec fn entry_hash(source: Seq<u8>, max_dimension: Option<u32>) -> u64 {
    let cap = match max_dimension {
        Some(value) => value,
        None => 0,
    };
    fnv1a_spec(source) ^ rotate_left_one(fnv1a_spec(le_u32(cap)))
}

/// The file name of the entry for `source` decoded at `max_dimension`.
pub open spec fn entry_file_name_spec(source: Seq<u8>, max_dimension: Option<u32>) -> Seq<char> {
    hex16(entry_hash(source, max_dimension)) + ".bgra.lz4"@
}

fn hex_char(nibble: u64) -> (c: char)
    requires
        nibble < 16,
    ensures
        c == hex_digit(nibble),
{
    if nibble < 10 {
        ((48 + nibble) as u8) as char
    } else {
        ((97 + nibble - 10) as u8) as char
    }
}

/// Names the cache entry of `source` decoded at `max_dimension`, as
/// `{hash:016x}.bgra.lz4`.
pub fn entry_file_name(source: &str, max_dimension: Option<u32>) -> (name: String)
    ensures
        name@ == entry_file_name_spec(source.spec_bytes(), max_dimension),
{
    let cap = match max_dimension {
        Some(value) => value,
        None => 0,
    };
    let cap_bytes = u32_le_bytes(cap);
    let cap_hash = fnv1a(&cap_bytes);
    let hash = fnv1a(source.as_bytes()) ^ ((cap_hash << 1) | (cap_hash >> 63));
    let mut name = String::new();
    let mut k: u64 = 0;
    while k < 16
        invariant
            k <= 16,
            hash == entry_hash(source.spec_bytes(), max_dimension),
            name@ == hex16(hash).take(k as int),
        decreases 16 - k,
    {
        let shift: u64 = 60 - 4 * k;
        let nibble = (hash >> shift) & 0xf;
        assert(nibble < 16) by (bit_vector)
            requires
                nibble == (hash >> shift) & 0xf,
        ;
        push_char(&mut name, hex_char(nibble));
        assert(hex16(hash).take(k + 1) =~= hex16(hash).take(k as int).push(hex_digit(nibble)));
        k += 1;
    }
    assert(hex16(hash).take(16) =~= hex16(hash));
    push_str(&mut name, ".bgra.lz4");
    name
}

/// The LZ4 block `lz4_flex::block::compress_into` writes for `pixels`.
pub uninterp spec fn lz4_block(pixels: Seq<u8>) -> Seq<u8>;

/// What `lz4_flex::block::decompress_into` makes of `block` in an output
/// buffer of `len` bytes: the buffer and the count it reports, or `None`
/// when it reports an error.
pub uninterp spec fn lz4_unblock(block: Seq<u8>, len: nat) -> Option<(Seq<u8>, usize)>;

/// Calls `lz4_flex::block::compress_into` with an output buffer of
/// `get_maximum_output_size` bytes and keeps the bytes it reports written.
/// Claimed: the call succeeds, since its only error is an output buffer
/// smaller than `get_maximum_output_size` of the input, and what comes back
/// is the named block of `pixels`. The bound keeps the size computation of
/// `get_maximum_output_size` from overflowing.
#[verifier::external_body]
fn lz4_compress(pixels: &[u8]) -> (block: Option<Vec<u8>>)
    requires
        pixels@.len() <= MAX_DECODED_ENTRY_BYTES,
    ensures
        block is Some,
        block matches Some(bytes) ==> bytes@ == lz4_block(pixels@),
{
    let mut output = vec![0u8; lz4_flex::block::get_maximum_output_size(pixels.len())];
    match lz4_flex::block::compress_into(pixels, &mut output) {
        Ok(written) => {
            output.truncate(written);
            Some(output)
        },
        Err(_) => None,
    }
}

/// Calls `lz4_flex::block::decompress_into` with a zeroed output buffer of
/// `len` bytes. Claimed: the named outcome, a buffer of `len` bytes, and
/// what the crate exists for: a block it compressed from `len` bytes comes
/// back as those bytes, all of them written.
#[verifier::external_body]
fn lz4_decompress(block: &[u8], len: usize) -> (result: Option<(Vec<u8>, usize)>)
    ensures
        result matches Some((pixels, written)) ==> lz4_unblock(block@, len as nat) == Some(
            (pixels@, written),
        ) && pixels@.len() == len,
        result is None ==> lz4_unblock(block@, len as nat) is None,
        result matches Some((pixels, written)) ==> (forall|original: Seq<u8>|
            #[trigger] lz4_block(original) == block@ && original.len() == len ==> pixels@
                == original && written == len),
        result is None ==> forall|original: Seq<u8>|
            #[trigger] lz4_block(original) != block@ || original.len() != len,
{
    let mut pixels = vec![0u8; len];
    match lz4_flex::block::decompress_into(block, &mut pixels) {
        Ok(written) => Some((pixels, written)),
        Err(_) => None,
    }
}

/// `pixels` is the BGRA content of a `width` by `height` image small enough
/// to cache.
pub open spec fn pixels_fit(width: u32, height: u32, pixels: Seq<u8>) -> bool {
    pixels.len() <= MAX_DECODED_ENTRY_BYTES && pixels.len() == width as int * height as int * 4
}

/// A whole cache entry: its header, the pixel length, and the LZ4 block of
/// the pixels.
pub open spec fn entry_bytes(
    width: u32,
    height: u32,
    source_len: u64,
    source_mtime: u64,
    pixels: Seq<u8>,
) -> Seq<u8> {
    entry_prefix(width, height, source_len, source_mtime, pixels.len() as u32) + lz4_block(pixels)
}

/// What reading an entry gives: the image size and the pixels its block
/// decompresses to, or `None` for a stale or damaged entry.
pub open spec fn entry_decode(bytes: Seq<u8>, source_len: u64, source_mtime: u64) -> Option<
    (u32, u32, Seq<u8>),
> {
    match entry_check(bytes, source_len, source_mtime) {
        None => None,
        Some((width, height, len)) => match lz4_unblock(
            bytes.subrange(PREFIX_LEN as int, bytes.len() as int),
            len as nat,
        ) {
            Some((pixels, written)) => if written == len {
                Some((width, height, pixels))
            } else {
                None
            },
            None => None,
        },
    }
}

/// Builds the entry for a `width` by `height` decode whose BGRA bytes are
/// `pixels`: `None` exactly when the pixels do not fit the size or the cap.
pub fn encode_entry(
    width: u32,
    height: u32,
    source_len: u64,
    source_mtime: u64,
    pixels: &[u8],
) -> (entry: Option<Vec<u8>>)
    ensures
        !pixels_fit(width, height, pixels@) ==> entry is None,
        pixels_fit(width, height, pixels@) ==> entry is Some,
        entry matches Some(bytes) ==> pixels_fit(width, height, pixels@) && bytes@ == entry_bytes(
            width,
            height,
            source_len,
            source_mtime,
            pixels@,
        ),
{
    if pixels.len() > MAX_DECODED_ENTRY_BYTES {
        return None;
    }
    match decoded_len(width, height) {
        Some(len) => {
            if len != pixels.len() {
                return None;
            }
        },
        None => {
            return None;
        },
    }
    let block = match lz4_compress(pixels) {
        Some(block) => block,
        None => {
            return None;
        },
    };
    let mut bytes = encode_entry_prefix(
        width,
        height,
        source_len,
        source_mtime,
        pixels.len() as u32,
    );
    let mut index: usize = 0;
    while index < block.len()
        invariant
            index <= block@.len(),
            bytes@ == entry_prefix(width, height, source_len, source_mtime, pixels@.len() as u32)
                + block@.take(index as int),
        decreases block@.len() - index,
    {
        bytes.push(block[index]);
        assert(block@.take(index + 1) =~= block@.take(index as int).push(block@[index as int]));
        index += 1;
    }
    assert(block@.take(block@.len() as int) =~= block@);
    Some(bytes)
}

/// Reads an entry written for a source of `source_len` bytes last modified
/// at `source_mtime`: the image size and pixels, or `None` when the entry is
/// stale, foreign, truncated, or its block does not decompress to exactly the
/// recorded length. An entry written for the same source reads back as the
/// pixels it was written from.
pub fn decode_entry(bytes: &[u8], source_len: u64, source_mtime: u64) -> (decoded: Option<
    (u32, u32, Vec<u8>),
>)
    ensures
        match decoded {
            Some((width, height, pixels)) => entry_decode(bytes@, source_len, source_mtime)
                == Some((width, height, pixels@)),
            None => entry_decode(bytes@, source_len, source_mtime) is None,
        },
        forall|width: u32, height: u32, original: Seq<u8>|
            pixels_fit(width, height, original) && bytes@
                == #[trigger] entry_bytes(width, height, source_len, source_mtime, original)
                ==> (decoded matches Some((w, h, pixels)) && w == width && h == height
                && pixels@ == original),
{
    let checked = check_entry(bytes, source_len, source_mtime);
    proof {
        assert forall|w: u32, h: u32, original: Seq<u8>|
            pixels_fit(w, h, original) && bytes@ == #[trigger] entry_bytes(
                w,
                h,
                source_len,
                source_mtime,
                original,
            ) implies entry_check(bytes@, source_len, source_mtime) == Some(
            (w, h, original.len() as usize),
        ) && bytes@.subrange(PREFIX_LEN as int, bytes@.len() as int) == lz4_block(original) by {
            lemma_entry_round_trip(w, h, source_len, source_mtime, lz4_block(original));
            assert(bytes@.subrange(PREFIX_LEN as int, bytes@.len() as int) =~= lz4_block(
                original,
            ));
        }
    }
    let (width, height, len) = match checked {
        Some(checked) => checked,
        None => {
            return None;
        },
    };
    let (_, block) = bytes.split_at(PREFIX_LEN);
    let result = lz4_decompress(block, len);
    match result {
        Some((pixels, written)) => {
            if written == len {
                Some((width, height, pixels))
            } else {
                None
            }
        },
        None => None,
    }
}

/// An entry written for a source is refused once the source's size or
/// modification time differs from what the entry records.
pub proof fn lemma_stale_entry_misses(
    width: u32,
    height: u32,
    source_len: u64,
    source_mtime: u64,
    pixels: Seq<u8>,
    current_len: u64,
    current_mtime: u64,
)
    requires
        current_len != source_len || current_mtime != source_mtime,
    ensures
        entry_decode(
            entry_bytes(width, height, source_len, source_mtime, pixels),
            current_len,
            current_mtime,
        ) is None,
{
    let bytes = entry_bytes(width, height, source_len, source_mtime, pixels);
    assert(bytes.subrange(16, 24) =~= le_u64(source_len));
    assert(bytes.subrange(24, 32) =~= le_u64(source_mtime));
    lemma_le_u64_round_trip(source_len);
    lemma_le_u64_round_trip(source_mtime);
    assert(read_le_u64(bytes, 16) == read_le_u64(bytes.subrange(16, 24), 0));
    assert(read_le_u64(bytes, 24) == read_le_u64(bytes.subrange(24, 32), 0));
}

} // verus!
