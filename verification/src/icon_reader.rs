//! Reading `.cur` and `.ico` files back into pixels, from bytes alone.
//!
//! ```text
//! ICONDIR       6 bytes
//! ICONDIRENTRY  16 bytes x N
//! image data    PNG, or a DIB (BITMAPINFOHEADER + XOR + 1bpp AND)
//! ```
//!
//! Every read is bounds-checked against the buffer rather than against what
//! the file claims: the header of a cursor file is a set of offsets and
//! lengths written by somebody else.

use vstd::prelude::*;
use crate::error::AppError;
use crate::bitmap::{Bitmap, Raster, raster_from, offset, lemma_offset_bounds};

verus! {

/// `00 00 01 00` is an icon, `00 00 02 00` a cursor.
pub open spec fn is_icon_header(b: Seq<u8>) -> bool {
    b.len() >= 4 && b[0] == 0 && b[1] == 0 && (b[2] == 1 || b[2] == 2) && b[3] == 0
}

/// `RIFF....ACON`.
pub open spec fn is_ani_header(b: Seq<u8>) -> bool {
    &&& b.len() >= 12
    &&& b[0] == 0x52 && b[1] == 0x49 && b[2] == 0x46 && b[3] == 0x46
    &&& b[8] == 0x41 && b[9] == 0x43 && b[10] == 0x4f && b[11] == 0x4e
}

/// The little-endian 16-bit value at `at`.
pub open spec fn u16_le(b: Seq<u8>, at: int) -> int {
    b[at] + 256 * b[at + 1]
}

/// The little-endian 32-bit value at `at`.
pub open spec fn u32_le(b: Seq<u8>, at: int) -> int {
    b[at] + 256 * b[at + 1] + 65536 * b[at + 2] + 16777216 * b[at + 3]
}

/// A 32-bit pattern read as a two's-complement signed value.
pub open spec fn as_signed(v: int) -> int {
    if v < 0x8000_0000 { v } else { v - 0x1_0000_0000 }
}

/// Whether the bytes start like an icon or a cursor.
pub fn looks_like_an_icon(bytes: &[u8]) -> (out: bool)
    ensures
        out == is_icon_header(bytes@),
{
    bytes.len() >= 4 && bytes[0] == 0 && bytes[1] == 0 && (bytes[2] == 1 || bytes[2] == 2) && bytes[3]
        == 0
}

/// `RIFF....ACON`. The four bytes in between are the file size and are not
/// checked here; a truncated animation is caught where it is parsed.
pub fn looks_like_an_ani(bytes: &[u8]) -> (out: bool)
    ensures
        out == is_ani_header(bytes@),
{
    bytes.len() >= 12 && bytes[0] == 0x52 && bytes[1] == 0x49 && bytes[2] == 0x46 && bytes[3] == 0x46
        && bytes[8] == 0x41 && bytes[9] == 0x43 && bytes[10] == 0x4f && bytes[11] == 0x4e
}

/// The little-endian 16-bit value at `offset`, if the buffer holds it.
pub fn u16_at(bytes: &[u8], offset: usize) -> (out: Option<u16>)
    ensures
        match out {
            Some(v) => offset + 2 <= bytes@.len() && v == u16_le(bytes@, offset as int),
            None => offset + 2 > bytes@.len(),
        },
{
    if offset > bytes.len() || bytes.len() - offset < 2 {
        return None;
    }
    Some(bytes[offset] as u16 + 256 * (bytes[offset + 1] as u16))
}

/// The little-endian 32-bit value at `offset`, if the buffer holds it.
pub fn u32_at(bytes: &[u8], offset: usize) -> (out: Option<u32>)
    ensures
        match out {
            Some(v) => offset + 4 <= bytes@.len() && v == u32_le(bytes@, offset as int),
            None => offset + 4 > bytes@.len(),
        },
{
    if offset > bytes.len() || bytes.len() - offset < 4 {
        return None;
    }
    Some(
        bytes[offset] as u32 + 256 * (bytes[offset + 1] as u32) + 65536 * (bytes[offset + 2] as u32)
            + 16777216 * (bytes[offset + 3] as u32),
    )
}

/// The little-endian signed 32-bit value at `offset`, if the buffer holds it.
pub fn i32_at(bytes: &[u8], offset: usize) -> (out: Option<i32>)
    ensures
        match out {
            Some(v) => offset + 4 <= bytes@.len() && v == as_signed(u32_le(bytes@, offset as int)),
            None => offset + 4 > bytes@.len(),
        },
{
    match u32_at(bytes, offset) {
        Some(v) => {
            if v < 0x8000_0000 {
                Some(v as i32)
            } else {
                Some((v as i64 - 0x1_0000_0000i64) as i32)
            }
        },
        None => None,
    }
}

/// A directory entry, as read rather than as declared.
pub struct Entry {
    /// Declared width and height; zero means 256. Only a hint: the image's
    /// own header is what the pixels are read against.
    pub width: u32,
    pub height: u32,
    pub bit_count: u16,
    pub hotspot: Option<(u16, u16)>,
    pub offset: usize,
    pub length: usize,
}

/// A one-byte side length, where 0 stands for 256.
pub open spec fn side_of(b: u8) -> u32 {
    if b == 0 { 256 } else { b as u32 }
}

/// The directory entry at `index`, read from its 16 bytes.
pub open spec fn raw_entry(b: Seq<u8>, index: int) -> Entry {
    let base = 6 + index * 16;
    let is_cursor = b[2] == 2;
    let bits_or_y = u16_le(b, base + 6) as u16;
    Entry {
        width: side_of(b[base]),
        height: side_of(b[base + 1]),
        bit_count: if is_cursor { 0 } else { bits_or_y },
        hotspot: if is_cursor { Some((u16_le(b, base + 4) as u16, bits_or_y)) } else { None },
        offset: u32_le(b, base + 12) as usize,
        length: u32_le(b, base + 8) as usize,
    }
}

/// An entry whose data lies inside the file, after the directory header.
pub open spec fn entry_in_file(b: Seq<u8>, e: Entry) -> bool {
    e.offset >= 6 && e.length > 0 && e.offset + e.length <= b.len()
}

/// The number of images the file says it holds.
pub open spec fn declared_count(b: Seq<u8>) -> int {
    if b.len() >= 6 { u16_le(b, 4) } else { 0 }
}

/// How many of the declared entries were actually written.
pub open spec fn present_count(b: Seq<u8>) -> int {
    let whole = if b.len() >= 6 { (b.len() - 6) / 16 } else { 0 };
    if declared_count(b) < whole { declared_count(b) } else { whole }
}

/// The usable entries among the first `k`, in file order.
pub open spec fn usable_entries(b: Seq<u8>, k: int) -> Seq<Entry>
    decreases k,
{
    if k <= 0 {
        Seq::empty()
    } else {
        let prev = usable_entries(b, k - 1);
        let e = raw_entry(b, k - 1);
        if entry_in_file(b, e) { prev.push(e) } else { prev }
    }
}

/// What the directory of a `.cur` or `.ico` yields.
pub open spec fn directory_of(b: Seq<u8>) -> Result<Seq<Entry>, AppError> {
    if !is_icon_header(b) {
        Err(AppError::NotACursorFile)
    } else if declared_count(b) == 0 {
        Err(AppError::NoImages)
    } else if usable_entries(b, present_count(b)).len() == 0 {
        Err(AppError::NoImageInDirectory)
    } else {
        Ok(usable_entries(b, present_count(b)))
    }
}

/// Every usable entry lies inside the file and declares at most 256 px a side.
pub proof fn lemma_usable_entries_in_file(b: Seq<u8>, k: int)
    ensures
        forall|j: int|
            0 <= j < usable_entries(b, k).len() ==> entry_in_file(b, #[trigger] usable_entries(b, k)[j])
                && usable_entries(b, k)[j].width <= 256 && usable_entries(b, k)[j].height <= 256,
    decreases k,
{
    if k > 0 {
        lemma_usable_entries_in_file(b, k - 1);
        let prev = usable_entries(b, k - 1);
        let e = raw_entry(b, k - 1);
        assert forall|j: int| 0 <= j < usable_entries(b, k).len() implies entry_in_file(
            b,
            #[trigger] usable_entries(b, k)[j],
        ) && usable_entries(b, k)[j].width <= 256 && usable_entries(b, k)[j].height <= 256 by {
            if entry_in_file(b, e) && j == prev.len() {
                assert(usable_entries(b, k)[j] == e);
            } else {
                assert(usable_entries(b, k)[j] == prev[j]);
            }
        }
    }
}

/// Reads the directory of a `.cur` or `.ico`. A count is a claim: entries
/// past the end of the file are ignored, and so is any entry whose data
/// would lie outside it.
fn directory(bytes: &[u8]) -> (out: Result<Vec<Entry>, AppError>)
    ensures
        match out {
            Ok(es) => directory_of(bytes@) == Ok::<Seq<Entry>, AppError>(es@),
            Err(e) => directory_of(bytes@) == Err::<Seq<Entry>, AppError>(e),
        },
{
    if !looks_like_an_icon(bytes) {
        return Err(AppError::NotACursorFile);
    }
    let is_cursor = bytes[2] == 2;
    let count: usize = match u16_at(bytes, 4) {
        Some(c) => c as usize,
        None => 0,
    };
    if count == 0 {
        return Err(AppError::NoImages);
    }
    let ghost b = bytes@;
    let whole: usize = (bytes.len() - 6) / 16;
    let present = if count < whole { count } else { whole };
    assert(present == present_count(b));

    let mut entries: Vec<Entry> = Vec::new();
    let mut index: usize = 0;
    while index < present
        invariant
            b == bytes@,
            b.len() >= 6,
            is_cursor == (b[2] == 2),
            present == present_count(b),
            present * 16 + 6 <= b.len(),
            index <= present,
            entries@ == usable_entries(b, index as int),
        decreases present - index,
    {
        let base = 6 + index * 16;
        let raw = &bytes[base..base + 16];
        proof {
            assert forall|i: int| 0 <= i < 16 implies raw@[i] == b[base + i] by {}
        }
        let width: u32 = if raw[0] == 0 { 256 } else { raw[0] as u32 };
        let height: u32 = if raw[1] == 0 { 256 } else { raw[1] as u32 };
        let planes_or_x = raw[4] as u16 + 256 * (raw[5] as u16);
        let bits_or_y = raw[6] as u16 + 256 * (raw[7] as u16);
        let length = (raw[8] as u32 + 256 * (raw[9] as u32) + 65536 * (raw[10] as u32) + 16777216 * (
        raw[11] as u32)) as usize;
        let offset = (raw[12] as u32 + 256 * (raw[13] as u32) + 65536 * (raw[14] as u32) + 16777216 * (
        raw[15] as u32)) as usize;
        let e = Entry {
            width,
            height,
            bit_count: if is_cursor { 0 } else { bits_or_y },
            hotspot: if is_cursor { Some((planes_or_x, bits_or_y)) } else { None },
            offset,
            length,
        };
        assert(e == raw_entry(b, index as int));
        if offset >= 6 && length > 0 && offset <= bytes.len() && length <= bytes.len() - offset {
            entries.push(e);
        }
        index = index + 1;
    }
    if entries.len() == 0 {
        return Err(AppError::NoImageInDirectory);
    }
    Ok(entries)
}

/// The largest side an image inside a cursor file may have. The format's
/// own limit is 256; a few tools write larger frames, and there is no reason
/// to refuse art that can be used.
pub const MAX_ICON_DIMENSION: u32 = 1024;

/// Bytes in one DIB row of `width` pixels at `bits` per pixel, padded to four.
pub open spec fn row_stride(width: int, bits: int) -> int {
    ((width * bits + 31) / 32) * 4
}

/// How many palette entries a depth implies when the header gives none.
pub open spec fn palette_size(bits: int) -> int {
    if bits == 1 {
        2
    } else if bits == 2 {
        4
    } else if bits == 3 {
        8
    } else if bits == 4 {
        16
    } else if bits == 5 {
        32
    } else if bits == 6 {
        64
    } else if bits == 7 {
        128
    } else {
        256
    }
}

/// What a DIB header says about the pixels that follow it, once checked
/// against the buffer.
#[derive(Clone, Copy)]
pub struct DibLayout {
    pub width: u32,
    pub height: u32,
    /// Rows run top-down (a negative declared height).
    pub top_down: bool,
    /// A 1-bpp transparency mask follows the colour rows.
    pub has_mask: bool,
    pub bit_count: u16,
    pub palette_offset: u64,
    pub palette_len: u64,
    pub pixels_offset: u64,
    pub xor_stride: u64,
    pub and_stride: u64,
}

/// How a DIB's header is read: `Ok` with the layout it describes, or the
/// reason it is refused. `entry_height` is the height the directory declared.
pub open spec fn dib_layout_of(d: Seq<u8>, entry_height: u32) -> Result<DibLayout, AppError> {
    let hs = if d.len() >= 4 { u32_le(d, 0) } else { 0 };
    if hs < 40 || hs > d.len() {
        Err(AppError::UnrecognisedHeader)
    } else {
        let width = as_signed(u32_le(d, 4));
        let dh = as_signed(u32_le(d, 8));
        let bc = u16_le(d, 14);
        let comp = u32_le(d, 16);
        let used = u32_le(d, 32);
        if width <= 0 || dh == 0 {
            Err(AppError::EmptyImage)
        } else if comp != 0 && comp != 3 {
            Err(AppError::UnsupportedCompression)
        } else {
            let top_down = dh < 0;
            let stated = if dh < 0 { -dh } else { dh };
            let eh = entry_height as int;
            let cap = if eh < stated { eh } else { stated };
            // A positive height that is twice the picture's says the
            // transparency mask is stacked below the colour rows.
            let stacked = !top_down && stated % 2 == 0 && stated / 2 >= cap;
            let height = if stacked { stated / 2 } else { stated };
            if height == 0 {
                Err(AppError::EmptyImage)
            } else if width > 1024 || height > 1024 {
                Err(AppError::OversizedImage)
            } else {
                let po = hs + if comp == 3 { 12int } else { 0int };
                let pl = if 1 <= bc <= 8 {
                    if used == 0 { palette_size(bc) } else if used < 256 { used } else { 256 }
                } else {
                    0
                };
                let px = po + pl * 4;
                let xs = row_stride(width, bc);
                let ands = row_stride(width, 1);
                if xs == 0 {
                    Err(AppError::NoColourDepth)
                } else {
                    let avail = if d.len() >= px { d.len() - px } else { 0 };
                    if avail < xs * height {
                        Err(AppError::TruncatedPixels)
                    } else {
                        Ok(
                            DibLayout {
                                width: width as u32,
                                height: height as u32,
                                top_down,
                                has_mask: stacked && avail >= xs * height + ands * height,
                                bit_count: bc as u16,
                                palette_offset: po as u64,
                                palette_len: pl as u64,
                                pixels_offset: px as u64,
                                xor_stride: xs as u64,
                                and_stride: ands as u64,
                            },
                        )
                    }
                }
            }
        }
    }
}

/// The facts about an accepted layout that every pixel read relies on.
pub open spec fn layout_ok(d: Seq<u8>, l: DibLayout) -> bool {
    &&& 1 <= l.width <= 1024
    &&& 1 <= l.height <= 1024
    &&& l.xor_stride == row_stride(l.width as int, l.bit_count as int)
    &&& l.and_stride == row_stride(l.width as int, 1)
    &&& l.xor_stride >= 1
    &&& l.palette_len <= 256
    &&& l.pixels_offset == l.palette_offset + l.palette_len * 4
    &&& l.pixels_offset + l.xor_stride * l.height <= d.len()
    &&& l.has_mask ==> l.pixels_offset + l.xor_stride * l.height + l.and_stride * l.height <= d.len()
}

/// The stored row that is shown at `y`: DIB rows run bottom-up unless the
/// declared height was negative.
pub open spec fn row_of(l: DibLayout, y: int) -> int {
    if l.top_down { y } else { l.height - 1 - y }
}

/// Byte `i` of the colour row shown at `y`, 0 past the row's end.
pub open spec fn xor_byte(d: Seq<u8>, l: DibLayout, y: int, i: int) -> u8 {
    if 0 <= i < l.xor_stride {
        d[l.pixels_offset + row_of(l, y) * l.xor_stride + i]
    } else {
        0
    }
}

/// Byte `i` of the mask row shown at `y`, 0 past the row's end.
pub open spec fn and_byte_at(d: Seq<u8>, l: DibLayout, y: int, i: int) -> u8 {
    if 0 <= i < l.and_stride {
        d[l.pixels_offset + l.xor_stride * l.height + row_of(l, y) * l.and_stride + i]
    } else {
        0
    }
}

/// `2^(7 - j)`: the weight of bit `j` of a byte, counting from the left.
pub open spec fn bit_weight(j: int) -> int {
    if j == 0 {
        128
    } else if j == 1 {
        64
    } else if j == 2 {
        32
    } else if j == 3 {
        16
    } else if j == 4 {
        8
    } else if j == 5 {
        4
    } else if j == 6 {
        2
    } else {
        1
    }
}

/// Bit `j` of a byte, counting from the most significant.
pub open spec fn bit_at(byte: int, j: int) -> int {
    (byte / bit_weight(j)) % 2
}

/// Palette entry `i`, stored BGR plus a reserved byte; opaque black where
/// the entry is missing.
pub open spec fn palette_colour(d: Seq<u8>, l: DibLayout, i: int) -> Seq<u8> {
    let at = l.palette_offset + i * 4;
    if 0 <= i < l.palette_len && at + 4 <= d.len() {
        seq![d[at + 2], d[at + 1], d[at], 255u8]
    } else {
        seq![0u8, 0u8, 0u8, 255u8]
    }
}

/// A 5-bit channel widened to 8 bits.
pub open spec fn expand5(v: int) -> u8 {
    (v * 8 + v / 4) as u8
}

/// Pixel `(x, y)` as the colour rows give it, at the declared depth.
pub open spec fn sampled(d: Seq<u8>, l: DibLayout, x: int, y: int) -> Seq<u8> {
    let bc = l.bit_count;
    if bc == 1 {
        palette_colour(d, l, bit_at(xor_byte(d, l, y, x / 8) as int, x % 8))
    } else if bc == 4 {
        let b = xor_byte(d, l, y, x / 2) as int;
        palette_colour(d, l, if x % 2 == 0 { b / 16 } else { b % 16 })
    } else if bc == 8 {
        palette_colour(d, l, xor_byte(d, l, y, x) as int)
    } else if bc == 16 {
        // X1R5G5B5
        let v = xor_byte(d, l, y, 2 * x) + 256 * xor_byte(d, l, y, 2 * x + 1);
        seq![expand5((v / 1024) % 32), expand5((v / 32) % 32), expand5(v % 32), 255u8]
    } else if bc == 24 {
        seq![xor_byte(d, l, y, 3 * x + 2), xor_byte(d, l, y, 3 * x + 1), xor_byte(d, l, y, 3 * x), 255u8]
    } else if bc == 32 {
        seq![
            xor_byte(d, l, y, 4 * x + 2),
            xor_byte(d, l, y, 4 * x + 1),
            xor_byte(d, l, y, 4 * x),
            if 4 * x + 3 < l.xor_stride { xor_byte(d, l, y, 4 * x + 3) } else { 255u8 },
        ]
    } else {
        seq![0u8, 0u8, 0u8, 0u8]
    }
}

/// In a 16-colour image two pixels share each byte of a row, the left one
/// in the high four bits: pixel `2k` takes its palette index from
/// `byte >> 4` and pixel `2k + 1` from `byte & 0x0f`, where `byte` is byte
/// `k` of the row.
pub proof fn law_four_bit_pixels_read_high_nibble_first(d: Seq<u8>, l: DibLayout, k: int, y: int)
    requires
        l.bit_count == 4,
        k >= 0,
    ensures
        sampled(d, l, 2 * k, y) == palette_colour(d, l, (xor_byte(d, l, y, k) >> 4u8) as int),
        sampled(d, l, 2 * k + 1, y) == palette_colour(d, l, (xor_byte(d, l, y, k) & 0x0fu8) as int),
{
    let b = xor_byte(d, l, y, k);
    assert(b >> 4u8 == b / 16) by (bit_vector);
    assert(b & 0x0fu8 == b % 16) by (bit_vector);
    assert((2 * k) / 2 == k && (2 * k) % 2 == 0);
    assert((2 * k + 1) / 2 == k && (2 * k + 1) % 2 == 1);
}

/// In a two-colour image eight pixels share each byte of a row, the
/// leftmost in the most significant bit: pixel `8k + j` takes its palette
/// index from bit `7 - j` of byte `k`.
pub proof fn law_one_bit_pixels_read_most_significant_first(d: Seq<u8>, l: DibLayout, k: int, j: int, y: int)
    requires
        l.bit_count == 1,
        k >= 0,
        0 <= j < 8,
    ensures
        sampled(d, l, 8 * k + j, y) == palette_colour(d, l, ((xor_byte(d, l, y, k) >> (7 - j) as u8) & 1u8) as int),
{
    let b = xor_byte(d, l, y, k);
    assert((8 * k + j) / 8 == k && (8 * k + j) % 8 == j);
    if j == 0 {
        assert((b >> 7u8) & 1u8 == (b / 128) % 2) by (bit_vector);
    } else if j == 1 {
        assert((b >> 6u8) & 1u8 == (b / 64) % 2) by (bit_vector);
    } else if j == 2 {
        assert((b >> 5u8) & 1u8 == (b / 32) % 2) by (bit_vector);
    } else if j == 3 {
        assert((b >> 4u8) & 1u8 == (b / 16) % 2) by (bit_vector);
    } else if j == 4 {
        assert((b >> 3u8) & 1u8 == (b / 8) % 2) by (bit_vector);
    } else if j == 5 {
        assert((b >> 2u8) & 1u8 == (b / 4) % 2) by (bit_vector);
    } else if j == 6 {
        assert((b >> 1u8) & 1u8 == (b / 2) % 2) by (bit_vector);
    } else {
        assert((b >> 0u8) & 1u8 == (b / 1) % 2) by (bit_vector);
    }
}

/// The mask bit of pixel `(x, y)`: set means transparent.
pub open spec fn and_bit(d: Seq<u8>, l: DibLayout, x: int, y: int) -> bool {
    bit_at(and_byte_at(d, l, y, x / 8) as int, x % 8) == 1
}

/// The colour bit of a 1-bpp pixel.
pub open spec fn xor_bit(d: Seq<u8>, l: DibLayout, x: int, y: int) -> bool {
    bit_at(xor_byte(d, l, y, x / 8) as int, x % 8) == 1
}

/// Pixel `(x, y)` once the transparency mask is applied.
///
/// A 1-bpp cursor is a pair of masks with four states: AND 0 is the colour,
/// AND 1 with XOR 0 is transparent, and AND 1 with XOR 1 (invert the screen)
/// becomes opaque black, which is what an inverted pointer looks like over
/// the light backgrounds such cursors were drawn for.
pub open spec fn masked(d: Seq<u8>, l: DibLayout, x: int, y: int) -> Seq<u8> {
    let p = sampled(d, l, x, y);
    if !l.has_mask || !and_bit(d, l, x, y) {
        p
    } else if l.bit_count == 1 && xor_bit(d, l, x, y) {
        seq![0u8, 0u8, 0u8, 255u8]
    } else {
        seq![p[0], p[1], p[2], 0u8]
    }
}

/// Every pixel's alpha is zero once the mask is applied.
pub open spec fn all_clear(d: Seq<u8>, l: DibLayout) -> bool {
    forall|x: int, y: int|
        0 <= x < l.width && 0 <= y < l.height ==> #[trigger] masked(d, l, x, y)[3] == 0
}

/// Pixel `(x, y)` of the decoded image. A 32-bit image whose alpha is zero
/// everywhere was written before alpha was used: its transparency is the
/// mask's alone, or it has none.
pub open spec fn dib_pixel(d: Seq<u8>, l: DibLayout, x: int, y: int) -> Seq<u8> {
    let p = masked(d, l, x, y);
    if l.bit_count == 32 && all_clear(d, l) {
        seq![p[0], p[1], p[2], if l.has_mask && and_bit(d, l, x, y) { 0u8 } else { 255u8 }]
    } else {
        p
    }
}

/// The decoded image.
pub open spec fn dib_raster(d: Seq<u8>, l: DibLayout) -> Raster {
    raster_from(l.width as nat, l.height as nat, |x: int, y: int, c: int| dib_pixel(d, l, x, y)[c])
}

/// Bytes per DIB row, padded to the 4-byte boundary every row sits on.
fn stride(width: u32, bits: u32) -> (s: u64)
    requires
        width <= 1024,
        bits <= 65535,
    ensures
        s == row_stride(width as int, bits as int),
        s <= 8400000,
        bits == 1 ==> s <= 132,
{
    assert(0 <= (width as int) * (bits as int) <= 1024 * 65535) by (nonlinear_arith)
        requires
            width <= 1024,
            bits <= 65535,
    ;
    (((width as u64) * (bits as u64) + 31) / 32) * 4
}

/// Reads a DIB header and checks it against the buffer.
#[verifier::rlimit(40)]
fn dib_layout(data: &[u8], entry_height: u32) -> (out: Result<DibLayout, AppError>)
    ensures
        out == dib_layout_of(data@, entry_height),
        out matches Ok(l) ==> layout_ok(data@, l),
{
    let ghost d = data@;
    let header_size: u64 = match u32_at(data, 0) {
        Some(v) => v as u64,
        None => 0,
    };
    if header_size < 40 || header_size > data.len() as u64 {
        return Err(AppError::UnrecognisedHeader);
    }
    let width: i64 = match i32_at(data, 4) { Some(v) => v as i64, None => 0 };
    let declared_height: i64 = match i32_at(data, 8) { Some(v) => v as i64, None => 0 };
    let bit_count: u16 = match u16_at(data, 14) { Some(v) => v, None => 0 };
    let compression: u32 = match u32_at(data, 16) { Some(v) => v, None => 0 };
    let colours_used: u32 = match u32_at(data, 32) { Some(v) => v, None => 0 };

    if width <= 0 || declared_height == 0 {
        return Err(AppError::EmptyImage);
    }
    if compression != 0 && compression != 3 {
        return Err(AppError::UnsupportedCompression);
    }
    let top_down = declared_height < 0;
    let stated: i64 = if declared_height < 0 { -declared_height } else { declared_height };
    let eh = entry_height as i64;
    let cap = if eh < stated { eh } else { stated };
    let stacked = !top_down && stated % 2 == 0 && stated / 2 >= cap;
    let height: i64 = if stacked { stated / 2 } else { stated };
    if height == 0 {
        return Err(AppError::EmptyImage);
    }
    if width > 1024 || height > 1024 {
        return Err(AppError::OversizedImage);
    }
    let palette_offset: u64 = header_size + if compression == 3 { 12 } else { 0 };
    let palette_len: u64 = if 1 <= bit_count && bit_count <= 8 {
        if colours_used == 0 {
            if bit_count == 1 {
                2
            } else if bit_count == 2 {
                4
            } else if bit_count == 3 {
                8
            } else if bit_count == 4 {
                16
            } else if bit_count == 5 {
                32
            } else if bit_count == 6 {
                64
            } else if bit_count == 7 {
                128
            } else {
                256
            }
        } else if colours_used < 256 {
            colours_used as u64
        } else {
            256
        }
    } else {
        0
    };
    let pixels_offset = palette_offset + palette_len * 4;
    let xor_stride = stride(width as u32, bit_count as u32);
    let and_stride = stride(width as u32, 1);
    if xor_stride == 0 {
        return Err(AppError::NoColourDepth);
    }
    let len = data.len() as u64;
    let available: u64 = if len >= pixels_offset { len - pixels_offset } else { 0 };
    assert(0 <= (xor_stride as int) * (height as int) <= 8500000 * 1024) by (nonlinear_arith)
        requires
            xor_stride <= 8500000,
            1 <= height <= 1024,
    ;
    assert(0 <= (and_stride as int) * (height as int) <= 132 * 1024) by (nonlinear_arith)
        requires
            and_stride <= 132,
            1 <= height <= 1024,
    ;
    let xor_len = xor_stride * (height as u64);
    let and_len = and_stride * (height as u64);
    if available < xor_len {
        return Err(AppError::TruncatedPixels);
    }
    let l = DibLayout {
        width: width as u32,
        height: height as u32,
        top_down,
        has_mask: stacked && available >= xor_len + and_len,
        bit_count,
        palette_offset,
        palette_len,
        pixels_offset,
        xor_stride,
        and_stride,
    };
    assert(Ok::<DibLayout, AppError>(l) == dib_layout_of(d, entry_height));
    assert(l.xor_stride * l.height == xor_len);
    assert(l.and_stride * l.height == and_len);
    assert(xor_len >= 1) by (nonlinear_arith)
        requires
            xor_stride >= 1,
            height >= 1,
            xor_len == xor_stride * height,
    ;
    Ok(l)
}

/// Every byte of every colour row lies inside the buffer.
proof fn lemma_xor_index(d: Seq<u8>, l: DibLayout, y: int, i: int)
    requires
        layout_ok(d, l),
        0 <= y < l.height,
        0 <= i < l.xor_stride,
    ensures
        0 <= row_of(l, y) < l.height,
        0 <= l.pixels_offset + row_of(l, y) * l.xor_stride + i < d.len(),
{
    let row = row_of(l, y);
    assert(0 <= row * l.xor_stride + i < l.xor_stride * l.height) by (nonlinear_arith)
        requires
            0 <= row < l.height,
            0 <= i < l.xor_stride,
    ;
}

/// Every byte of every mask row lies inside the buffer.
proof fn lemma_and_index(d: Seq<u8>, l: DibLayout, y: int, i: int)
    requires
        layout_ok(d, l),
        l.has_mask,
        0 <= y < l.height,
        0 <= i < l.and_stride,
    ensures
        0 <= l.pixels_offset + l.xor_stride * l.height + row_of(l, y) * l.and_stride + i < d.len(),
{
    let row = row_of(l, y);
    assert(0 <= row * l.and_stride + i < l.and_stride * l.height) by (nonlinear_arith)
        requires
            0 <= row < l.height,
            0 <= i < l.and_stride,
    ;
    assert(0 <= l.xor_stride * l.height) by (nonlinear_arith)
        requires
            l.xor_stride >= 0,
            l.height >= 0,
    ;
}

/// Byte `i` of the colour row shown at `y`.
fn xor_byte_in(data: &[u8], l: &DibLayout, y: u32, i: u64) -> (b: u8)
    requires
        layout_ok(data@, *l),
        y < l.height,
    ensures
        b == xor_byte(data@, *l, y as int, i as int),
{
    if i >= l.xor_stride {
        return 0;
    }
    let row: u64 = if l.top_down { y as u64 } else { (l.height - 1 - y) as u64 };
    let n = data.len();
    proof {
        lemma_xor_index(data@, *l, y as int, i as int);
        assert(row == row_of(*l, y as int));
        assert(l.pixels_offset + (row as int) * (l.xor_stride as int) + i < data@.len());
        assert(0 <= (row as int) * (l.xor_stride as int)) by (nonlinear_arith)
            requires
                row >= 0,
                l.xor_stride >= 0,
        ;
    }
    data[(l.pixels_offset + row * l.xor_stride + i) as usize]
}

/// Byte `i` of the mask row shown at `y`.
fn and_byte_in(data: &[u8], l: &DibLayout, y: u32, i: u64) -> (b: u8)
    requires
        layout_ok(data@, *l),
        l.has_mask,
        y < l.height,
    ensures
        b == and_byte_at(data@, *l, y as int, i as int),
{
    if i >= l.and_stride {
        return 0;
    }
    let row: u64 = if l.top_down { y as u64 } else { (l.height - 1 - y) as u64 };
    let n = data.len();
    proof {
        lemma_and_index(data@, *l, y as int, i as int);
        assert(row == row_of(*l, y as int));
        assert(0 <= (row as int) * (l.and_stride as int)) by (nonlinear_arith)
            requires
                row >= 0,
                l.and_stride >= 0,
        ;
        assert(0 <= (l.xor_stride as int) * (l.height as int)) by (nonlinear_arith)
            requires
                l.height >= 0,
                l.xor_stride >= 0,
        ;
    }
    data[(l.pixels_offset + l.xor_stride * (l.height as u64) + row * l.and_stride + i) as usize]
}

/// Bit `j` of a byte, counting from the most significant.
fn bit_of(byte: u8, j: u32) -> (b: u8)
    requires
        j < 8,
    ensures
        b == bit_at(byte as int, j as int),
        b <= 1,
{
    let weight: u8 = if j == 0 {
        128
    } else if j == 1 {
        64
    } else if j == 2 {
        32
    } else if j == 3 {
        16
    } else if j == 4 {
        8
    } else if j == 5 {
        4
    } else if j == 6 {
        2
    } else {
        1
    };
    (byte / weight) % 2
}

/// Palette entry `i`.
fn palette_colour_in(data: &[u8], l: &DibLayout, i: u64) -> (rgba: [u8; 4])
    requires
        layout_ok(data@, *l),
        i < 256,
    ensures
        rgba@ == palette_colour(data@, *l, i as int),
{
    if i < l.palette_len && l.palette_offset + i * 4 + 4 <= data.len() as u64 {
        let at = (l.palette_offset + i * 4) as usize;
        let out = [data[at + 2], data[at + 1], data[at], 255];
        assert(out@ =~= palette_colour(data@, *l, i as int));
        out
    } else {
        let out = [0, 0, 0, 255];
        assert(out@ =~= palette_colour(data@, *l, i as int));
        out
    }
}

/// A 5-bit channel widened to 8 bits.
fn expand5_in(v: u32) -> (out: u8)
    requires
        v < 32,
    ensures
        out == expand5(v as int),
{
    (v * 8 + v / 4) as u8
}

/// Pixel `(x, y)` as the colour rows give it.
fn sampled_in(data: &[u8], l: &DibLayout, x: u32, y: u32) -> (rgba: [u8; 4])
    requires
        layout_ok(data@, *l),
        x < l.width,
        y < l.height,
    ensures
        rgba@ == sampled(data@, *l, x as int, y as int),
{
    let ghost d = data@;
    let bc = l.bit_count;
    let xs = x as u64;
    let out: [u8; 4] = if bc == 1 {
        let byte = xor_byte_in(data, l, y, xs / 8);
        palette_colour_in(data, l, bit_of(byte, x % 8) as u64)
    } else if bc == 4 {
        let b = xor_byte_in(data, l, y, xs / 2);
        palette_colour_in(data, l, if x % 2 == 0 { (b / 16) as u64 } else { (b % 16) as u64 })
    } else if bc == 8 {
        palette_colour_in(data, l, xor_byte_in(data, l, y, xs) as u64)
    } else if bc == 16 {
        let v = xor_byte_in(data, l, y, 2 * xs) as u32 + 256 * (xor_byte_in(data, l, y, 2 * xs + 1) as u32);
        [expand5_in((v / 1024) % 32), expand5_in((v / 32) % 32), expand5_in(v % 32), 255]
    } else if bc == 24 {
        [
            xor_byte_in(data, l, y, 3 * xs + 2),
            xor_byte_in(data, l, y, 3 * xs + 1),
            xor_byte_in(data, l, y, 3 * xs),
            255,
        ]
    } else if bc == 32 {
        let alpha = if 4 * xs + 3 < l.xor_stride { xor_byte_in(data, l, y, 4 * xs + 3) } else { 255 };
        [xor_byte_in(data, l, y, 4 * xs + 2), xor_byte_in(data, l, y, 4 * xs + 1), xor_byte_in(data, l, y, 4 * xs), alpha]
    } else {
        [0, 0, 0, 0]
    };
    assert(out@ =~= sampled(d, *l, x as int, y as int));
    out
}

/// The mask bit of pixel `(x, y)`.
fn and_bit_in(data: &[u8], l: &DibLayout, x: u32, y: u32) -> (set: bool)
    requires
        layout_ok(data@, *l),
        l.has_mask,
        y < l.height,
    ensures
        set == and_bit(data@, *l, x as int, y as int),
{
    bit_of(and_byte_in(data, l, y, (x / 8) as u64), x % 8) == 1
}

/// Pixel `(x, y)` once the transparency mask is applied.
fn masked_in(data: &[u8], l: &DibLayout, x: u32, y: u32) -> (rgba: [u8; 4])
    requires
        layout_ok(data@, *l),
        x < l.width,
        y < l.height,
    ensures
        rgba@ == masked(data@, *l, x as int, y as int),
{
    let p = sampled_in(data, l, x, y);
    if !l.has_mask || !and_bit_in(data, l, x, y) {
        return p;
    }
    let out = if l.bit_count == 1 && bit_of(xor_byte_in(data, l, y, (x / 8) as u64), x % 8) == 1 {
        [0, 0, 0, 255]
    } else {
        [p[0], p[1], p[2], 0]
    };
    assert(out@ =~= masked(data@, *l, x as int, y as int));
    out
}

/// Whether every pixel's alpha is zero once the mask is applied.
fn all_clear_in(data: &[u8], l: &DibLayout) -> (clear: bool)
    requires
        layout_ok(data@, *l),
    ensures
        clear == all_clear(data@, *l),
{
    let mut y: u32 = 0;
    while y < l.height
        invariant
            layout_ok(data@, *l),
            y <= l.height,
            forall|x2: int, y2: int|
                0 <= x2 < l.width && 0 <= y2 < y ==> #[trigger] masked(data@, *l, x2, y2)[3] == 0,
        decreases l.height - y,
    {
        let mut x: u32 = 0;
        while x < l.width
            invariant
                layout_ok(data@, *l),
                y < l.height,
                x <= l.width,
                forall|x2: int, y2: int|
                    (0 <= x2 < l.width && 0 <= y2 < y) || (0 <= x2 < x && y2 == y) ==> #[trigger] masked(
                        data@,
                        *l,
                        x2,
                        y2,
                    )[3] == 0,
            decreases l.width - x,
        {
            let p = masked_in(data, l, x, y);
            if p[3] != 0 {
                assert(masked(data@, *l, x as int, y as int)[3] != 0);
                return false;
            }
            x = x + 1;
        }
        y = y + 1;
    }
    true
}

/// Pixel `(x, y)` of the decoded image.
fn dib_pixel_in(data: &[u8], l: &DibLayout, clear: bool, x: u32, y: u32) -> (rgba: [u8; 4])
    requires
        layout_ok(data@, *l),
        clear == (l.bit_count == 32 && all_clear(data@, *l)),
        x < l.width,
        y < l.height,
    ensures
        rgba@ == dib_pixel(data@, *l, x as int, y as int),
{
    let p = masked_in(data, l, x, y);
    if clear {
        let a: u8 = if l.has_mask && and_bit_in(data, l, x, y) { 0 } else { 255 };
        let out = [p[0], p[1], p[2], a];
        assert(out@ =~= dib_pixel(data@, *l, x as int, y as int));
        out
    } else {
        p
    }
}

/// Decodes the DIB half of an icon entry: a header, a colour bitmap, and a
/// 1-bpp transparency mask stacked underneath it.
fn decode_dib(data: &[u8], entry_height: u32) -> (out: Result<Bitmap, AppError>)
    ensures
        match out {
            Ok(b) => dib_layout_of(data@, entry_height) matches Ok(l) && b@ == dib_raster(data@, l)
                && b@.wf(),
            Err(e) => dib_layout_of(data@, entry_height) == Err::<DibLayout, AppError>(e),
        },
{
    let l = match dib_layout(data, entry_height) {
        Ok(l) => l,
        Err(e) => return Err(e),
    };
    let clear = if l.bit_count == 32 { all_clear_in(data, &l) } else { false };
    let (w, h) = (l.width, l.height);
    let ghost target = dib_raster(data@, l);
    let mut pixels: Vec<u8> = Vec::new();
    let mut y: u32 = 0;
    while y < h
        invariant
            layout_ok(data@, l),
            w == l.width,
            h == l.height,
            clear == (l.bit_count == 32 && all_clear(data@, l)),
            target == dib_raster(data@, l),
            y <= h,
            pixels@.len() == (y as int) * (w as int) * 4,
            forall|k: int| 0 <= k < pixels@.len() ==> #[trigger] pixels@[k] == target.bytes[k],
        decreases h - y,
    {
        let mut x: u32 = 0;
        while x < w
            invariant
                layout_ok(data@, l),
                w == l.width,
                h == l.height,
                clear == (l.bit_count == 32 && all_clear(data@, l)),
                target == dib_raster(data@, l),
                y < h,
                x <= w,
                pixels@.len() == ((y as int) * (w as int) + x) * 4,
                forall|k: int| 0 <= k < pixels@.len() ==> #[trigger] pixels@[k] == target.bytes[k],
            decreases w - x,
        {
            let p = dib_pixel_in(data, &l, clear, x, y);
            let ghost before = pixels@;
            pixels.push(p[0]);
            pixels.push(p[1]);
            pixels.push(p[2]);
            pixels.push(p[3]);
            proof {
                let base = ((y as int) * (w as int) + x) * 4;
                assert((y as int) * (w as int) + x + 1 <= (h as int) * (w as int)) by (nonlinear_arith)
                    requires
                        y < h,
                        x < w,
                ;
                assert((h as int) * (w as int) * 4 == target.bytes.len()) by (nonlinear_arith)
                    requires
                        target.bytes.len() == (w as int) * (h as int) * 4,
                ;
                assert forall|k: int| 0 <= k < base + 4 implies #[trigger] pixels@[k] == target.bytes[k] by {
                    if k >= base {
                        let c = k - base;
                        crate::cur_writer::lemma_row_col_pub(k, 4, (y as int) * (w as int) + x, c);
                        crate::cur_writer::lemma_row_col_pub(k / 4, w as int, y as int, x as int);
                    } else {
                        assert(pixels@[k] == before[k]);
                    }
                }
            }
            x = x + 1;
        }
        assert(((y as int) * (w as int) + w) * 4 == ((y + 1) as int) * (w as int) * 4) by (nonlinear_arith);
        y = y + 1;
    }
    let bitmap = Bitmap { width: w, height: h, pixels };
    assert((h as int) * (w as int) * 4 == target.bytes.len()) by (nonlinear_arith)
        requires
            target.bytes.len() == (w as int) * (h as int) * 4,
    ;
    assert(bitmap@.bytes =~= target.bytes);
    Ok(bitmap)
}

/// What the `image` crate decodes PNG bytes to, as 8-bit RGBA: width, height
/// and the pixel bytes, or nothing where it refuses the bytes.
pub uninterp spec fn png_rgba(data: Seq<u8>) -> Option<(u32, u32, Seq<u8>)>;

/// Decodes PNG bytes to 8-bit RGBA with `image::load_from_memory_with_format`
/// and `DynamicImage::to_rgba8`. The contract names the result and claims
/// nothing else of it; the size checks are made by the caller.
#[verifier::external_body]
fn decode_png(data: &[u8]) -> (out: Option<(u32, u32, Vec<u8>)>)
    ensures
        match out {
            Some((w, h, px)) => png_rgba(data@) == Some((w, h, px@)),
            None => png_rgba(data@) == None::<(u32, u32, Seq<u8>)>,
        },
{
    match image::load_from_memory_with_format(data, image::ImageFormat::Png) {
        Ok(decoded) => {
            let rgba = decoded.to_rgba8();
            Some((rgba.width(), rgba.height(), rgba.into_raw()))
        },
        Err(_) => None,
    }
}

/// The eight-byte PNG signature.
pub open spec fn is_png(d: Seq<u8>) -> bool {
    &&& d.len() >= 8
    &&& d[0] == 0x89 && d[1] == 0x50 && d[2] == 0x4e && d[3] == 0x47
    &&& d[4] == 0x0d && d[5] == 0x0a && d[6] == 0x1a && d[7] == 0x0a
}

/// The size checks every image inside a cursor file passes.
pub open spec fn guarded(width: int, height: int) -> Result<(), AppError> {
    if width == 0 || height == 0 {
        Err(AppError::EmptyImage)
    } else if width > 1024 || height > 1024 {
        Err(AppError::OversizedImage)
    } else {
        Ok(())
    }
}

fn guard(width: u32, height: u32) -> (out: Result<(), AppError>)
    ensures
        out == guarded(width as int, height as int),
{
    if width == 0 || height == 0 {
        return Err(AppError::EmptyImage);
    }
    if width > MAX_ICON_DIMENSION || height > MAX_ICON_DIMENSION {
        return Err(AppError::OversizedImage);
    }
    Ok(())
}

/// How the data of one directory entry decodes. Since Vista an entry may
/// hold a whole PNG rather than a DIB.
#[verifier::opaque]
pub open spec fn entry_decoded(d: Seq<u8>, entry_height: u32) -> Result<Raster, AppError> {
    if is_png(d) {
        match png_rgba(d) {
            None => Err(AppError::UnreadableImage),
            Some((w, h, px)) => match guarded(w as int, h as int) {
                Err(e) => Err(e),
                Ok(_) => if px.len() != (w as int) * (h as int) * 4 {
                    Err(AppError::PixelBufferLength)
                } else {
                    Ok(Raster { width: w as nat, height: h as nat, bytes: px })
                },
            },
        }
    } else {
        match dib_layout_of(d, entry_height) {
            Ok(l) => Ok(dib_raster(d, l)),
            Err(e) => Err(e),
        }
    }
}

fn decode_entry(data: &[u8], entry_height: u32) -> (out: Result<Bitmap, AppError>)
    ensures
        match out {
            Ok(b) => entry_decoded(data@, entry_height) == Ok::<Raster, AppError>(b@) && b@.wf(),
            Err(e) => entry_decoded(data@, entry_height) == Err::<Raster, AppError>(e),
        },
{
    reveal(entry_decoded);
    if data.len() >= 8 && data[0] == 0x89 && data[1] == 0x50 && data[2] == 0x4e && data[3] == 0x47
        && data[4] == 0x0d && data[5] == 0x0a && data[6] == 0x1a && data[7] == 0x0a {
        match decode_png(data) {
            None => Err(AppError::UnreadableImage),
            Some((w, h, px)) => {
                match guard(w, h) {
                    Err(e) => Err(e),
                    Ok(_) => {
                        let r = Bitmap::from_rgba(w, h, px);
                        match r {
                            Ok(b) => {
                                assert(b@ =~= Raster { width: w as nat, height: h as nat, bytes: b.pixels@ });
                                Ok(b)
                            },
                            Err(e) => Err(e),
                        }
                    },
                }
            },
        }
    } else {
        decode_dib(data, entry_height)
    }
}

/// One image out of a `.cur` or `.ico`.
#[derive(Debug)]
pub struct IconImage {
    pub bitmap: Bitmap,
    /// Present only for a `.cur`: an icon has no hotspot, and the fields that
    /// would carry one hold the plane count and bit depth instead.
    pub hotspot: Option<(u16, u16)>,
}

/// How an entry ranks: larger pictures first, deeper colour breaking ties.
pub open spec fn entry_rank(e: Entry) -> int {
    (e.width as int) * (e.height as int) * 65536 + e.bit_count as int
}

/// Entry `j` is tried before entry `k`: it ranks higher, or ranks the same
/// and comes later in the directory.
pub open spec fn tried_before(es: Seq<Entry>, j: int, k: int) -> bool {
    entry_rank(es[j]) > entry_rank(es[k]) || (entry_rank(es[j]) == entry_rank(es[k]) && j > k)
}

/// How the data an entry points at decodes.
pub open spec fn entry_result(b: Seq<u8>, e: Entry) -> Result<Raster, AppError> {
    entry_decoded(b.subrange(e.offset as int, e.offset + e.length), e.height)
}

/// Entry `k` decodes, and every entry tried before it does not.
pub open spec fn first_success(b: Seq<u8>, es: Seq<Entry>, k: int) -> bool {
    &&& 0 <= k < es.len()
    &&& entry_result(b, es[k]) is Ok
    &&& forall|j: int| 0 <= j < es.len() && tried_before(es, j, k) ==> #[trigger] entry_result(b, es[j]) is Err
}

/// Entry `k` is the last one tried.
pub open spec fn last_tried(es: Seq<Entry>, k: int) -> bool {
    &&& 0 <= k < es.len()
    &&& forall|j: int| 0 <= j < es.len() && j != k ==> #[trigger] tried_before(es, j, k)
}

/// What reading a `.cur` or `.ico` gives: the picture and hotspot of the
/// highest-ranked entry that decodes or, where none does, the reason the
/// last one tried was refused.
pub open spec fn decoded_icon(b: Seq<u8>) -> Result<(Raster, Option<(u16, u16)>), AppError> {
    match directory_of(b) {
        Err(e) => Err(e),
        Ok(es) => if exists|k: int| first_success(b, es, k) {
            let k = choose|k: int| first_success(b, es, k);
            Ok((entry_result(b, es[k])->Ok_0, es[k].hotspot))
        } else {
            let k = choose|k: int| last_tried(es, k);
            match entry_result(b, es[k]) {
                Err(e) => Err(e),
                Ok(r) => Ok((r, es[k].hotspot)),
            }
        },
    }
}

/// Trying entries in rank order, one entry is the first to decode.
proof fn lemma_first_success_unique(b: Seq<u8>, es: Seq<Entry>, k1: int, k2: int)
    requires
        first_success(b, es, k1),
        first_success(b, es, k2),
    ensures
        k1 == k2,
{
    if k1 != k2 {
        if tried_before(es, k1, k2) {
            assert(entry_result(b, es[k1]) is Err);
        } else {
            assert(tried_before(es, k2, k1));
            assert(entry_result(b, es[k2]) is Err);
        }
    }
}

/// One entry is tried last.
proof fn lemma_last_tried_unique(es: Seq<Entry>, k1: int, k2: int)
    requires
        last_tried(es, k1),
        last_tried(es, k2),
    ensures
        k1 == k2,
{
    if k1 != k2 {
        assert(tried_before(es, k1, k2));
        assert(tried_before(es, k2, k1));
    }
}

/// Ranks fit in 33 bits.
proof fn lemma_rank_bound(e: Entry)
    requires
        e.width <= 256,
        e.height <= 256,
    ensures
        0 <= entry_rank(e) < 0x2_0000_0000,
        (e.width as int) * (e.height as int) <= 65536,
{
    assert(0 <= (e.width as int) * (e.height as int) <= 65536) by (nonlinear_arith)
        requires
            e.width <= 256,
            e.height <= 256,
    ;
}

/// Where an entry decodes and every entry tried before it did not, its
/// picture is what the file reads as.
proof fn lemma_icon_success(b: Seq<u8>, es: Seq<Entry>, k: int)
    requires
        directory_of(b) == Ok::<Seq<Entry>, AppError>(es),
        first_success(b, es, k),
    ensures
        decoded_icon(b) == Ok::<(Raster, Option<(u16, u16)>), AppError>(
            (entry_result(b, es[k])->Ok_0, es[k].hotspot),
        ),
{
    let k2 = choose|k2: int| first_success(b, es, k2);
    lemma_first_success_unique(b, es, k2, k);
}

/// Where an entry decodes and every entry tried before it did not, its
/// picture is what the file reads as.
pub proof fn lemma_icon_success_pub(b: Seq<u8>, es: Seq<Entry>, k: int)
    requires
        directory_of(b) == Ok::<Seq<Entry>, AppError>(es),
        first_success(b, es, k),
    ensures
        decoded_icon(b) == Ok::<(Raster, Option<(u16, u16)>), AppError>(
            (entry_result(b, es[k])->Ok_0, es[k].hotspot),
        ),
{
    lemma_icon_success(b, es, k);
}

/// Where no entry decodes, the file reads as the last one's refusal.
proof fn lemma_icon_failure(b: Seq<u8>, es: Seq<Entry>, k: int, e: AppError)
    requires
        directory_of(b) == Ok::<Seq<Entry>, AppError>(es),
        forall|j: int| 0 <= j < es.len() ==> #[trigger] entry_result(b, es[j]) is Err,
        last_tried(es, k),
        entry_result(b, es[k]) == Err::<Raster, AppError>(e),
    ensures
        decoded_icon(b) == Err::<(Raster, Option<(u16, u16)>), AppError>(e),
{
    assert(!(exists|k2: int| first_success(b, es, k2)));
    let k2 = choose|k2: int| last_tried(es, k2);
    lemma_last_tried_unique(es, k2, k);
}

/// Entry `j` ranks below the bound `(br, bi)`, which is the rank and the
/// position of the last entry tried.
pub open spec fn below(es: Seq<Entry>, j: int, br: int, bi: int) -> bool {
    entry_rank(es[j]) < br || (entry_rank(es[j]) == br && j < bi)
}

/// Decodes the best image in a `.cur` or `.ico`.
///
/// Largest wins: everything downstream resamples to the cursor sizes, so the
/// entry to start from is the one carrying the most detail. An entry that
/// does not decode is passed over for the next-largest.
pub fn decode_icon(bytes: &[u8]) -> (out: Result<IconImage, AppError>)
    ensures
        match out {
            Ok(img) => decoded_icon(bytes@) == Ok::<(Raster, Option<(u16, u16)>), AppError>(
                (img.bitmap@, img.hotspot),
            ) && img.bitmap@.wf(),
            Err(e) => decoded_icon(bytes@) == Err::<(Raster, Option<(u16, u16)>), AppError>(e),
        },
{
    let ghost b = bytes@;
    let entries = match directory(bytes) {
        Ok(es) => es,
        Err(e) => return Err(e),
    };
    let ghost es = entries@;
    let n = entries.len();
    proof {
        lemma_usable_entries_in_file(b, present_count(b));
    }
    // Rank ceiling: every entry ranks below (1 << 33, 0).
    proof {
        assert forall|j: int| 0 <= j < n implies below(es, j, 0x2_0000_0000, 0) by {
            assert(es[j].width <= 256 && es[j].height <= 256);
            lemma_rank_bound(es[j]);
        }
    }
    let mut br: u64 = 0x2_0000_0000;
    let mut bi: usize = 0;
    let mut last: Option<AppError> = None;
    loop
        invariant
            b == bytes@,
            directory_of(b) == Ok::<Seq<Entry>, AppError>(es),
            es == entries@,
            n == es.len(),
            n >= 1,
            forall|j: int| 0 <= j < n ==> entry_in_file(b, #[trigger] es[j]),
            forall|j: int| 0 <= j < n ==> (#[trigger] es[j]).width <= 256 && es[j].height <= 256,
            forall|j: int|
                0 <= j < n && !below(es, j, br as int, bi as int) ==> #[trigger] entry_result(b, es[j]) is Err,
            last is None ==> br == 0x2_0000_0000 && bi == 0,
            last matches Some(e) ==> bi < n && entry_rank(es[bi as int]) == br && entry_result(b, es[bi as int])
                == Err::<Raster, AppError>(e),
        decreases br, bi,
    {
        // The highest-ranked entry not yet tried.
        let mut found = false;
        let mut best: usize = 0;
        let mut best_rank: u64 = 0;
        let mut j: usize = 0;
        while j < n
            invariant
                n == es.len(),
                es == entries@,
                forall|j2: int| 0 <= j2 < n ==> (#[trigger] es[j2]).width <= 256 && es[j2].height <= 256,
                j <= n,
                found ==> best < j && below(es, best as int, br as int, bi as int) && best_rank == entry_rank(
                    es[best as int],
                ),
                forall|j2: int|
                    0 <= j2 < j && below(es, j2, br as int, bi as int) ==> found && (entry_rank(es[j2])
                        < best_rank || (entry_rank(es[j2]) == best_rank && j2 <= best)),
            decreases n - j,
        {
            let e = &entries[j];
            assert(e.width <= 256 && e.height <= 256);
            proof {
                lemma_rank_bound(*e);
            }
            let rank: u64 = (e.width as u64) * (e.height as u64) * 65536 + e.bit_count as u64;
            assert(rank == entry_rank(es[j as int]));
            if (rank < br || (rank == br && j < bi)) && (!found || rank > best_rank || (rank == best_rank
                && j > best)) {
                found = true;
                best = j;
                best_rank = rank;
            }
            j = j + 1;
        }
        if !found {
            proof {
                assert forall|j2: int| 0 <= j2 < n implies !below(es, j2, br as int, bi as int) by {}
            }
            match last {
                Some(e) => {
                    proof {
                        assert forall|j2: int| 0 <= j2 < n && j2 != bi implies #[trigger] tried_before(
                            es,
                            j2,
                            bi as int,
                        ) by {
                            assert(!below(es, j2, br as int, bi as int));
                        }
                        assert(last_tried(es, bi as int));
                        lemma_icon_failure(b, es, bi as int, e);
                    }
                    return Err(e);
                },
                None => {
                    assert(below(es, 0, br as int, bi as int)) by {
                        assert(es[0].width <= 256 && es[0].height <= 256);
                        lemma_rank_bound(es[0]);
                    }
                    return Err(AppError::UnreadableImage);
                },
            }
        }
        let entry = &entries[best];
        assert(*entry == es[best as int]);
        assert(entry_in_file(b, es[best as int]));
        let total = bytes.len();
        assert(entry.offset + entry.length <= total);
        let data = &bytes[entry.offset..entry.offset + entry.length];
        assert(data@ =~= b.subrange(entry.offset as int, entry.offset + entry.length));
        match decode_entry(data, entry.height) {
            Ok(bitmap) => {
                proof {
                    assert forall|j2: int| 0 <= j2 < n && tried_before(es, j2, best as int) implies #[trigger] entry_result(
                        b,
                        es[j2],
                    ) is Err by {
                        if below(es, j2, br as int, bi as int) {
                            assert(false);
                        }
                    }
                    assert(first_success(b, es, best as int));
                    lemma_icon_success(b, es, best as int);
                }
                return Ok(IconImage { bitmap, hotspot: entry.hotspot });
            },
            Err(e) => {
                proof {
                    assert forall|j2: int|
                        0 <= j2 < n && !below(es, j2, best_rank as int, best as int) implies #[trigger] entry_result(
                        b,
                        es[j2],
                    ) is Err by {
                        if below(es, j2, br as int, bi as int) && j2 != best {
                            assert(false);
                        }
                    }
                }
                last = Some(e);
                br = best_rank;
                bi = best;
            },
        }
    }
}

} // verus!
