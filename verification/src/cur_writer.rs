//! A `.cur` writer, written against the byte layout.
//!
//! A `.cur` and a `.ico` are one container; the type word (2 for a cursor) is
//! the only thing that separates them, and a cursor's directory entry carries
//! its hotspot in the fields an icon uses for planes and bit count.
//!
//! ```text
//! ICONDIR        6 bytes    reserved=0, type=2, count=N
//! ICONDIRENTRY   16 bytes   x N
//! image data     variable   x N  (BITMAPINFOHEADER + BGRA XOR + 1bpp AND)
//! ```

use vstd::prelude::*;
use crate::bitmap::{Bitmap, Raster, offset, lemma_offset_bounds};
use crate::error::AppError;

verus! {

/// Little-endian bytes of a 16-bit value.
pub open spec fn le16(v: int) -> Seq<u8> {
    seq![(v % 256) as u8, ((v / 256) % 256) as u8]
}

/// Little-endian bytes of a 32-bit value.
pub open spec fn le32(v: int) -> Seq<u8> {
    seq![
        (v % 256) as u8,
        ((v / 256) % 256) as u8,
        ((v / 65536) % 256) as u8,
        ((v / 16777216) % 256) as u8,
    ]
}

/// Bytes in one row of a 1-bpp mask `width` pixels wide, padded to four.
pub open spec fn mask_stride(width: int) -> int {
    ((width + 31) / 32) * 4
}

/// Size of the encoded DIB of a `width` x `height` image.
pub open spec fn dib_len(width: int, height: int) -> int {
    40 + width * height * 4 + mask_stride(width) * height
}

/// The `BITMAPINFOHEADER` of a 32-bit image with its AND mask stacked below:
/// the declared height is doubled because it describes both masks.
#[verifier::opaque]
pub open spec fn dib_header(width: int, height: int) -> Seq<u8> {
    le32(40) + le32(width) + le32(2 * height) + le16(1) + le16(32) + le32(0)
        + le32(width * height * 4 + mask_stride(width) * height) + le32(0) + le32(0) + le32(0)
        + le32(0)
}

/// Which RGBA channel the `c`-th byte of a BGRA quadruple holds.
pub open spec fn bgra(c: int) -> int {
    if c == 3 { 3 } else { 2 - c }
}

/// The colour mask: BGRA quadruples, bottom row first.
pub open spec fn xor_mask(r: Raster) -> Seq<u8> {
    Seq::new(
        r.width * r.height * 4,
        |k: int| r.at((k / 4) % (r.width as int), r.height - 1 - (k / 4) / (r.width as int), bgra(k % 4)),
    )
}

/// 1 where pixel `(x, y)` is fully transparent, 0 where it is not or lies
/// past the right edge.
pub open spec fn mask_bit(r: Raster, x: int, y: int) -> int {
    if x < r.width && r.alpha(x, y) == 0 { 1 } else { 0 }
}

/// Byte `i` of the mask row for `y`: eight pixels, the leftmost in the most
/// significant bit.
pub open spec fn and_byte(r: Raster, y: int, i: int) -> int {
    128 * mask_bit(r, 8 * i, y) + 64 * mask_bit(r, 8 * i + 1, y) + 32 * mask_bit(r, 8 * i + 2, y)
        + 16 * mask_bit(r, 8 * i + 3, y) + 8 * mask_bit(r, 8 * i + 4, y) + 4 * mask_bit(r, 8 * i + 5, y)
        + 2 * mask_bit(r, 8 * i + 6, y) + mask_bit(r, 8 * i + 7, y)
}

/// The transparency mask: one bit a pixel, set where the pixel is fully
/// transparent, rows padded to four bytes, bottom row first.
pub open spec fn and_mask(r: Raster) -> Seq<u8> {
    Seq::new(
        (mask_stride(r.width as int) * r.height) as nat,
        |k: int| and_byte(r, r.height - 1 - k / mask_stride(r.width as int), k % mask_stride(r.width as int)) as u8,
    )
}

/// The whole encoded image: header, colour mask, transparency mask.
pub open spec fn dib_bytes(r: Raster) -> Seq<u8> {
    dib_header(r.width as int, r.height as int) + xor_mask(r) + and_mask(r)
}

/// A side length a cursor image may have.
pub open spec fn valid_side(n: int) -> bool {
    1 <= n <= 256
}

/// One resolution inside a multi-resolution cursor.
#[derive(Debug)]
pub struct CursorImage {
    pub bitmap: Bitmap,
    /// Hotspot in pixels, in this image's own coordinate space.
    pub hotspot: (u16, u16),
}

impl CursorImage {
    pub fn new(bitmap: Bitmap, hotspot: (u16, u16)) -> (out: Self)
        ensures
            out.bitmap == bitmap,
            out.hotspot == hotspot,
    {
        CursorImage { bitmap, hotspot }
    }
}

/// Appends a 16-bit value, little-endian.
pub(crate) fn push_le16(out: &mut Vec<u8>, v: u16)
    ensures
        final(out)@ == old(out)@ + le16(v as int),
{
    out.push((v % 256) as u8);
    out.push(((v / 256) % 256) as u8);
    assert(final(out)@ =~= old(out)@ + le16(v as int));
}

/// Appends a 32-bit value, little-endian.
pub(crate) fn push_le32(out: &mut Vec<u8>, v: u32)
    ensures
        final(out)@ == old(out)@ + le32(v as int),
{
    out.push((v % 256) as u8);
    out.push(((v / 256) % 256) as u8);
    out.push(((v / 65536) % 256) as u8);
    out.push(((v / 16777216) % 256) as u8);
    assert(final(out)@ =~= old(out)@ + le32(v as int));
}

/// Stride of a 1-bpp AND mask row, padded to a 4-byte boundary as the DIB
/// format requires.
pub fn and_mask_stride(width: u32) -> (stride: usize)
    requires
        width <= 256,
    ensures
        stride == mask_stride(width as int),
{
    (((width + 31) / 32) * 4) as usize
}

/// Splits a byte index of a row-major grid into its row and column.
proof fn lemma_row_col(k: int, w: int, row: int, col: int)
    requires
        w > 0,
        0 <= col < w,
        k == row * w + col,
    ensures
        k / w == row,
        k % w == col,
{
    vstd::arithmetic::div_mod::lemma_fundamental_div_mod_converse(k, w, row, col);
}

/// Splits an index of a row-major grid into its row and column.
pub proof fn lemma_row_col_pub(k: int, w: int, row: int, col: int)
    requires
        w > 0,
        0 <= col < w,
        k == row * w + col,
    ensures
        k / w == row,
        k % w == col,
{
    lemma_row_col(k, w, row, col);
}

/// The mask bit of one pixel, 0 past the right edge.
fn mask_bit_at(bitmap: &Bitmap, x: u32, y: u32) -> (b: u8)
    requires
        bitmap@.wf(),
        y < bitmap.height,
    ensures
        b == mask_bit(bitmap@, x as int, y as int),
{
    if x < bitmap.width && bitmap.alpha(x, y) == 0 { 1 } else { 0 }
}

/// Encodes one image as `BITMAPINFOHEADER` + XOR (colour) + AND (transparency).
fn encode_dib(image: &CursorImage) -> (out: Result<Vec<u8>, AppError>)
    requires
        image.bitmap@.wf(),
    ensures
        match out {
            Ok(bytes) => valid_side(image.bitmap.width as int) && valid_side(image.bitmap.height as int)
                && bytes@ == dib_bytes(image.bitmap@),
            Err(e) => !(valid_side(image.bitmap.width as int) && valid_side(image.bitmap.height as int))
                && e == AppError::CursorImageSize,
        },
{
    let bitmap = &image.bitmap;
    let (width, height) = (bitmap.width, bitmap.height);
    if width == 0 || height == 0 || width > 256 || height > 256 {
        return Err(AppError::CursorImageSize);
    }
    let ghost r = bitmap@;
    let stride = and_mask_stride(width);
    assert(0 <= (width as int) * (height as int) <= 65536) by (nonlinear_arith)
        requires
            1 <= width <= 256,
            1 <= height <= 256,
    ;
    assert(0 <= (stride as int) * (height as int) <= 32 * 256) by (nonlinear_arith)
        requires
            stride <= 32,
            1 <= height <= 256,
    ;
    let xor_len = (width as u32) * (height as u32) * 4;
    let and_len = (stride as u32) * height;

    let mut out: Vec<u8> = Vec::new();
    push_le32(&mut out, 40);
    push_le32(&mut out, width);
    push_le32(&mut out, height * 2);
    push_le16(&mut out, 1);
    push_le16(&mut out, 32);
    push_le32(&mut out, 0);
    push_le32(&mut out, xor_len + and_len);
    push_le32(&mut out, 0);
    push_le32(&mut out, 0);
    push_le32(&mut out, 0);
    push_le32(&mut out, 0);
    let ghost header = out@;
    assert(header =~= dib_header(width as int, height as int)) by {
        reveal(dib_header);
    }

    // Colour mask: BGRA, bottom-up.
    let mut row: u32 = 0;
    while row < height
        invariant
            r == bitmap@,
            r.wf(),
            width == r.width,
            height == r.height,
            1 <= width <= 256,
            1 <= height <= 256,
            row <= height,
            header.len() == 40,
            out@.len() == 40 + (row as int) * (width as int) * 4,
            out@.subrange(0, 40) == header,
            forall|k: int| 0 <= k < (row as int) * (width as int) * 4 ==> #[trigger] out@[40 + k] == xor_mask(r)[k],
        decreases height - row,
    {
        let y = height - 1 - row;
        let mut x: u32 = 0;
        while x < width
            invariant
                r == bitmap@,
                r.wf(),
                width == r.width,
                height == r.height,
                1 <= width <= 256,
                1 <= height <= 256,
                row < height,
                y == height - 1 - row,
                x <= width,
                header.len() == 40,
                out@.len() == 40 + ((row as int) * (width as int) + x) * 4,
                out@.subrange(0, 40) == header,
                forall|k: int|
                    0 <= k < ((row as int) * (width as int) + x) * 4 ==> #[trigger] out@[40 + k] == xor_mask(r)[k],
            decreases width - x,
        {
            let p = bitmap.pixel(x, y);
            let ghost before = out@;
            out.push(p[2]);
            out.push(p[1]);
            out.push(p[0]);
            out.push(p[3]);
            proof {
                let base = ((row as int) * (width as int) + x) * 4;
                assert((row as int) * (width as int) + x + 1 <= (height as int) * (width as int)) by (nonlinear_arith)
                    requires
                        row < height,
                        x < width,
                ;
                assert forall|k: int| 0 <= k < base + 4 implies #[trigger] out@[40 + k] == xor_mask(r)[k] by {
                    if k >= base {
                        let c = k - base;
                        assert(k == ((row as int) * (width as int) + x) * 4 + c);
                        lemma_row_col(k, 4, (row as int) * (width as int) + x, c);
                        lemma_row_col(k / 4, width as int, row as int, x as int);
                    } else {
                        assert(out@[40 + k] == before[40 + k]);
                    }
                }
                assert(out@.subrange(0, 40) =~= before.subrange(0, 40));
            }
            x = x + 1;
        }
        assert(((row as int) * (width as int) + width) * 4 == ((row + 1) as int) * (width as int) * 4) by (nonlinear_arith);
        row = row + 1;
    }
    let ghost coloured = out@;
    assert(coloured =~= header + xor_mask(r)) by {
        assert((height as int) * (width as int) * 4 == xor_mask(r).len()) by (nonlinear_arith)
            requires
                xor_mask(r).len() == (width as int) * (height as int) * 4,
        ;
        assert forall|k: int| 0 <= k < coloured.len() implies coloured[k] == (header + xor_mask(r))[k] by {
            if k < 40 {
                assert(coloured[k] == coloured.subrange(0, 40)[k]);
            } else {
                assert(coloured[40 + (k - 40)] == xor_mask(r)[k - 40]);
            }
        }
    }

    // Transparency mask: 1 bpp, bottom-up, the leftmost pixel in the top bit.
    let base = out.len();
    let mut row: u32 = 0;
    while row < height
        invariant
            r == bitmap@,
            r.wf(),
            width == r.width,
            height == r.height,
            1 <= width <= 256,
            1 <= height <= 256,
            stride == mask_stride(width as int),
            1 <= stride <= 32,
            row <= height,
            base == coloured.len(),
            out@.len() == base + (row as int) * (stride as int),
            out@.subrange(0, base as int) == coloured,
            forall|k: int|
                0 <= k < (row as int) * (stride as int) ==> #[trigger] out@[base + k] == and_mask(r)[k],
        decreases height - row,
    {
        let y = height - 1 - row;
        let mut i: usize = 0;
        while i < stride
            invariant
                r == bitmap@,
                r.wf(),
                width == r.width,
                height == r.height,
                1 <= width <= 256,
                1 <= height <= 256,
                stride == mask_stride(width as int),
                1 <= stride <= 32,
                row < height,
                y == height - 1 - row,
                i <= stride,
                base == coloured.len(),
                out@.len() == base + (row as int) * (stride as int) + i,
                out@.subrange(0, base as int) == coloured,
                forall|k: int|
                    0 <= k < (row as int) * (stride as int) + i ==> #[trigger] out@[base + k] == and_mask(r)[k],
            decreases stride - i,
        {
            let x0 = (i as u32) * 8;
            let b0 = mask_bit_at(bitmap, x0, y);
            let b1 = mask_bit_at(bitmap, x0 + 1, y);
            let b2 = mask_bit_at(bitmap, x0 + 2, y);
            let b3 = mask_bit_at(bitmap, x0 + 3, y);
            let b4 = mask_bit_at(bitmap, x0 + 4, y);
            let b5 = mask_bit_at(bitmap, x0 + 5, y);
            let b6 = mask_bit_at(bitmap, x0 + 6, y);
            let b7 = mask_bit_at(bitmap, x0 + 7, y);
            let byte = 128 * b0 + 64 * b1 + 32 * b2 + 16 * b3 + 8 * b4 + 4 * b5 + 2 * b6 + b7;
            let ghost before = out@;
            out.push(byte);
            proof {
                let here = (row as int) * (stride as int) + i;
                assert(here < (height as int) * (stride as int)) by (nonlinear_arith)
                    requires
                        row < height,
                        i < stride,
                        here == (row as int) * (stride as int) + i,
                ;
                assert forall|k: int| 0 <= k < here + 1 implies #[trigger] out@[base + k] == and_mask(r)[k] by {
                    if k == here {
                        lemma_row_col(k, stride as int, row as int, i as int);
                    } else {
                        assert(out@[base + k] == before[base + k]);
                    }
                }
                assert(out@.subrange(0, base as int) =~= before.subrange(0, base as int));
            }
            i = i + 1;
        }
        assert((row as int) * (stride as int) + stride == ((row + 1) as int) * (stride as int)) by (nonlinear_arith);
        row = row + 1;
    }
    proof {
        assert((height as int) * (stride as int) == and_mask(r).len()) by (nonlinear_arith)
            requires
                and_mask(r).len() == (stride as int) * (height as int),
        ;
        assert forall|k: int| 0 <= k < out@.len() implies out@[k] == (coloured + and_mask(r))[k] by {
            if k < base {
                assert(out@[k] == out@.subrange(0, base as int)[k]);
            } else {
                assert(out@[base + (k - base)] == and_mask(r)[k - base]);
            }
        }
        assert(out@ =~= coloured + and_mask(r));
    }
    Ok(out)
}

/// The encoded size of one image.
pub open spec fn image_dib_len(img: CursorImage) -> int {
    dib_len(img.bitmap.width as int, img.bitmap.height as int)
}

/// The encoded size of a run of images.
pub open spec fn dibs_total(imgs: Seq<CursorImage>) -> int
    decreases imgs.len(),
{
    if imgs.len() == 0 {
        0
    } else {
        dibs_total(imgs.drop_last()) + image_dib_len(imgs.last())
    }
}

/// An image 1-256 px on each side.
pub open spec fn valid_image(img: CursorImage) -> bool {
    valid_side(img.bitmap.width as int) && valid_side(img.bitmap.height as int)
}

/// Every image is 1-256 px on each side.
pub open spec fn all_valid(imgs: Seq<CursorImage>) -> bool {
    forall|i: int| 0 <= i < imgs.len() ==> valid_image(#[trigger] imgs[i])
}

/// `order` lists the positions of `imgs` narrowest first, keeping images of
/// one width in the order they arrived.
pub open spec fn by_width(imgs: Seq<CursorImage>, order: Seq<usize>) -> bool {
    &&& order.len() == imgs.len()
    &&& forall|j: int| 0 <= j < order.len() ==> #[trigger] order[j] < imgs.len()
    &&& forall|j1: int, j2: int|
        #![trigger order[j1], order[j2]]
        0 <= j1 < j2 < order.len() ==> {
            let a = imgs[order[j1] as int].bitmap.width;
            let b = imgs[order[j2] as int].bitmap.width;
            a < b || (a == b && order[j1] < order[j2])
        }
}

/// The images in the order `order` names them.
pub open spec fn permuted(imgs: Seq<CursorImage>, order: Seq<usize>) -> Seq<CursorImage> {
    Seq::new(order.len(), |j: int| imgs[order[j] as int])
}

/// A side length in a one-byte directory field: 256 does not fit and is 0.
pub open spec fn dim_byte(v: int) -> u8 {
    if v >= 256 { 0 } else { v as u8 }
}

/// A cursor's `ICONDIRENTRY`: the hotspot sits where an icon keeps its plane
/// count and bit depth.
pub open spec fn entry_bytes(img: CursorImage, at: int) -> Seq<u8> {
    seq![dim_byte(img.bitmap.width as int), dim_byte(img.bitmap.height as int), 0u8, 0u8]
        + le16(img.hotspot.0 as int) + le16(img.hotspot.1 as int) + le32(image_dib_len(img)) + le32(at)
}

/// The directory entries of a run of images whose data starts at `start`.
pub open spec fn dir_entries(imgs: Seq<CursorImage>, start: int) -> Seq<u8>
    decreases imgs.len(),
{
    if imgs.len() == 0 {
        Seq::empty()
    } else {
        dir_entries(imgs.drop_last(), start) + entry_bytes(
            imgs.last(),
            start + dibs_total(imgs.drop_last()),
        )
    }
}

/// The encoded images, one after another.
pub open spec fn all_dibs(imgs: Seq<CursorImage>) -> Seq<u8>
    decreases imgs.len(),
{
    if imgs.len() == 0 {
        Seq::empty()
    } else {
        all_dibs(imgs.drop_last()) + dib_bytes(imgs.last().bitmap@)
    }
}

/// A whole `.cur` file holding `imgs` in the order given.
pub open spec fn cur_file(imgs: Seq<CursorImage>) -> Seq<u8> {
    le16(0) + le16(2) + le16(imgs.len() as int) + dir_entries(imgs, 6 + 16 * (imgs.len() as int)) + all_dibs(
        imgs,
    )
}

/// The header is forty bytes.
pub proof fn lemma_dib_header_len(w: int, h: int)
    ensures
        dib_header(w, h).len() == 40,
{
    reveal(dib_header);
}

/// An encoded image is as long as its header says.
pub proof fn lemma_dib_bytes_len(r: Raster)
    requires
        r.wf(),
        valid_side(r.width as int),
        valid_side(r.height as int),
    ensures
        dib_bytes(r).len() == dib_len(r.width as int, r.height as int),
{
    lemma_dib_header_len(r.width as int, r.height as int);
    assert(0 <= mask_stride(r.width as int) * r.height) by (nonlinear_arith)
        requires
            r.width >= 1,
            r.height >= 1,
    ;
}

/// An encoded image of a valid size is under 300,000 bytes.
pub proof fn lemma_dib_len_bounds(w: int, h: int)
    requires
        valid_side(w),
        valid_side(h),
    ensures
        0 <= dib_len(w, h) <= 300000,
{
    let stride = mask_stride(w);
    assert(4 <= stride <= 36);
    assert(0 <= w * h * 4 <= 262144 && 0 <= stride * h <= 36 * 256) by (nonlinear_arith)
        requires
            1 <= w <= 256,
            1 <= h <= 256,
            4 <= stride <= 36,
    ;
}

/// The encoded images of a run are as long as its total.
pub proof fn lemma_all_dibs_len(s: Seq<CursorImage>)
    requires
        all_valid(s),
        forall|i: int| 0 <= i < s.len() ==> (#[trigger] s[i]).bitmap@.wf(),
    ensures
        all_dibs(s).len() == dibs_total(s),
    decreases s.len(),
{
    if s.len() > 0 {
        assert(valid_image(s[s.len() - 1]));
        assert(s[s.len() - 1].bitmap@.wf());
        assert(all_valid(s.drop_last()));
        assert forall|i: int| 0 <= i < s.drop_last().len() implies (#[trigger] s.drop_last()[i]).bitmap@.wf() by {
            assert(s.drop_last()[i] == s[i]);
        }
        lemma_all_dibs_len(s.drop_last());
        lemma_dib_bytes_len(s.last().bitmap@);
    }
}

/// Each directory entry is sixteen bytes.
pub proof fn lemma_dir_entries_len(s: Seq<CursorImage>, start: int)
    ensures
        dir_entries(s, start).len() == 16 * s.len(),
    decreases s.len(),
{
    if s.len() > 0 {
        lemma_dir_entries_len(s.drop_last(), start);
    }
}

/// Inserting one image anywhere adds its size to the total.
pub proof fn lemma_dibs_total_insert(s: Seq<CursorImage>, pos: int, x: CursorImage)
    requires
        0 <= pos <= s.len(),
    ensures
        dibs_total(s.insert(pos, x)) == dibs_total(s) + image_dib_len(x),
    decreases s.len(),
{
    if pos == s.len() {
        assert(s.insert(pos, x).drop_last() =~= s);
    } else {
        lemma_dibs_total_insert(s.drop_last(), pos, x);
        assert(s.insert(pos, x).drop_last() =~= s.drop_last().insert(pos, x));
    }
}

/// A prefix of valid images is no larger than the whole run.
pub proof fn lemma_dibs_total_prefix(s: Seq<CursorImage>, j: int)
    requires
        0 <= j <= s.len(),
        all_valid(s),
    ensures
        0 <= dibs_total(s.take(j)) <= dibs_total(s),
    decreases s.len(),
{
    if s.len() > 0 {
        let last = s.last();
        assert(valid_image(s[s.len() - 1]));
        lemma_dib_len_bounds(last.bitmap.width as int, last.bitmap.height as int);
        assert(all_valid(s.drop_last()));
        if j == s.len() {
            assert(s.take(j) =~= s);
            lemma_dibs_total_prefix(s.drop_last(), j - 1);
            assert(s.drop_last().take(j - 1) =~= s.drop_last());
        } else {
            lemma_dibs_total_prefix(s.drop_last(), j);
            assert(s.drop_last().take(j) =~= s.take(j));
        }
    }
}

/// The positions of `images`, narrowest first, ties in arrival order.
fn width_order(images: &[CursorImage]) -> (order: Vec<usize>)
    ensures
        by_width(images@, order@),
        dibs_total(permuted(images@, order@)) == dibs_total(images@),
{
    let n = images.len();
    let mut order: Vec<usize> = Vec::new();
    let mut i: usize = 0;
    while i < n
        invariant
            n == images@.len(),
            i <= n,
            by_width(images@.take(i as int), order@),
            forall|j: int| 0 <= j < order@.len() ==> #[trigger] order@[j] < i,
            dibs_total(permuted(images@, order@)) == dibs_total(images@.take(i as int)),
        decreases n - i,
    {
        let w = images[i].bitmap.width;
        let mut pos: usize = 0;
        while pos < order.len() && images[order[pos]].bitmap.width <= w
            invariant
                n == images@.len(),
                i < n,
                pos <= order@.len(),
                order@.len() == i,
                w == images@[i as int].bitmap.width,
                forall|j: int| 0 <= j < order@.len() ==> #[trigger] order@[j] < i,
                forall|j: int| 0 <= j < pos ==> #[trigger] images@[order@[j] as int].bitmap.width <= w,
            decreases order@.len() - pos,
        {
            pos = pos + 1;
        }
        let ghost old_order = order@;
        proof {
            assert(images@.take(i as int).len() == i);
            assert forall|j: int| 0 <= j < old_order.len() implies #[trigger] images@.take(i as int)[old_order[j] as int]
                == images@[old_order[j] as int] by {}
            lemma_dibs_total_insert(permuted(images@, old_order), pos as int, images@[i as int]);
        }
        order.insert(pos, i);
        proof {
            let t = images@.take(i as int + 1);
            assert(permuted(images@, order@) =~= permuted(images@, old_order).insert(pos as int, images@[i as int]));
            assert(t.drop_last() =~= images@.take(i as int));
            assert forall|j1: int, j2: int|
                #![trigger order@[j1], order@[j2]]
                0 <= j1 < j2 < order@.len() implies ({
                let a = t[order@[j1] as int].bitmap.width;
                let b = t[order@[j2] as int].bitmap.width;
                a < b || (a == b && order@[j1] < order@[j2])
            }) by {
                let p = pos as int;
                let pj1 = if j1 < p { j1 } else { j1 - 1 };
                let pj2 = if j2 < p { j2 } else { j2 - 1 };
                if j1 != p && j2 != p {
                    assert(images@.take(i as int)[old_order[pj1] as int] == images@[old_order[pj1] as int]);
                    assert(images@.take(i as int)[old_order[pj2] as int] == images@[old_order[pj2] as int]);
                } else if j1 == p {
                    // everything after the insertion point is wider
                    assert(p < old_order.len());
                    assert(images@[old_order[p] as int].bitmap.width > w);
                    if pj2 > p {
                        assert(images@.take(i as int)[old_order[p] as int] == images@[old_order[p] as int]);
                        assert(images@.take(i as int)[old_order[pj2] as int] == images@[old_order[pj2] as int]);
                    }
                } else {
                    assert(images@[old_order[pj1] as int].bitmap.width <= w);
                }
            }
        }
        i = i + 1;
    }
    proof {
        assert(images@.take(n as int) =~= images@);
    }
    order
}

/// Writes a complete multi-resolution `.cur` file.
///
/// Images may be supplied in any order; they are written narrowest first, so
/// the smallest, the one Windows reaches for most often, sits nearest the
/// start of the file. Images of one width keep the order they arrived in.
pub fn write_cur(images: &[CursorImage]) -> (out: Result<Vec<u8>, AppError>)
    requires
        forall|i: int| 0 <= i < images@.len() ==> (#[trigger] images@[i]).bitmap@.wf(),
        all_valid(images@) && images@.len() <= 65535 ==> 6 + 16 * images@.len() + dibs_total(images@)
            <= u32::MAX,
    ensures
        match out {
            Ok(bytes) => 1 <= images@.len() <= 65535 && all_valid(images@) && bytes@.len() == 6 + 16
                * images@.len() + dibs_total(images@) && exists|order: Seq<usize>|
                by_width(images@, order) && bytes@ == cur_file(permuted(images@, order)),
            Err(e) => (images@.len() == 0 && e == AppError::NoImages) || (images@.len() > 65535 && e
                == AppError::TooManyImages) || (1 <= images@.len() <= 65535 && !all_valid(images@) && e
                == AppError::CursorImageSize),
        },
{
    let n = images.len();
    if n == 0 {
        return Err(AppError::NoImages);
    }
    if n > 65535 {
        return Err(AppError::TooManyImages);
    }
    let mut i: usize = 0;
    while i < n
        invariant
            n == images@.len(),
            1 <= n <= 65535,
            i <= n,
            forall|j: int| 0 <= j < i ==> valid_image(#[trigger] images@[j]),
        decreases n - i,
    {
        let image = &images[i];
        assert(*image == images@[i as int]);
        let b = &image.bitmap;
        if b.width == 0 || b.height == 0 || b.width > 256 || b.height > 256 {
            assert(!valid_image(images@[i as int]));
            assert(!all_valid(images@));
            return Err(AppError::CursorImageSize);
        }
        i = i + 1;
    }
    assert(all_valid(images@));

    let order = width_order(images);
    let ghost sorted = permuted(images@, order@);
    assert(all_valid(sorted));
    let ghost start = 6 + 16 * (n as int);

    // Encode each image in file order, keeping its length for the directory.
    let mut blob: Vec<u8> = Vec::new();
    let mut lens: Vec<u32> = Vec::new();
    let mut j: usize = 0;
    while j < n
        invariant
            n == images@.len(),
            1 <= n <= 65535,
            by_width(images@, order@),
            sorted == permuted(images@, order@),
            all_valid(sorted),
            forall|i: int| 0 <= i < images@.len() ==> (#[trigger] images@[i]).bitmap@.wf(),
            j <= n,
            blob@ == all_dibs(sorted.take(j as int)),
            lens@.len() == j,
            forall|k: int| 0 <= k < j ==> #[trigger] lens@[k] == image_dib_len(sorted[k]),
        decreases n - j,
    {
        let image = &images[order[j]];
        assert(image == sorted[j as int]);
        match encode_dib(image) {
            Ok(mut data) => {
                proof {
                    lemma_dib_bytes_len(image.bitmap@);
                    lemma_dib_len_bounds(image.bitmap.width as int, image.bitmap.height as int);
                }
                let len = data.len() as u32;
                blob.append(&mut data);
                lens.push(len);
                proof {
                    assert(sorted.take(j as int + 1).drop_last() =~= sorted.take(j as int));
                }
            }
            Err(e) => {
                assert(false);
                return Err(e);
            }
        }
        j = j + 1;
    }
    assert(sorted.take(n as int) =~= sorted);

    let mut out: Vec<u8> = Vec::new();
    push_le16(&mut out, 0);
    push_le16(&mut out, 2);
    push_le16(&mut out, n as u16);
    let ghost prefix = out@;
    assert(prefix =~= le16(0) + le16(2) + le16(n as int));
    proof {
        lemma_dibs_total_prefix(sorted, n as int);
    }

    let mut at: u32 = (6 + 16 * n) as u32;
    let mut j: usize = 0;
    while j < n
        invariant
            n == images@.len(),
            1 <= n <= 65535,
            sorted.len() == n,
            all_valid(sorted),
            start == 6 + 16 * (n as int),
            start + dibs_total(sorted) <= u32::MAX,
            lens@.len() == n,
            forall|k: int| 0 <= k < n ==> #[trigger] lens@[k] == image_dib_len(sorted[k]),
            sorted == permuted(images@, order@),
            order@.len() == n,
            forall|k: int| 0 <= k < order@.len() ==> #[trigger] order@[k] < images@.len(),
            j <= n,
            at == start + dibs_total(sorted.take(j as int)),
            out@ == prefix + dir_entries(sorted.take(j as int), start),
        decreases n - j,
    {
        let image = &images[order[j]];
        assert(image == sorted[j as int]);
        let bitmap = &image.bitmap;
        let ghost before = out@;
        out.push(if bitmap.width >= 256 { 0 } else { bitmap.width as u8 });
        out.push(if bitmap.height >= 256 { 0 } else { bitmap.height as u8 });
        out.push(0);
        out.push(0);
        push_le16(&mut out, image.hotspot.0);
        push_le16(&mut out, image.hotspot.1);
        push_le32(&mut out, lens[j]);
        push_le32(&mut out, at);
        proof {
            let t = sorted.take(j as int + 1);
            assert(t.drop_last() =~= sorted.take(j as int));
            assert(t.last() == sorted[j as int]);
            assert(out@ =~= before + entry_bytes(sorted[j as int], at as int));
            lemma_dibs_total_prefix(sorted, j as int + 1);
        }
        at = at + lens[j];
        j = j + 1;
    }
    assert(sorted.take(n as int) =~= sorted);
    proof {
        assert forall|i: int| 0 <= i < sorted.len() implies (#[trigger] sorted[i]).bitmap@.wf() by {
            assert(sorted[i] == images@[order@[i] as int]);
        }
        lemma_all_dibs_len(sorted);
        assert(dir_entries(sorted, start).len() == 16 * n) by {
            lemma_dir_entries_len(sorted, start);
        }
    }
    out.append(&mut blob);
    assert(out@ =~= cur_file(sorted));
    Ok(out)
}

/// Every size a static cursor ships, smallest first: down to 10 px because
/// the size control goes there, up to 128 px, the largest Windows draws for a
/// pointer in practice.
pub const TARGET_SIZES: [u32; 8] = [10, 16, 24, 32, 48, 64, 96, 128];

} // verus!
