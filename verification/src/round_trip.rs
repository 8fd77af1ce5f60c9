//! The writer and the reader are two halves of one format: a cursor this
//! library writes reads back as its largest image, exactly as it went in,
//! hotspot included (a one-image cursor as that image; one of several
//! square images of distinct widths as the widest).

use vstd::prelude::*;
use crate::bitmap::{Raster, offset, lemma_offset_bounds, lemma_raster_ext, lemma_raster_from_at};
use crate::cur_writer::{
    CursorImage, le16, le32, mask_stride, dib_len, dib_header, bgra, xor_mask, mask_bit, and_mask,
    dib_bytes, valid_side, valid_image, dibs_total, entry_bytes, dir_entries, all_dibs, cur_file,
    lemma_dib_bytes_len, lemma_dib_len_bounds, lemma_dib_header_len, lemma_row_col_pub,
};
use crate::icon_reader::{
    DibLayout, row_of, Entry, dib_layout_of, layout_ok, u16_le, u32_le, row_stride, xor_byte, and_bit, bit_at,
    masked, all_clear, dib_pixel, dib_raster, decoded_icon, is_icon_header, declared_count,
    present_count, raw_entry, entry_in_file, usable_entries, directory_of, is_png, entry_result,
    entry_decoded, first_success, lemma_icon_success_pub, entry_rank, tried_before,
};
use crate::cur_writer::{image_dib_len, all_valid, by_width, permuted, lemma_all_dibs_len, lemma_dir_entries_len, lemma_dibs_total_prefix};
use crate::error::AppError;

verus! {

/// Two little-endian bytes give back the value they encode.
proof fn lemma_le16_value(v: int)
    requires
        0 <= v < 0x1_0000,
    ensures
        le16(v)[0] + 256 * le16(v)[1] == v,
        le16(v).len() == 2,
{
}

/// Four little-endian bytes give back the value they encode.
pub(crate) proof fn lemma_le32_value(v: int)
    requires
        0 <= v < 0x1_0000_0000,
    ensures
        le32(v)[0] + 256 * le32(v)[1] + 65536 * le32(v)[2] + 16777216 * le32(v)[3] == v,
        le32(v).len() == 4,
{
}

/// `(s / weight) % 2` of a value written as `(2 * hi + m) * weight + lo`.
proof fn lemma_bit_of(s: int, weight: int, hi: int, m: int, lo: int)
    requires
        weight > 0,
        0 <= lo < weight,
        0 <= m <= 1,
        hi >= 0,
        s == (2 * hi + m) * weight + lo,
    ensures
        (s / weight) % 2 == m,
{
    vstd::arithmetic::div_mod::lemma_fundamental_div_mod_converse(s, weight, 2 * hi + m, lo);
    vstd::arithmetic::div_mod::lemma_fundamental_div_mod_converse(2 * hi + m, 2, hi, m);
}

/// Bit `j` of a mask byte is the mask bit of the `j`-th of its pixels.
proof fn lemma_mask_byte_bits(m0: int, m1: int, m2: int, m3: int, m4: int, m5: int, m6: int, m7: int, j: int)
    requires
        0 <= m0 <= 1,
        0 <= m1 <= 1,
        0 <= m2 <= 1,
        0 <= m3 <= 1,
        0 <= m4 <= 1,
        0 <= m5 <= 1,
        0 <= m6 <= 1,
        0 <= m7 <= 1,
        0 <= j < 8,
    ensures
        ({
            let s = 128 * m0 + 64 * m1 + 32 * m2 + 16 * m3 + 8 * m4 + 4 * m5 + 2 * m6 + m7;
            &&& 0 <= s <= 255
            &&& bit_at(s, j) == if j == 0 {
                m0
            } else if j == 1 {
                m1
            } else if j == 2 {
                m2
            } else if j == 3 {
                m3
            } else if j == 4 {
                m4
            } else if j == 5 {
                m5
            } else if j == 6 {
                m6
            } else {
                m7
            }
        }),
{
    let s = 128 * m0 + 64 * m1 + 32 * m2 + 16 * m3 + 8 * m4 + 4 * m5 + 2 * m6 + m7;
    if j == 0 {
        lemma_bit_of(s, 128, 0, m0, 64 * m1 + 32 * m2 + 16 * m3 + 8 * m4 + 4 * m5 + 2 * m6 + m7);
    } else if j == 1 {
        lemma_bit_of(s, 64, m0, m1, 32 * m2 + 16 * m3 + 8 * m4 + 4 * m5 + 2 * m6 + m7);
    } else if j == 2 {
        lemma_bit_of(s, 32, 2 * m0 + m1, m2, 16 * m3 + 8 * m4 + 4 * m5 + 2 * m6 + m7);
    } else if j == 3 {
        lemma_bit_of(s, 16, 4 * m0 + 2 * m1 + m2, m3, 8 * m4 + 4 * m5 + 2 * m6 + m7);
    } else if j == 4 {
        lemma_bit_of(s, 8, 8 * m0 + 4 * m1 + 2 * m2 + m3, m4, 4 * m5 + 2 * m6 + m7);
    } else if j == 5 {
        lemma_bit_of(s, 4, 16 * m0 + 8 * m1 + 4 * m2 + 2 * m3 + m4, m5, 2 * m6 + m7);
    } else if j == 6 {
        lemma_bit_of(s, 2, 32 * m0 + 16 * m1 + 8 * m2 + 4 * m3 + 2 * m4 + m5, m6, m7);
    } else {
        lemma_bit_of(s, 1, 64 * m0 + 32 * m1 + 16 * m2 + 8 * m3 + 4 * m4 + 2 * m5 + m6, m7, 0);
    }
}

/// Where each part of an encoded image sits.
proof fn lemma_dib_parts(r: Raster)
    requires
        r.wf(),
        valid_side(r.width as int),
        valid_side(r.height as int),
    ensures
        ({
            let d = dib_bytes(r);
            let (w, h) = (r.width as int, r.height as int);
            &&& xor_mask(r).len() == w * h * 4
            &&& and_mask(r).len() == mask_stride(w) * h
            &&& d.len() == 40 + w * h * 4 + mask_stride(w) * h
            &&& forall|i: int| 0 <= i < 40 ==> #[trigger] d[i] == dib_header(w, h)[i]
            &&& forall|k: int| 0 <= k < w * h * 4 ==> #[trigger] d[40 + k] == xor_mask(r)[k]
            &&& forall|k: int|
                0 <= k < mask_stride(w) * h ==> #[trigger] d[40 + w * h * 4 + k] == and_mask(r)[k]
        }),
{
    let (w, h) = (r.width as int, r.height as int);
    lemma_dib_header_len(w, h);
    assert(0 <= mask_stride(w) * h) by (nonlinear_arith)
        requires
            w >= 1,
            h >= 1,
            mask_stride(w) >= 0,
    ;
}

/// The layout the reader finds in an encoded image.
pub open spec fn written_layout(r: Raster) -> DibLayout {
    DibLayout {
        width: r.width as u32,
        height: r.height as u32,
        top_down: false,
        has_mask: true,
        bit_count: 32,
        palette_offset: 40,
        palette_len: 0,
        pixels_offset: 40,
        xor_stride: (4 * r.width) as u64,
        and_stride: mask_stride(r.width as int) as u64,
    }
}

/// The header of an encoded image reads back as the layout it was written
/// with.
proof fn lemma_written_layout(r: Raster, entry_height: u32)
    requires
        r.wf(),
        valid_side(r.width as int),
        valid_side(r.height as int),
        entry_height == r.height,
    ensures
        dib_layout_of(dib_bytes(r), entry_height) == Ok::<DibLayout, AppError>(written_layout(r)),
        layout_ok(dib_bytes(r), written_layout(r)),
{
    let (w, h) = (r.width as int, r.height as int);
    let d = dib_bytes(r);
    let head = dib_header(w, h);
    let stride = mask_stride(w);
    assert(4 <= stride <= 36);
    assert(0 <= w * h * 4 <= 262144 && 0 <= stride * h <= 36 * 256) by (nonlinear_arith)
        requires
            1 <= w <= 256,
            1 <= h <= 256,
            4 <= stride <= 36,
    ;
    lemma_dib_parts(r);
    reveal(dib_header);
    lemma_le32_value(40);
    lemma_le32_value(w);
    lemma_le32_value(2 * h);
    lemma_le16_value(32);
    lemma_le32_value(0);
    assert(u32_le(d, 0) == 40);
    assert(u32_le(d, 4) == w);
    assert(u32_le(d, 8) == 2 * h);
    assert(u16_le(d, 14) == 32);
    assert(u32_le(d, 16) == 0);
    assert(u32_le(d, 32) == 0);
    assert(row_stride(w, 32) == 4 * w);
    assert(row_stride(w, 1) == stride);
    assert((4 * w) * h == w * h * 4) by (nonlinear_arith);
}

/// Byte `i` of the colour row shown at `y` is channel data of that row.
proof fn lemma_written_pixel(r: Raster, x: int, y: int, c: int)
    requires
        r.wf(),
        valid_side(r.width as int),
        valid_side(r.height as int),
        0 <= x < r.width,
        0 <= y < r.height,
        0 <= c < 4,
    ensures
        xor_byte(dib_bytes(r), written_layout(r), y, 4 * x + c) == r.at(x, y, bgra(c)),
{
    let (w, h) = (r.width as int, r.height as int);
    let l = written_layout(r);
    let d = dib_bytes(r);
    lemma_dib_parts(r);
    let row = h - 1 - y;
    assert(row_of(l, y) == row);
    let k = (row * w + x) * 4 + c;
    assert(row * (4 * w) + 4 * x + c == k) by (nonlinear_arith)
        requires
            k == (row * w + x) * 4 + c,
    ;
    assert(0 <= k < w * h * 4) by (nonlinear_arith)
        requires
            0 <= row < h,
            0 <= x < w,
            0 <= c < 4,
            k == (row * w + x) * 4 + c,
    ;
    lemma_row_col_pub(k, 4, row * w + x, c);
    lemma_row_col_pub(k / 4, w, row, x);
    assert(d[40 + k] == xor_mask(r)[k]);
}

/// The mask bit the reader finds for a pixel is the one the writer set.
proof fn lemma_written_mask(r: Raster, x: int, y: int)
    requires
        r.wf(),
        valid_side(r.width as int),
        valid_side(r.height as int),
        0 <= x < r.width,
        0 <= y < r.height,
    ensures
        and_bit(dib_bytes(r), written_layout(r), x, y) == (r.alpha(x, y) == 0),
{
    let (w, h) = (r.width as int, r.height as int);
    let l = written_layout(r);
    let d = dib_bytes(r);
    lemma_dib_parts(r);
    let stride = mask_stride(w);
    let row = h - 1 - y;
    assert(row_of(l, y) == row);
    let i = x / 8;
    assert(0 <= i < stride);
    let k = row * stride + i;
    assert(0 <= k < stride * h) by (nonlinear_arith)
        requires
            0 <= row < h,
            0 <= i < stride,
            k == row * stride + i,
    ;
    lemma_row_col_pub(k, stride, row, i);
    assert((4 * w) * h == w * h * 4) by (nonlinear_arith);
    assert(d[40 + w * h * 4 + k] == and_mask(r)[k]);
    let m = |j: int| mask_bit(r, 8 * i + j, y);
    lemma_mask_byte_bits(m(0), m(1), m(2), m(3), m(4), m(5), m(6), m(7), x % 8);
    assert(8 * i + x % 8 == x);
}

/// An encoded image decodes to the picture it was encoded from.
pub proof fn lemma_dib_round_trip(r: Raster)
    requires
        r.wf(),
        valid_side(r.width as int),
        valid_side(r.height as int),
    ensures
        dib_layout_of(dib_bytes(r), r.height as u32) == Ok::<DibLayout, AppError>(written_layout(r)),
        dib_raster(dib_bytes(r), written_layout(r)) == r,
{
    let l = written_layout(r);
    let d = dib_bytes(r);
    lemma_written_layout(r, r.height as u32);
    assert forall|x: int, y: int|
        0 <= x < r.width && 0 <= y < r.height implies #[trigger] masked(d, l, x, y) =~= r.pixel(x, y) by {
        lemma_written_pixel(r, x, y, 0);
        lemma_written_pixel(r, x, y, 1);
        lemma_written_pixel(r, x, y, 2);
        lemma_written_pixel(r, x, y, 3);
        lemma_written_mask(r, x, y);
    }
    let target = dib_raster(d, l);
    assert forall|x: int, y: int, c: int| r.in_bounds(x, y) && 0 <= c < 4 implies #[trigger] target.at(x, y, c)
        == r.at(x, y, c) by {
        lemma_raster_from_at(
            r.width,
            r.height,
            |x: int, y: int, c: int| dib_pixel(d, l, x, y)[c],
            x,
            y,
            c,
        );
        assert(masked(d, l, x, y) =~= r.pixel(x, y));
        if all_clear(d, l) {
            assert(masked(d, l, x, y)[3] == 0);
            lemma_written_mask(r, x, y);
        }
    }
    lemma_raster_from_at(r.width, r.height, |x: int, y: int, c: int| dib_pixel(d, l, x, y)[c], 0, 0, 0);
    lemma_raster_ext(target, r);
}

/// The bytes of a one-image cursor: a directory of one entry, then the image.
pub(crate) proof fn lemma_single_file(img: CursorImage)
    requires
        img.bitmap@.wf(),
        valid_image(img),
    ensures
        ({
            let r = img.bitmap@;
            let b = cur_file(seq![img]);
            let dl = dib_len(r.width as int, r.height as int);
            let e = entry_bytes(img, 22);
            &&& 0 < dl <= 300000
            &&& b.len() == 22 + dl
            &&& b.subrange(22, 22 + dl) == dib_bytes(r)
            &&& b[0] == 0 && b[1] == 0 && b[2] == 2 && b[3] == 0 && b[4] == 1 && b[5] == 0
            &&& forall|i: int| 0 <= i < 16 ==> #[trigger] b[6 + i] == e[i]
        }),
{
    let r = img.bitmap@;
    let (w, h) = (r.width as int, r.height as int);
    let imgs = seq![img];
    let b = cur_file(imgs);
    let dl = dib_len(w, h);
    lemma_dib_len_bounds(w, h);
    assert(dl > 0) by (nonlinear_arith)
        requires
            dl == 40 + w * h * 4 + mask_stride(w) * h,
            w >= 1,
            h >= 1,
            mask_stride(w) >= 0,
    ;
    lemma_dib_bytes_len(r);
    assert(imgs.drop_last() =~= Seq::<CursorImage>::empty());
    assert(dibs_total(imgs.drop_last()) == 0);
    let entry = entry_bytes(img, 22);
    assert(imgs.last() == img);
    assert(dir_entries(imgs.drop_last(), 22) =~= Seq::<u8>::empty());
    assert(all_dibs(imgs.drop_last()) =~= Seq::<u8>::empty());
    assert(dir_entries(imgs, 22) =~= entry);
    assert(all_dibs(imgs) =~= dib_bytes(r));
    let head = le16(0) + le16(2) + le16(1);
    assert(b =~= head + entry + dib_bytes(r));
    assert(b.subrange(22, 22 + dl) =~= dib_bytes(r));
}

/// The one directory entry of a one-image cursor reads back as written.
proof fn lemma_single_directory(img: CursorImage)
    requires
        img.bitmap@.wf(),
        valid_image(img),
    ensures
        ({
            let r = img.bitmap@;
            let b = cur_file(seq![img]);
            let e = raw_entry(b, 0);
            &&& directory_of(b) == Ok::<Seq<Entry>, AppError>(seq![e])
            &&& e.height == r.height
            &&& e.offset == 22
            &&& e.length == dib_len(r.width as int, r.height as int)
            &&& e.hotspot == Some(img.hotspot)
        }),
{
    let r = img.bitmap@;
    let (w, h) = (r.width as int, r.height as int);
    let b = cur_file(seq![img]);
    let dl = dib_len(w, h);
    lemma_single_file(img);
    let ent = entry_bytes(img, 22);
    lemma_le16_value(img.hotspot.0 as int);
    lemma_le16_value(img.hotspot.1 as int);
    lemma_le32_value(dl);
    lemma_le32_value(22);
    assert(b[6] == ent[0] && b[7] == ent[1]);
    assert(b[10] == ent[4] && b[11] == ent[5] && b[12] == ent[6] && b[13] == ent[7]);
    assert(b[14] == ent[8] && b[15] == ent[9] && b[16] == ent[10] && b[17] == ent[11]);
    assert(b[18] == ent[12] && b[19] == ent[13] && b[20] == ent[14] && b[21] == ent[15]);
    assert(is_icon_header(b));
    assert(declared_count(b) == 1);
    assert(present_count(b) == 1);
    let e = raw_entry(b, 0);
    assert(e.height == r.height);
    assert(e.offset == 22);
    assert(e.length == dl);
    assert(e.hotspot == Some(img.hotspot));
    assert(entry_in_file(b, e));
    assert(usable_entries(b, 0) =~= Seq::<Entry>::empty());
    assert(usable_entries(b, 1) =~= seq![e]);
}

/// A cursor of one image, written by `write_cur`, reads back through
/// `decode_icon` as the same picture with the same hotspot.
pub proof fn law_cursor_round_trip(img: CursorImage)
    requires
        img.bitmap@.wf(),
        valid_image(img),
    ensures
        decoded_icon(cur_file(seq![img])) == Ok::<(Raster, Option<(u16, u16)>), AppError>(
            (img.bitmap@, Some(img.hotspot)),
        ),
{
    let r = img.bitmap@;
    let b = cur_file(seq![img]);
    let dl = dib_len(r.width as int, r.height as int);
    lemma_single_file(img);
    lemma_single_directory(img);
    let e = raw_entry(b, 0);
    let es = seq![e];
    let data = b.subrange(22, 22 + dl);
    lemma_dib_round_trip(r);
    lemma_dib_parts(r);
    assert(!is_png(data)) by {
        reveal(dib_header);
        assert(data[0] == dib_header(r.width as int, r.height as int)[0]);
    }
    assert(entry_result(b, e) == Ok::<Raster, AppError>(r)) by {
        reveal(entry_decoded);
    }
    assert(first_success(b, es, 0));
    lemma_icon_success_pub(b, es, 0);
}

/// The `i`-th directory entry of a run of images sits at bytes `16 i` to
/// `16 i + 16`, pointing just past the images before it.
proof fn lemma_dir_entry_at(s: Seq<CursorImage>, start: int, i: int, k: int)
    requires
        0 <= i < s.len(),
        0 <= k < 16,
    ensures
        dir_entries(s, start).len() == 16 * s.len(),
        dir_entries(s, start)[16 * i + k] == entry_bytes(s[i], start + dibs_total(s.take(i)))[k],
    decreases s.len(),
{
    let p = s.drop_last();
    lemma_dir_entries_len(p, start);
    lemma_dir_entries_len(s, start);
    let eb = entry_bytes(s.last(), start + dibs_total(p));
    assert(eb.len() == 16);
    assert(dir_entries(s, start) == dir_entries(p, start) + eb);
    if i < p.len() {
        lemma_dir_entry_at(p, start, i, k);
        assert(p[i] == s[i]);
        assert(p.take(i) =~= s.take(i));
        assert(16 * i + k < 16 * p.len());
    } else {
        assert(p =~= s.take(i));
        assert(s.last() == s[i]);
    }
}

/// Every image is well formed and 1-256 px on a side.
pub open spec fn all_encodable(s: Seq<CursorImage>) -> bool {
    all_valid(s) && forall|i: int| 0 <= i < s.len() ==> (#[trigger] s[i]).bitmap@.wf()
}

proof fn lemma_encodable_prefix(s: Seq<CursorImage>)
    requires
        all_encodable(s),
        s.len() > 0,
    ensures
        all_encodable(s.drop_last()),
        valid_image(s.last()),
        s.last().bitmap@.wf(),
{
    assert(valid_image(s[s.len() - 1]));
    assert(s[s.len() - 1].bitmap@.wf());
    assert forall|i: int| 0 <= i < s.drop_last().len() implies valid_image(#[trigger] s.drop_last()[i]) by {
        assert(s.drop_last()[i] == s[i]);
    }
    assert forall|i: int| 0 <= i < s.drop_last().len() implies (#[trigger] s.drop_last()[i]).bitmap@.wf() by {
        assert(s.drop_last()[i] == s[i]);
    }
}

/// One more image adds its encoded length to the total.
proof fn lemma_total_step(s: Seq<CursorImage>, i: int)
    requires
        0 <= i < s.len(),
    ensures
        dibs_total(s.take(i + 1)) == dibs_total(s.take(i)) + image_dib_len(s[i]),
{
    let t = s.take(i + 1);
    assert(t.drop_last() =~= s.take(i));
    assert(t.last() == s[i]);
}

/// The `i`-th encoded image lies where the directory says.
proof fn lemma_dib_at(s: Seq<CursorImage>, i: int)
    requires
        all_encodable(s),
        0 <= i < s.len(),
    ensures
        all_dibs(s).len() == dibs_total(s),
        0 <= dibs_total(s.take(i)),
        dibs_total(s.take(i)) + image_dib_len(s[i]) <= dibs_total(s),
        all_dibs(s).subrange(dibs_total(s.take(i)), dibs_total(s.take(i)) + image_dib_len(s[i])) == dib_bytes(
            s[i].bitmap@,
        ),
    decreases s.len(),
{
    let p = s.drop_last();
    lemma_encodable_prefix(s);
    lemma_all_dibs_len(s);
    lemma_all_dibs_len(p);
    let last = s.last();
    lemma_dib_bytes_len(last.bitmap@);
    assert(all_dibs(s) == all_dibs(p) + dib_bytes(last.bitmap@));
    lemma_total_step(s, i);
    lemma_dibs_total_prefix(s, i);
    lemma_dibs_total_prefix(s, i + 1);
    if i < p.len() {
        lemma_dib_at(p, i);
        assert(p[i] == s[i]);
        assert(p.take(i) =~= s.take(i));
        let a = dibs_total(s.take(i));
        let b = a + image_dib_len(s[i]);
        assert(all_dibs(s).subrange(a, b) =~= all_dibs(p).subrange(a, b));
    } else {
        assert(p =~= s.take(i));
        assert(last == s[i]);
        let a = dibs_total(p);
        assert(all_dibs(s).subrange(a, a + image_dib_len(s[i])) =~= dib_bytes(last.bitmap@));
    }
}

/// The directory entry the reader finds for image `i`.
pub open spec fn written_entry(s: Seq<CursorImage>, i: int) -> Entry {
    let img = s[i];
    Entry {
        width: img.bitmap.width,
        height: img.bitmap.height,
        bit_count: 0,
        hotspot: Some(img.hotspot),
        offset: (6 + 16 * s.len() + dibs_total(s.take(i))) as usize,
        length: image_dib_len(img) as usize,
    }
}

proof fn lemma_side_byte(v: int)
    requires
        valid_side(v),
    ensures
        crate::icon_reader::side_of(crate::cur_writer::dim_byte(v)) == v,
{
}

/// The layout of a written file: a six-byte header, the directory, then the
/// images.
proof fn lemma_many_layout(s: Seq<CursorImage>)
    requires
        all_encodable(s),
        1 <= s.len() <= 256,
    ensures
        ({
            let n = s.len() as int;
            let b = cur_file(s);
            &&& b == le16(0) + le16(2) + le16(n) + dir_entries(s, 6 + 16 * n) + all_dibs(s)
            &&& b.len() == 6 + 16 * n + dibs_total(s)
            &&& 0 <= dibs_total(s) <= 300000 * n
            &&& b[0] == 0 && b[1] == 0 && b[2] == 2 && b[3] == 0
            &&& u16_le(b, 4) == n
        }),
{
    let n = s.len() as int;
    lemma_dir_entries_len(s, 6 + 16 * n);
    lemma_all_dibs_len(s);
    lemma_dibs_total_bound(s);
    lemma_le16_value(n);
    let b = cur_file(s);
    let head = le16(0) + le16(2) + le16(n);
    assert(b[4] == head[4] && b[5] == head[5]);
}

/// Byte `k` of entry `i` in a written file.
proof fn lemma_entry_byte(s: Seq<CursorImage>, i: int, k: int)
    requires
        all_encodable(s),
        1 <= s.len() <= 256,
        0 <= i < s.len(),
        0 <= k < 16,
    ensures
        cur_file(s)[6 + 16 * i + k] == entry_bytes(s[i], 6 + 16 * s.len() + dibs_total(s.take(i)))[k],
{
    let n = s.len() as int;
    lemma_many_layout(s);
    lemma_dir_entry_at(s, 6 + 16 * n, i, k);
}

/// Every entry of a written file reads back as written.
proof fn lemma_many_entry(s: Seq<CursorImage>, i: int)
    requires
        all_encodable(s),
        1 <= s.len() <= 256,
        0 <= i < s.len(),
    ensures
        raw_entry(cur_file(s), i) == written_entry(s, i),
{
    let n = s.len() as int;
    let b = cur_file(s);
    lemma_many_layout(s);
    lemma_dib_at(s, i);
    let img = s[i];
    assert(valid_image(img));
    let t = dibs_total(s.take(i));
    let len = image_dib_len(img);
    lemma_dib_len_bounds(img.bitmap.width as int, img.bitmap.height as int);
    let at = 6 + 16 * n + t;
    let eb = entry_bytes(img, at);
    lemma_le16_value(img.hotspot.0 as int);
    lemma_le16_value(img.hotspot.1 as int);
    lemma_le32_value(len);
    lemma_le32_value(at);
    let base = 6 + 16 * i;
    lemma_entry_byte(s, i, 0);
    lemma_entry_byte(s, i, 1);
    lemma_entry_byte(s, i, 4);
    lemma_entry_byte(s, i, 5);
    lemma_entry_byte(s, i, 6);
    lemma_entry_byte(s, i, 7);
    lemma_entry_byte(s, i, 8);
    lemma_entry_byte(s, i, 9);
    lemma_entry_byte(s, i, 10);
    lemma_entry_byte(s, i, 11);
    lemma_entry_byte(s, i, 12);
    lemma_entry_byte(s, i, 13);
    lemma_entry_byte(s, i, 14);
    lemma_entry_byte(s, i, 15);
    lemma_side_byte(img.bitmap.width as int);
    lemma_side_byte(img.bitmap.height as int);
    assert(u16_le(b, base + 4) == img.hotspot.0);
    assert(u16_le(b, base + 6) == img.hotspot.1);
    assert(u32_le(b, base + 8) == len);
    assert(u32_le(b, base + 12) == at);
    assert(raw_entry(b, i) == written_entry(s, i));
}

/// The file holds every image's bytes where its entry points, and every
/// entry reads back as written.
proof fn lemma_many_file(s: Seq<CursorImage>, i: int)
    requires
        all_encodable(s),
        1 <= s.len() <= 256,
        0 <= i < s.len(),
    ensures
        ({
            let b = cur_file(s);
            let start = 6 + 16 * s.len();
            let e = written_entry(s, i);
            &&& b.len() == start + dibs_total(s)
            &&& dibs_total(s) <= 300000 * s.len()
            &&& raw_entry(b, i) == e
            &&& entry_in_file(b, e)
            &&& b.subrange(e.offset as int, e.offset + e.length) == dib_bytes(s[i].bitmap@)
            &&& b[0] == 0 && b[1] == 0 && b[2] == 2 && b[3] == 0
            &&& u16_le(b, 4) == s.len()
        }),
{
    let n = s.len() as int;
    let b = cur_file(s);
    lemma_many_layout(s);
    lemma_many_entry(s, i);
    lemma_dib_at(s, i);
    let img = s[i];
    assert(valid_image(img));
    lemma_dib_len_bounds(img.bitmap.width as int, img.bitmap.height as int);
    let t = dibs_total(s.take(i));
    let len = image_dib_len(img);
    let at = 6 + 16 * n + t;
    let d = dir_entries(s, 6 + 16 * n);
    let head = le16(0) + le16(2) + le16(n);
    assert(b.subrange(at, at + len) =~= all_dibs(s).subrange(t, t + len));
}

proof fn lemma_dibs_total_bound(s: Seq<CursorImage>)
    requires
        all_encodable(s),
    ensures
        0 <= dibs_total(s) <= 300000 * s.len(),
    decreases s.len(),
{
    if s.len() > 0 {
        lemma_encodable_prefix(s);
        lemma_dibs_total_bound(s.drop_last());
        lemma_dib_len_bounds(s.last().bitmap.width as int, s.last().bitmap.height as int);
    }
}

/// The usable entries of a written file are all of them, in order.
proof fn lemma_many_entries(s: Seq<CursorImage>, k: int)
    requires
        all_encodable(s),
        1 <= s.len() <= 256,
        0 <= k <= s.len(),
    ensures
        usable_entries(cur_file(s), k) == Seq::new(k as nat, |j: int| written_entry(s, j)),
    decreases k,
{
    let b = cur_file(s);
    if k > 0 {
        lemma_many_entries(s, k - 1);
        lemma_many_file(s, k - 1);
        assert(usable_entries(b, k) =~= Seq::new(k as nat, |j: int| written_entry(s, j)));
    } else {
        assert(usable_entries(b, k) =~= Seq::new(k as nat, |j: int| written_entry(s, j)));
    }
}

/// Entry `i` of a written file decodes to the picture it was written from.
proof fn lemma_many_decodes(s: Seq<CursorImage>, i: int)
    requires
        all_encodable(s),
        1 <= s.len() <= 256,
        0 <= i < s.len(),
    ensures
        entry_result(cur_file(s), written_entry(s, i)) == Ok::<Raster, AppError>(s[i].bitmap@),
{
    let b = cur_file(s);
    let e = written_entry(s, i);
    let r = s[i].bitmap@;
    lemma_many_file(s, i);
    assert(valid_image(s[i]));
    lemma_dib_round_trip(r);
    lemma_dib_parts(r);
    let data = b.subrange(e.offset as int, e.offset + e.length);
    assert(data == dib_bytes(r));
    assert(!is_png(data)) by {
        reveal(dib_header);
        assert(data[0] == dib_header(r.width as int, r.height as int)[0]);
    }
    assert(e.height == r.height as u32);
    assert(entry_result(b, e) == Ok::<Raster, AppError>(r)) by {
        reveal(entry_decoded);
    }
}

/// Images whose widths strictly rise fit the 256 possible widths.
proof fn lemma_rising_widths(s: Seq<CursorImage>, j: int)
    requires
        all_valid(s),
        forall|a: int, b: int| 0 <= a < b < s.len() ==> #[trigger] s[a].bitmap.width < #[trigger] s[b].bitmap.width,
        0 <= j < s.len(),
    ensures
        s[j].bitmap.width >= j + 1,
    decreases j,
{
    assert(valid_image(s[j]));
    if j > 0 {
        lemma_rising_widths(s, j - 1);
        assert(s[j - 1].bitmap.width < s[j].bitmap.width);
    }
}

/// `order` names every position of `imgs`.
proof fn lemma_order_covers(imgs: Seq<CursorImage>, order: Seq<usize>, i: int)
    requires
        by_width(imgs, order),
        0 <= i < imgs.len(),
    ensures
        exists|j: int| 0 <= j < order.len() && order[j] == i,
{
    let n = imgs.len() as int;
    let ints = order.map_values(|x: usize| x as int);
    assert forall|a: int, b: int| 0 <= a < ints.len() && 0 <= b < ints.len() && a != b implies ints[a] != ints[b] by {
        if a < b {
            assert(order[a] != order[b]);
        } else {
            assert(order[b] != order[a]);
        }
    }
    assert(ints.no_duplicates());
    ints.unique_seq_to_set();
    let range = vstd::set_lib::set_int_range(0, n);
    vstd::set_lib::lemma_int_range(0, n);
    assert(ints.to_set().subset_of(range)) by {
        assert forall|v: int| ints.to_set().contains(v) implies range.contains(v) by {
            let j = choose|j: int| 0 <= j < ints.len() && ints[j] == v;
            assert(order[j] < n);
        }
    }
    vstd::set_lib::lemma_subset_equality(ints.to_set(), range);
    assert(range.contains(i));
    assert(ints.to_set().contains(i));
    let j = choose|j: int| 0 <= j < ints.len() && ints[j] == i;
    assert(order[j] == i);
}

/// A cursor written by `write_cur` from square images of distinct widths
/// reads back through `decode_icon` as its widest image, exactly as it
/// went in, hotspot included: the reader takes the largest entry, and the
/// writer stores every entry losslessly, whatever order it puts them in.
#[verifier::rlimit(40)]
pub proof fn law_cursor_round_trip_many(imgs: Seq<CursorImage>, order: Seq<usize>, widest: int)
    requires
        all_valid(imgs),
        forall|i: int| 0 <= i < imgs.len() ==> (#[trigger] imgs[i]).bitmap@.wf(),
        forall|i: int| 0 <= i < imgs.len() ==> (#[trigger] imgs[i]).bitmap.width == imgs[i].bitmap.height,
        forall|i: int, j: int|
            0 <= i < imgs.len() && 0 <= j < imgs.len() && i != j ==> #[trigger] imgs[i].bitmap.width
                != #[trigger] imgs[j].bitmap.width,
        1 <= imgs.len(),
        by_width(imgs, order),
        0 <= widest < imgs.len(),
        forall|i: int| 0 <= i < imgs.len() ==> #[trigger] imgs[i].bitmap.width <= imgs[widest].bitmap.width,
    ensures
        decoded_icon(cur_file(permuted(imgs, order))) == Ok::<(Raster, Option<(u16, u16)>), AppError>(
            (imgs[widest].bitmap@, Some(imgs[widest].hotspot)),
        ),
{
    let s = permuted(imgs, order);
    let n = s.len() as int;
    assert(n == imgs.len());
    assert forall|j: int| 0 <= j < n implies valid_image(#[trigger] s[j]) && s[j].bitmap@.wf() by {
        assert(s[j] == imgs[order[j] as int]);
    }
    assert(all_encodable(s));
    assert forall|a: int, b: int| 0 <= a < b < n implies #[trigger] s[a].bitmap.width < #[trigger] s[b].bitmap.width by {
        assert(s[a] == imgs[order[a] as int] && s[b] == imgs[order[b] as int]);
        assert(order[a] != order[b]);
    }
    lemma_rising_widths(s, n - 1);
    assert(s[n - 1].bitmap.width <= 256) by {
        assert(valid_image(s[n - 1]));
    }
    assert(n <= 256);
    lemma_order_covers(imgs, order, widest);
    let jm = choose|j: int| 0 <= j < order.len() && order[j] == widest;
    assert(s[jm] == imgs[widest]);
    let b = cur_file(s);
    lemma_many_file(s, 0);
    lemma_many_entries(s, n);
    let es = Seq::new(n as nat, |j: int| written_entry(s, j));
    assert(is_icon_header(b));
    assert(declared_count(b) == n);
    assert(present_count(b) == n) by {
        assert((b.len() - 6) / 16 >= n);
    }
    assert(directory_of(b) == Ok::<Seq<Entry>, AppError>(es));
    lemma_many_decodes(s, jm);
    assert forall|j: int| 0 <= j < es.len() && tried_before(es, j, jm) implies #[trigger] entry_result(b, es[j]) is Err by {
        let wj = s[j].bitmap.width as int;
        let wm = s[jm].bitmap.width as int;
        assert(s[j] == imgs[order[j] as int]);
        if j != jm {
            assert(order[j] != order[jm]);
            assert(wj < wm);
            assert(wj * wj < wm * wm) by (nonlinear_arith)
                requires
                    0 <= wj < wm,
            ;
        }
        assert(entry_rank(es[j]) == wj * wj * 65536);
        assert(entry_rank(es[jm]) == wm * wm * 65536);
    }
    assert(first_success(b, es, jm));
    lemma_icon_success_pub(b, es, jm);
}

} // verus!
