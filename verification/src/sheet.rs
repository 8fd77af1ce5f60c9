//! Contact sheets for judging artwork by eye: every size a cursor ships,
//! magnified with whole pixels so the grid the rasteriser produced stays
//! visible, and laid side by side on one ground.

use vstd::prelude::*;
use crate::bitmap::{Bitmap, Raster, fits, lemma_raster_ext, lemma_raster_from_at, raster_from};

verus! {

/// `r` with every pixel blown up into a `zoom` by `zoom` square.
pub open spec fn magnified(r: Raster, zoom: nat) -> Raster {
    raster_from(r.width * zoom, r.height * zoom, |x: int, y: int, c: int| r.at(x / zoom as int, y / zoom as int, c))
}

/// Channel value `s` laid over `d` with coverage `a` out of 255.
pub open spec fn over_channel(s: int, d: int, a: int) -> int {
    (s * a + d * (255 - a)) / 255
}

/// Channel `c` of pixel `(x, y)` of `sheet` once `over` is laid on it with
/// its top-left corner at `(ox, oy)`: where `over` has any coverage, its
/// colour over the sheet's, fully opaque; elsewhere the sheet as it was.
pub open spec fn laid_at(sheet: Raster, over: Raster, ox: int, oy: int, x: int, y: int, c: int) -> u8 {
    let (sx, sy) = (x - ox, y - oy);
    if over.in_bounds(sx, sy) && over.alpha(sx, sy) > 0 {
        if c < 3 {
            over_channel(over.at(sx, sy, c) as int, sheet.at(x, y, c) as int, over.alpha(sx, sy) as int) as u8
        } else {
            255u8
        }
    } else {
        sheet.at(x, y, c)
    }
}

/// `sheet` with `over` laid on it at `(ox, oy)`; what falls off the sheet is
/// dropped.
pub open spec fn laid(sheet: Raster, over: Raster, ox: int, oy: int) -> Raster {
    raster_from(sheet.width, sheet.height, |x: int, y: int, c: int| laid_at(sheet, over, ox, oy, x, y, c))
}

proof fn lemma_magnified_at(r: Raster, zoom: nat, x: int, y: int, c: int)
    requires
        zoom > 0,
        0 <= x < r.width * zoom,
        0 <= y < r.height * zoom,
        0 <= c < 4,
    ensures
        magnified(r, zoom).wf(),
        magnified(r, zoom).at(x, y, c) == r.at(x / zoom as int, y / zoom as int, c),
        r.in_bounds(x / zoom as int, y / zoom as int),
{
    lemma_raster_from_at(
        r.width * zoom,
        r.height * zoom,
        |x: int, y: int, c: int| r.at(x / zoom as int, y / zoom as int, c),
        x,
        y,
        c,
    );
    let z = zoom as int;
    assert(x / z < r.width) by (nonlinear_arith)
        requires
            0 <= x < r.width * z,
            z > 0,
    ;
    assert(y / z < r.height) by (nonlinear_arith)
        requires
            0 <= y < r.height * z,
            z > 0,
    ;
    assert(0 <= x / z && 0 <= y / z) by (nonlinear_arith)
        requires
            0 <= x,
            0 <= y,
            z > 0,
    ;
}

proof fn lemma_laid_at(sheet: Raster, over: Raster, ox: int, oy: int, x: int, y: int, c: int)
    requires
        sheet.in_bounds(x, y),
        0 <= c < 4,
    ensures
        laid(sheet, over, ox, oy).wf(),
        laid(sheet, over, ox, oy).at(x, y, c) == laid_at(sheet, over, ox, oy, x, y, c),
{
    lemma_raster_from_at(
        sheet.width,
        sheet.height,
        |x: int, y: int, c: int| laid_at(sheet, over, ox, oy, x, y, c),
        x,
        y,
        c,
    );
}

/// Channel `s` over `d` at coverage `a`.
fn mix(s: u8, d: u8, a: u32) -> (m: u8)
    requires
        a <= 255,
    ensures
        m as int == over_channel(s as int, d as int, a as int),
{
    assert(s as u32 * a <= 255 * a && d as u32 * (255 - a) <= 255 * (255 - a)) by (nonlinear_arith)
        requires
            s <= 255,
            d <= 255,
            a <= 255,
    ;
    assert((s as int * a + d as int * (255 - a)) / 255 <= 255) by (nonlinear_arith)
        requires
            s as int * a <= 255 * a,
            d as int * (255 - a) <= 255 * (255 - a),
            a <= 255,
    ;
    ((s as u32 * a + d as u32 * (255 - a)) / 255) as u8
}

/// `bitmap` magnified by `zoom` with nearest-neighbour sampling: each pixel
/// becomes a `zoom` by `zoom` square of itself. A smooth resample would hide
/// exactly the pixels being judged.
pub fn magnify(bitmap: &Bitmap, zoom: u32) -> (out: Bitmap)
    requires
        bitmap@.wf(),
        zoom > 0,
        bitmap.width * zoom <= u32::MAX,
        bitmap.height * zoom <= u32::MAX,
        fits(bitmap.width * zoom, bitmap.height * zoom),
    ensures
        out@ == magnified(bitmap@, zoom as nat),
{
    let (w, h) = (bitmap.width * zoom, bitmap.height * zoom);
    let mut out = Bitmap::new(w, h);
    let ghost target = magnified(bitmap@, zoom as nat);
    let mut y: u32 = 0;
    while y < h
        invariant
            bitmap@.wf(),
            out@.wf(),
            out.width == w,
            out.height == h,
            w == bitmap.width * zoom,
            h == bitmap.height * zoom,
            zoom > 0,
            target == magnified(bitmap@, zoom as nat),
            y <= h,
            forall|xx: int, yy: int, c: int|
                #![trigger out@.at(xx, yy, c)]
                0 <= xx < w && 0 <= yy < y && 0 <= c < 4 ==> out@.at(xx, yy, c) == target.at(xx, yy, c),
        decreases h - y,
    {
        let mut x: u32 = 0;
        while x < w
            invariant
                bitmap@.wf(),
                out@.wf(),
                out.width == w,
                out.height == h,
                w == bitmap.width * zoom,
                h == bitmap.height * zoom,
                zoom > 0,
                target == magnified(bitmap@, zoom as nat),
                y < h,
                x <= w,
                forall|xx: int, yy: int, c: int|
                    #![trigger out@.at(xx, yy, c)]
                    0 <= xx < w && 0 <= yy < h && 0 <= c < 4 && (yy < y || (yy == y && xx < x)) ==> out@.at(xx, yy, c)
                        == target.at(xx, yy, c),
            decreases w - x,
        {
            proof {
                assert forall|c: int| 0 <= c < 4 implies target.at(x as int, y as int, c) == bitmap@.at(
                    (x / zoom) as int,
                    (y / zoom) as int,
                    c,
                ) by {
                    lemma_magnified_at(bitmap@, zoom as nat, x as int, y as int, c);
                }
                lemma_magnified_at(bitmap@, zoom as nat, x as int, y as int, 0);
            }
            let rgba = bitmap.pixel(x / zoom, y / zoom);
            out.set_pixel(x, y, rgba);
            x = x + 1;
        }
        y = y + 1;
    }
    proof {
        assert forall|xx: int, yy: int, c: int|
            #![trigger out@.at(xx, yy, c)]
            #![trigger target.at(xx, yy, c)]
            out@.in_bounds(xx, yy) && 0 <= c < 4 implies out@.at(xx, yy, c) == target.at(xx, yy, c) by {}
        assert(target.wf());
        lemma_raster_ext(out@, target);
    }
    out
}

/// Lays `over` onto `sheet` with its top-left corner at `(ox, oy)`, straight
/// source-over: each pixel with any coverage mixes its colour over the
/// sheet's by that coverage and leaves the sheet opaque there; transparent
/// pixels, and any that fall off the sheet, change nothing.
pub fn blit(sheet: &mut Bitmap, over: &Bitmap, ox: u32, oy: u32)
    requires
        old(sheet)@.wf(),
        over@.wf(),
        ox + over.width <= u32::MAX + 1,
        oy + over.height <= u32::MAX + 1,
    ensures
        final(sheet)@ == laid(old(sheet)@, over@, ox as int, oy as int),
{
    let ghost orig = sheet@;
    let ghost target = laid(orig, over@, ox as int, oy as int);
    let (sw, sh) = (sheet.width, sheet.height);
    let (ow, oh) = (over.width, over.height);
    let mut y: u32 = 0;
    while y < oh
        invariant
            orig.wf(),
            sheet@.wf(),
            over@.wf(),
            sheet.width == sw,
            sheet.height == sh,
            orig.width == sw,
            orig.height == sh,
            ow == over.width,
            oh == over.height,
            ox + ow <= u32::MAX + 1,
            oy + oh <= u32::MAX + 1,
            target == laid(orig, over@, ox as int, oy as int),
            y <= oh,
            forall|tx: int, ty: int, c: int|
                #![trigger sheet@.at(tx, ty, c)]
                0 <= tx < sw && 0 <= ty < sh && 0 <= c < 4 ==> sheet@.at(tx, ty, c) == (if 0 <= tx - ox < ow && 0
                    <= ty - oy < y {
                    target.at(tx, ty, c)
                } else {
                    orig.at(tx, ty, c)
                }),
        decreases oh - y,
    {
        let mut x: u32 = 0;
        while x < ow
            invariant
                orig.wf(),
                sheet@.wf(),
                over@.wf(),
                sheet.width == sw,
                sheet.height == sh,
                orig.width == sw,
                orig.height == sh,
                ow == over.width,
                oh == over.height,
                ox + ow <= u32::MAX + 1,
                oy + oh <= u32::MAX + 1,
                target == laid(orig, over@, ox as int, oy as int),
                y < oh,
                x <= ow,
                forall|tx: int, ty: int, c: int|
                    #![trigger sheet@.at(tx, ty, c)]
                    0 <= tx < sw && 0 <= ty < sh && 0 <= c < 4 ==> sheet@.at(tx, ty, c) == (if 0 <= tx - ox < ow
                        && 0 <= ty - oy < oh && (ty - oy < y || (ty - oy == y && tx - ox < x)) {
                        target.at(tx, ty, c)
                    } else {
                        orig.at(tx, ty, c)
                    }),
            decreases ow - x,
        {
            let src = over.pixel(x, y);
            let a = src[3] as u32;
            let (tx, ty) = (ox + x, oy + y);
            if a > 0 && tx < sw && ty < sh {
                let dst = sheet.pixel(tx, ty);
                let mix0 = mix(src[0], dst[0], a);
                let mix1 = mix(src[1], dst[1], a);
                let mix2 = mix(src[2], dst[2], a);
                proof {
                    assert forall|c: int| 0 <= c < 4 implies #[trigger] target.at(tx as int, ty as int, c) == [
                        mix0,
                        mix1,
                        mix2,
                        255u8,
                    ]@[c] by {
                        lemma_laid_at(orig, over@, ox as int, oy as int, tx as int, ty as int, c);
                        assert(sheet@.at(tx as int, ty as int, c) == orig.at(tx as int, ty as int, c));
                    }
                }
                sheet.set_pixel(tx, ty, [mix0, mix1, mix2, 255]);
            } else {
                proof {
                    if tx < sw && ty < sh {
                        assert forall|c: int| 0 <= c < 4 implies #[trigger] target.at(tx as int, ty as int, c) == orig.at(
                            tx as int,
                            ty as int,
                            c,
                        ) by {
                            lemma_laid_at(orig, over@, ox as int, oy as int, tx as int, ty as int, c);
                        }
                    }
                }
            }
            x = x + 1;
        }
        y = y + 1;
    }
    proof {
        assert forall|tx: int, ty: int, c: int|
            #![trigger sheet@.at(tx, ty, c)]
            #![trigger target.at(tx, ty, c)]
            sheet@.in_bounds(tx, ty) && 0 <= c < 4 implies sheet@.at(tx, ty, c) == target.at(tx, ty, c) by {
            lemma_laid_at(orig, over@, ox as int, oy as int, tx, ty, c);
        }
        assert(target.wf());
        lemma_raster_ext(sheet@, target);
    }
}

/// How much the ladder sheet magnifies each size.
pub const LADDER_ZOOM: u32 = 4;

/// The margin between and around the ladder sheet's images.
pub const LADDER_PAD: u32 = 10;

/// The ladder sheet's width: room for every size of the ladder, magnified,
/// side by side.
pub const LADDER_WIDTH: u32 = 1762;

/// The ladder sheet's height: the largest size magnified, and 1:1 beneath.
pub const LADDER_HEIGHT: u32 = 670;

/// The row the 1:1 images stand on.
pub const LADDER_LOWER_ROW: u32 = 532;

/// A mid grey ground: light and dark artwork are both legible on it, and
/// neither is flattered.
pub open spec fn ground_channel(c: int) -> u8 {
    if c == 0 {
        44u8
    } else if c == 1 {
        46u8
    } else if c == 2 {
        52u8
    } else {
        255u8
    }
}

/// A sheet of the ground colour.
pub open spec fn ground(width: nat, height: nat) -> Raster {
    raster_from(width, height, |x: int, y: int, c: int| ground_channel(c))
}

/// The ladder sheet once the first `k` images are on it, and where the
/// next one goes: each image magnified along the top, and 1:1 beneath it.
pub open spec fn ladder_upto(imgs: Seq<Raster>, k: int) -> (Raster, int)
    decreases k,
{
    if k <= 0 {
        (ground(LADDER_WIDTH as nat, LADDER_HEIGHT as nat), LADDER_PAD as int)
    } else {
        let (prev, x) = ladder_upto(imgs, k - 1);
        let r = imgs[k - 1];
        let big = laid(prev, magnified(r, LADDER_ZOOM as nat), x, LADDER_PAD as int);
        (laid(big, r, x, LADDER_LOWER_ROW as int), x + r.width * LADDER_ZOOM + LADDER_PAD)
    }
}

/// The pictures of a run of bitmaps.
pub open spec fn rasters(images: Seq<Bitmap>) -> Seq<Raster> {
    Seq::new(images.len(), |i: int| images[i]@)
}

proof fn lemma_ladder_grows(imgs: Seq<Raster>, j: int, k: int)
    requires
        0 <= j <= k,
    ensures
        ladder_upto(imgs, j).1 <= ladder_upto(imgs, k).1,
        ladder_upto(imgs, j).1 >= LADDER_PAD,
    decreases k,
{
    if k > j {
        lemma_ladder_grows(imgs, j, k - 1);
    } else if k > 0 {
        lemma_ladder_grows(imgs, 0, k - 1);
    }
}

/// The ladder sheet for judging a cursor's sizes by eye: on a grey ground,
/// each image magnified four times along the top, left to right with a
/// margin between, and the same image 1:1 beneath.
pub fn ladder_sheet(images: &Vec<Bitmap>) -> (out: Bitmap)
    requires
        forall|i: int| 0 <= i < images@.len() ==> (#[trigger] images@[i])@.wf(),
        forall|i: int|
            0 <= i < images@.len() ==> (#[trigger] images@[i]).width * 4 <= u32::MAX && images@[i].height * 4 <= u32::MAX
                && fits(images@[i].width * 4, images@[i].height * 4) && images@[i].height * 4 + LADDER_PAD <= u32::MAX + 1
                && images@[i].height + LADDER_LOWER_ROW <= u32::MAX + 1,
        ladder_upto(rasters(images@), images@.len() as int).1 <= u32::MAX,
    ensures
        out@ == ladder_upto(rasters(images@), images@.len() as int).0,
{
    let ghost imgs = rasters(images@);
    let mut sheet = Bitmap::new(LADDER_WIDTH, LADDER_HEIGHT);
    let ghost target = ground(LADDER_WIDTH as nat, LADDER_HEIGHT as nat);
    let mut y: u32 = 0;
    while y < LADDER_HEIGHT
        invariant
            sheet@.wf(),
            sheet.width == LADDER_WIDTH,
            sheet.height == LADDER_HEIGHT,
            target == ground(LADDER_WIDTH as nat, LADDER_HEIGHT as nat),
            y <= LADDER_HEIGHT,
            forall|xx: int, yy: int, c: int|
                #![trigger sheet@.at(xx, yy, c)]
                0 <= xx < LADDER_WIDTH && 0 <= yy < y && 0 <= c < 4 ==> sheet@.at(xx, yy, c) == target.at(xx, yy, c),
        decreases LADDER_HEIGHT - y,
    {
        let mut x: u32 = 0;
        while x < LADDER_WIDTH
            invariant
                sheet@.wf(),
                sheet.width == LADDER_WIDTH,
                sheet.height == LADDER_HEIGHT,
                target == ground(LADDER_WIDTH as nat, LADDER_HEIGHT as nat),
                y < LADDER_HEIGHT,
                x <= LADDER_WIDTH,
                forall|xx: int, yy: int, c: int|
                    #![trigger sheet@.at(xx, yy, c)]
                    0 <= xx < LADDER_WIDTH && 0 <= yy < LADDER_HEIGHT && 0 <= c < 4 && (yy < y || (yy == y && xx < x))
                        ==> sheet@.at(xx, yy, c) == target.at(xx, yy, c),
            decreases LADDER_WIDTH - x,
        {
            proof {
                assert forall|c: int| 0 <= c < 4 implies target.at(x as int, y as int, c) == #[trigger] ground_channel(c) by {
                    lemma_raster_from_at(
                        LADDER_WIDTH as nat,
                        LADDER_HEIGHT as nat,
                        |x: int, y: int, c: int| ground_channel(c),
                        x as int,
                        y as int,
                        c,
                    );
                }
                assert(ground_channel(0) == 44 && ground_channel(1) == 46 && ground_channel(2) == 52 && ground_channel(3) == 255);
            }
            sheet.set_pixel(x, y, [44, 46, 52, 255]);
            x = x + 1;
        }
        y = y + 1;
    }
    proof {
        assert forall|xx: int, yy: int, c: int|
            #![trigger sheet@.at(xx, yy, c)]
            #![trigger target.at(xx, yy, c)]
            sheet@.in_bounds(xx, yy) && 0 <= c < 4 implies sheet@.at(xx, yy, c) == target.at(xx, yy, c) by {}
        assert(target.wf());
        lemma_raster_ext(sheet@, target);
        assert(sheet@ == ladder_upto(imgs, 0).0);
    }
    let n = images.len();
    let mut x: u32 = LADDER_PAD;
    let mut k: usize = 0;
    while k < n
        invariant
            n == images@.len(),
            imgs == rasters(images@),
            forall|i: int| 0 <= i < images@.len() ==> (#[trigger] images@[i])@.wf(),
            forall|i: int|
                0 <= i < images@.len() ==> (#[trigger] images@[i]).width * 4 <= u32::MAX && images@[i].height * 4
                    <= u32::MAX && fits(images@[i].width * 4, images@[i].height * 4) && images@[i].height * 4
                    + LADDER_PAD <= u32::MAX + 1 && images@[i].height + LADDER_LOWER_ROW <= u32::MAX + 1,
            ladder_upto(imgs, n as int).1 <= u32::MAX,
            k <= n,
            sheet@ == ladder_upto(imgs, k as int).0,
            x == ladder_upto(imgs, k as int).1,
        decreases n - k,
    {
        let image = &images[k];
        proof {
            lemma_ladder_grows(imgs, k as int + 1, n as int);
            assert(imgs[k as int] == image@);
        }
        let big = magnify(image, LADDER_ZOOM);
        blit(&mut sheet, &big, x, LADDER_PAD);
        blit(&mut sheet, image, x, LADDER_LOWER_ROW);
        x = x + image.width * LADDER_ZOOM + LADDER_PAD;
        k = k + 1;
    }
    sheet
}

} // verus!
