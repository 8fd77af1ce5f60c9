//! Choosing where the click lands.
//!
//! The decision between modes is made on exact integer moments of the alpha
//! channel; turning a hotspot into a fraction of the image is left to the
//! caller.

use vstd::prelude::*;
use crate::bitmap::{Bitmap, Raster, offset, lemma_offset_bounds};

verus! {

/// How a cursor's hotspot is chosen.
#[derive(Debug, Clone, Copy, PartialEq, Eq, Structural)]
pub enum HotspotMode {
    Center,
    TopLeft,
    /// Centre of mass of the alpha channel: right for symmetric marks such
    /// as crosshairs, dots and rings.
    AlphaCentroid,
    /// The topmost, then leftmost, clearly opaque pixel: right for arrow-shaped
    /// art, where the point of the arrow is the point of the cursor.
    TipDetect,
    Manual,
}

impl Default for HotspotMode {
    fn default() -> (out: Self)
        ensures
            out == HotspotMode::AlphaCentroid,
    {
        HotspotMode::AlphaCentroid
    }
}

/// The alpha at which a pixel counts as part of a tip; the soft fringe of an
/// anti-aliased point is below it.
pub const TIP_THRESHOLD: u8 = 96;

/// Pixel `(x, y)` is opaque enough to be a tip.
pub open spec fn tip_at(r: Raster, x: int, y: int) -> bool {
    r.in_bounds(x, y) && r.alpha(x, y) >= 96
}

/// `(x, y)` is the first tip pixel in reading order: the topmost row with
/// one, then the leftmost in that row.
pub open spec fn is_tip(r: Raster, x: int, y: int) -> bool {
    &&& tip_at(r, x, y)
    &&& forall|x2: int, y2: int| #[trigger] tip_at(r, x2, y2) ==> y < y2 || (y == y2 && x <= x2)
}

/// The position of the `k`-th pixel in reading order.
pub open spec fn px_of(r: Raster, k: int) -> (int, int) {
    (k % (r.width as int), k / (r.width as int))
}

/// Alpha, alpha times x, and alpha times y, summed over the first `k` pixels
/// in reading order.
pub open spec fn moments(r: Raster, k: int) -> (int, int, int)
    decreases k,
{
    if k <= 0 {
        (0, 0, 0)
    } else {
        let prev = moments(r, k - 1);
        let (x, y) = px_of(r, k - 1);
        let a = r.alpha(x, y) as int;
        (prev.0 + a, prev.1 + a * x, prev.2 + a * y)
    }
}

/// Alpha, alpha times x, and alpha times y over the whole picture.
pub open spec fn total_moments(r: Raster) -> (int, int, int) {
    moments(r, (r.width * r.height) as int)
}

/// The divisor that turns a column into a fraction: the last column's
/// index, at least 1.
pub open spec fn span(n: int) -> int {
    if n - 1 < 1 { 1 } else { n - 1 }
}

/// Whether an image with its tip at `(x, y)` points from the corner with
/// its mass trailing away: the tip within the top-left quarter of both
/// axes, and the centre of mass below and to the right of it.
pub open spec fn arrow_shaped(r: Raster, x: int, y: int) -> bool {
    let (total, sx, sy) = total_moments(r);
    &&& 4 * x < span(r.width as int)
    &&& 4 * y < span(r.height as int)
    &&& total > 0
    &&& sx > x * total
    &&& sy > y * total
}

/// The mode a picture suggests: tip detection for a shape with a point in
/// its top-left corner and its mass trailing away from it, the centroid
/// otherwise.
pub open spec fn suggested_mode(r: Raster) -> HotspotMode {
    if exists|x: int, y: int| #[trigger] is_tip(r, x, y) && arrow_shaped(r, x, y) {
        HotspotMode::TipDetect
    } else {
        HotspotMode::AlphaCentroid
    }
}

/// A picture has at most one tip.
proof fn lemma_tip_unique(r: Raster, x1: int, y1: int, x2: int, y2: int)
    requires
        is_tip(r, x1, y1),
        is_tip(r, x2, y2),
    ensures
        x1 == x2 && y1 == y2,
{
    assert(tip_at(r, x1, y1) && tip_at(r, x2, y2));
}

/// The first pixel, in reading order, with alpha of at least
/// [`TIP_THRESHOLD`].
pub fn tip_pixel(bitmap: &Bitmap) -> (out: Option<(u32, u32)>)
    requires
        bitmap@.wf(),
    ensures
        match out {
            Some((x, y)) => is_tip(bitmap@, x as int, y as int),
            None => forall|x: int, y: int| !#[trigger] tip_at(bitmap@, x, y),
        },
{
    let mut y: u32 = 0;
    while y < bitmap.height
        invariant
            bitmap@.wf(),
            y <= bitmap.height,
            forall|x2: int, y2: int| #[trigger] tip_at(bitmap@, x2, y2) ==> y2 >= y,
        decreases bitmap.height - y,
    {
        let mut x: u32 = 0;
        while x < bitmap.width
            invariant
                bitmap@.wf(),
                y < bitmap.height,
                x <= bitmap.width,
                forall|x2: int, y2: int| #[trigger] tip_at(bitmap@, x2, y2) ==> y2 > y || (y2 == y && x2 >= x),
            decreases bitmap.width - x,
        {
            if bitmap.alpha(x, y) >= TIP_THRESHOLD {
                return Some((x, y));
            }
            x = x + 1;
        }
        y = y + 1;
    }
    None
}

/// Alpha, alpha times x, and alpha times y, summed over every pixel.
pub fn alpha_moments(bitmap: &Bitmap) -> (out: (u128, u128, u128))
    requires
        bitmap@.wf(),
    ensures
        (out.0 as int, out.1 as int, out.2 as int) == total_moments(bitmap@),
        out.0 <= 255 * ((bitmap.height as int) * (bitmap.width as int)),
{
    let (w, h) = (bitmap.width, bitmap.height);
    let ghost r = bitmap@;
    let mut total: u128 = 0;
    let mut sx: u128 = 0;
    let mut sy: u128 = 0;
    let mut y: u32 = 0;
    while y < h
        invariant
            r == bitmap@,
            r.wf(),
            w == r.width,
            h == r.height,
            y <= h,
            (total as int, sx as int, sy as int) == moments(r, (y as int) * (w as int)),
            total <= 255 * ((y as int) * (w as int)),
            sx <= 255 * ((y as int) * (w as int)) * (w as int),
            sy <= 255 * ((y as int) * (w as int)) * (h as int),
        decreases h - y,
    {
        let mut x: u32 = 0;
        while x < w
            invariant
                r == bitmap@,
                r.wf(),
                w == r.width,
                h == r.height,
                y < h,
                x <= w,
                (total as int, sx as int, sy as int) == moments(r, (y as int) * (w as int) + x),
                total <= 255 * ((y as int) * (w as int) + x),
                sx <= 255 * ((y as int) * (w as int) + x) * (w as int),
                sy <= 255 * ((y as int) * (w as int) + x) * (h as int),
            decreases w - x,
        {
            let a = bitmap.alpha(x, y);
            proof {
                let k = (y as int) * (w as int) + x;
                assert(k + 1 <= 0x1_0000_0000 * 0x1_0000_0000) by (nonlinear_arith)
                    requires
                        k == (y as int) * (w as int) + x,
                        y < h,
                        x < w,
                        w <= 0xffff_ffff,
                        h <= 0xffff_ffff,
                ;
                crate::cur_writer::lemma_row_col_pub(k, w as int, y as int, x as int);
                assert(px_of(r, k) == (x as int, y as int));
                assert((a as int) * (x as int) <= 255 * (w as int) && (a as int) * (y as int) <= 255 * (h as int))
                    by (nonlinear_arith)
                    requires
                        a <= 255,
                        x < w,
                        y < h,
                ;
                assert(255 * (k + 1) * (w as int) == 255 * k * (w as int) + 255 * (w as int)) by (nonlinear_arith);
                assert(255 * (k + 1) * (h as int) == 255 * k * (h as int) + 255 * (h as int)) by (nonlinear_arith);
                assert(255 * (k + 1) * (h as int) <= 255 * (0x1_0000_0000 * 0x1_0000_0000) * 0x1_0000_0000)
                    by (nonlinear_arith)
                    requires
                        0 <= k + 1 <= 0x1_0000_0000 * 0x1_0000_0000,
                        h <= 0xffff_ffff,
                ;
                assert(255 * (k + 1) * (w as int) <= 255 * (0x1_0000_0000 * 0x1_0000_0000) * 0x1_0000_0000)
                    by (nonlinear_arith)
                    requires
                        0 <= k + 1 <= 0x1_0000_0000 * 0x1_0000_0000,
                        w <= 0xffff_ffff,
                ;
                assert(k + 1 <= 0x1_0000_0000 * 0x1_0000_0000) by (nonlinear_arith)
                    requires
                        k == (y as int) * (w as int) + x,
                        y < h,
                        x < w,
                        w <= 0xffff_ffff,
                        h <= 0xffff_ffff,
                ;
            }
            total = total + a as u128;
            sx = sx + (a as u128) * (x as u128);
            sy = sy + (a as u128) * (y as u128);
            x = x + 1;
        }
        assert((y as int) * (w as int) + w == ((y + 1) as int) * (w as int)) by (nonlinear_arith);
        y = y + 1;
    }
    assert((h as int) * (w as int) == (w as int) * (h as int)) by (nonlinear_arith);
    (total, sx, sy)
}

/// Picks the mode that suits the artwork. The question is not where the
/// mass is but whether the shape has a point: an arrow's first opaque pixel
/// sits in the corner and its mass trails away from it; a ring meets its
/// bounding box in the middle of the top edge.
pub fn suggest(bitmap: &Bitmap) -> (mode: HotspotMode)
    requires
        bitmap@.wf(),
    ensures
        mode == suggested_mode(bitmap@),
{
    let ghost r = bitmap@;
    match tip_pixel(bitmap) {
        None => {
            assert(!exists|x: int, y: int| #[trigger] is_tip(r, x, y) && arrow_shaped(r, x, y));
            HotspotMode::AlphaCentroid
        },
        Some((x, y)) => {
            let (total, sx, sy) = alpha_moments(bitmap);
            assert((x as int) * (total as int) <= 0xffff_ffff * (255 * (0xffff_ffff * 0xffff_ffff))
                && (y as int) * (total as int) <= 0xffff_ffff * (255 * (0xffff_ffff * 0xffff_ffff)))
                by (nonlinear_arith)
                requires
                    x <= 0xffff_ffff,
                    y <= 0xffff_ffff,
                    total <= 255 * ((bitmap.height as int) * (bitmap.width as int)),
                    bitmap.height <= 0xffff_ffff,
                    bitmap.width <= 0xffff_ffff,
            ;
            let dx: u64 = if bitmap.width < 2 { 1 } else { bitmap.width as u64 - 1 };
            let dy: u64 = if bitmap.height < 2 { 1 } else { bitmap.height as u64 - 1 };
            let arrow = 4 * (x as u64) < dx && 4 * (y as u64) < dy && total > 0 && sx > (x as u128)
                * total && sy > (y as u128) * total;
            proof {
                assert(arrow == arrow_shaped(r, x as int, y as int));
                if !arrow {
                    assert forall|x2: int, y2: int| #[trigger] is_tip(r, x2, y2) implies !arrow_shaped(
                        r,
                        x2,
                        y2,
                    ) by {
                        lemma_tip_unique(r, x as int, y as int, x2, y2);
                    }
                }
            }
            if arrow {
                HotspotMode::TipDetect
            } else {
                HotspotMode::AlphaCentroid
            }
        },
    }
}

} // verus!
