//! The background's colour taken back out of the fringe it contaminated.
//!
//! Compression puts a bright overshoot just outside a hard edge, too far from
//! the background to be keyed and too close to the edge to be subject. For
//! each kept pixel near the flood, the kept pixels a little further in, which
//! are clean, say what it should look like; a pixel that leans toward the
//! background by enough takes their colour and keeps its alpha. Colour only,
//! never alpha: the shape was decided by the flood.

use vstd::prelude::*;
use crate::bitmap::{lemma_raster_ext, lemma_raster_from_at, raster_from, Bitmap, Raster};
use crate::matte::{colour_distance, distance, lemma_median_named, median_of, median_u8};
use crate::regions::{cell, lemma_cell};

verus! {

/// How far from the flood a pixel can be and still be contaminated.
pub const FRINGE: i64 = 2;

/// How far in to look for clean pixels to compare against: beyond the
/// fringe, or the samples are contaminated too.
pub const CLEAN: i64 = 4;

/// How much closer to the background a fringe pixel must be than the artwork
/// behind it before it counts as contaminated. Generous: a tight margin turns
/// every soft edge hard.
pub const SPILL_MARGIN: i32 = 40;

/// Some cleared pixel lies within [`FRINGE`] of `(x, y)`, corners included.
pub open spec fn near_flood(c: Seq<bool>, w: int, h: int, x: int, y: int) -> bool {
    exists|n: (int, int)|
        x - FRINGE <= n.0 <= x + FRINGE && y - FRINGE <= n.1 <= y + FRINGE && 0 <= n.0 < w && 0 <= n.1 < h
            && #[trigger] c[cell(w, n.0, n.1)]
}

/// The `k`-th pixel of the window of side `2 * CLEAN + 1` around `(x, y)`,
/// row by row.
pub open spec fn window_at(x: int, y: int, k: int) -> (int, int) {
    (x + k % 9 - CLEAN, y + k / 9 - CLEAN)
}

/// A pixel to compare against: on the canvas, kept, away from the flood and
/// nearly opaque.
pub open spec fn clean_at(r: Raster, c: Seq<bool>, q: (int, int)) -> bool {
    &&& r.in_bounds(q.0, q.1)
    &&& !c[cell(r.width as int, q.0, q.1)]
    &&& !near_flood(c, r.width as int, r.height as int, q.0, q.1)
    &&& r.alpha(q.0, q.1) > 200
}

/// Channel `ch` of the clean pixels among the first `k` of the window.
pub open spec fn clean_channel(r: Raster, c: Seq<bool>, x: int, y: int, ch: int, k: int) -> Seq<u8>
    decreases k,
{
    if k <= 0 {
        Seq::empty()
    } else {
        let q = window_at(x, y, k - 1);
        let prev = clean_channel(r, c, x, y, ch, k - 1);
        if clean_at(r, c, q) { prev.push(r.at(q.0, q.1, ch)) } else { prev }
    }
}

/// What a contaminated pixel becomes, if `(x, y)` is one: a kept, visible
/// pixel near the flood, with at least four clean pixels around it whose
/// per-channel median is further from the background than it is by more
/// than the margin, takes that median's colour and keeps its own alpha.
pub open spec fn spill_fix(r: Raster, c: Seq<bool>, bg: Seq<u8>, x: int, y: int) -> Option<Seq<u8>> {
    let p = r.pixel(x, y);
    let w = r.width as int;
    let h = r.height as int;
    if !c[cell(w, x, y)] && near_flood(c, w, h, x, y) && p[3] != 0 && clean_channel(r, c, x, y, 0, 81).len() >= 4 {
        let interior = seq![
            median_of(clean_channel(r, c, x, y, 0, 81)),
            median_of(clean_channel(r, c, x, y, 1, 81)),
            median_of(clean_channel(r, c, x, y, 2, 81)),
            255u8,
        ];
        if colour_distance(interior, bg) - colour_distance(p, bg) > SPILL_MARGIN {
            Some(seq![interior[0], interior[1], interior[2], p[3]])
        } else {
            None
        }
    } else {
        None
    }
}

pub open spec fn despilled_at(r: Raster, c: Seq<bool>, bg: Seq<u8>, x: int, y: int, ch: int) -> u8 {
    match spill_fix(r, c, bg, x, y) {
        Some(fix) => fix[ch],
        None => r.at(x, y, ch),
    }
}

/// The raster with every contaminated pixel corrected, each judged against
/// the raster as it was.
pub open spec fn despilled(r: Raster, c: Seq<bool>, bg: Seq<u8>) -> Raster {
    raster_from(r.width, r.height, |x: int, y: int, ch: int| despilled_at(r, c, bg, x, y, ch))
}

proof fn lemma_clean_lengths(r: Raster, c: Seq<bool>, x: int, y: int, k: int)
    ensures
        clean_channel(r, c, x, y, 0, k).len() == clean_channel(r, c, x, y, 1, k).len(),
        clean_channel(r, c, x, y, 0, k).len() == clean_channel(r, c, x, y, 2, k).len(),
    decreases k,
{
    if k > 0 {
        lemma_clean_lengths(r, c, x, y, k - 1);
    }
}

/// Where `(x, y)` sits in a mask of `len` entries, one per pixel.
fn index_of(len: usize, w: u32, h: u32, x: u32, y: u32) -> (i: usize)
    requires
        len == w * h,
        x < w,
        y < h,
    ensures
        i == cell(w as int, x as int, y as int),
        i < len,
{
    proof {
        lemma_cell(w as int, h as int, x as int, y as int);
    }
    assert((y as int) * (w as int) <= cell(w as int, x as int, y as int));
    (y as usize) * (w as usize) + (x as usize)
}

/// Whether a cleared pixel lies within the fringe of `(x, y)`.
fn near_flood_at(cleared: &Vec<bool>, w: u32, h: u32, x: i64, y: i64) -> (b: bool)
    requires
        cleared@.len() == w * h,
        0 <= x < w,
        0 <= y < h,
    ensures
        b == near_flood(cleared@, w as int, h as int, x as int, y as int),
{
    let ghost c = cleared@;
    let ghost gw = w as int;
    let ghost gh = h as int;
    let mut ny: i64 = y - FRINGE;
    while ny <= y + FRINGE
        invariant
            c == cleared@,
            gw == w,
            gh == h,
            c.len() == gw * gh,
            0 <= x < w,
            0 <= y < h,
            y - FRINGE <= ny <= y + FRINGE + 1,
            forall|n: (int, int)|
                x - FRINGE <= n.0 <= x + FRINGE && y - FRINGE <= n.1 < ny && 0 <= n.0 < gw && 0 <= n.1 < gh ==> !#[trigger] c[cell(
                    gw,
                    n.0,
                    n.1,
                )],
        decreases y + FRINGE + 1 - ny,
    {
        let mut nx: i64 = x - FRINGE;
        while nx <= x + FRINGE
            invariant
                c == cleared@,
                gw == w,
                gh == h,
                c.len() == gw * gh,
                0 <= x < w,
                0 <= y < h,
                y - FRINGE <= ny <= y + FRINGE,
                x - FRINGE <= nx <= x + FRINGE + 1,
                forall|n: (int, int)|
                    x - FRINGE <= n.0 <= x + FRINGE && y - FRINGE <= n.1 < ny && 0 <= n.0 < gw && 0 <= n.1 < gh
                        ==> !#[trigger] c[cell(gw, n.0, n.1)],
                forall|n: (int, int)|
                    x - FRINGE <= n.0 < nx && n.1 == ny && 0 <= n.0 < gw && 0 <= n.1 < gh ==> !#[trigger] c[cell(gw, n.0, n.1)],
            decreases x + FRINGE + 1 - nx,
        {
            if 0 <= nx && nx < w as i64 && 0 <= ny && ny < h as i64 {
                let i = index_of(cleared.len(), w, h, nx as u32, ny as u32);
                if cleared[i] {
                    proof {
                        let n = (nx as int, ny as int);
                        assert(c[cell(gw, n.0, n.1)]);
                    }
                    return true;
                }
            }
            nx = nx + 1;
        }
        ny = ny + 1;
    }
    false
}

/// Channels 0, 1 and 2 of the clean pixels around `(x, y)`.
fn clean_samples(bitmap: &Bitmap, cleared: &Vec<bool>, x: u32, y: u32) -> (out: (Vec<u8>, Vec<u8>, Vec<u8>))
    requires
        bitmap@.wf(),
        cleared@.len() == bitmap.width * bitmap.height,
        x < bitmap.width,
        y < bitmap.height,
    ensures
        out.0@ == clean_channel(bitmap@, cleared@, x as int, y as int, 0, 81),
        out.1@ == clean_channel(bitmap@, cleared@, x as int, y as int, 1, 81),
        out.2@ == clean_channel(bitmap@, cleared@, x as int, y as int, 2, 81),
{
    let ghost r = bitmap@;
    let ghost c = cleared@;
    let (w, h) = (bitmap.width, bitmap.height);
    let mut s0: Vec<u8> = Vec::new();
    let mut s1: Vec<u8> = Vec::new();
    let mut s2: Vec<u8> = Vec::new();
    let mut k: i64 = 0;
    while k < 81
        invariant
            r == bitmap@,
            r.wf(),
            c == cleared@,
            w == bitmap.width,
            h == bitmap.height,
            c.len() == w * h,
            x < w,
            y < h,
            0 <= k <= 81,
            s0@ == clean_channel(r, c, x as int, y as int, 0, k as int),
            s1@ == clean_channel(r, c, x as int, y as int, 1, k as int),
            s2@ == clean_channel(r, c, x as int, y as int, 2, k as int),
        decreases 81 - k,
    {
        let qx = x as i64 + k % 9 - CLEAN;
        let qy = y as i64 + k / 9 - CLEAN;
        assert((qx as int, qy as int) == window_at(x as int, y as int, k as int));
        if 0 <= qx && qx < w as i64 && 0 <= qy && qy < h as i64 {
            let i = index_of(cleared.len(), w, h, qx as u32, qy as u32);
            if !cleared[i] && !near_flood_at(cleared, w, h, qx, qy) {
                let p = bitmap.pixel(qx as u32, qy as u32);
                if p[3] > 200 {
                    s0.push(p[0]);
                    s1.push(p[1]);
                    s2.push(p[2]);
                }
            }
        }
        k = k + 1;
    }
    (s0, s1, s2)
}

/// The corrected value of one pixel.
fn despill_pixel(bitmap: &Bitmap, cleared: &Vec<bool>, background: [u8; 4], x: u32, y: u32) -> (out: [u8; 4])
    requires
        bitmap@.wf(),
        cleared@.len() == bitmap.width * bitmap.height,
        x < bitmap.width,
        y < bitmap.height,
    ensures
        forall|ch: int| 0 <= ch < 4 ==> out[ch] == despilled_at(bitmap@, cleared@, background@, x as int, y as int, ch),
{
    let ghost r = bitmap@;
    let ghost c = cleared@;
    let (w, h) = (bitmap.width, bitmap.height);
    let pixel = bitmap.pixel(x, y);
    let i = index_of(cleared.len(), w, h, x, y);
    if cleared[i] || pixel[3] == 0 || !near_flood_at(cleared, w, h, x as i64, y as i64) {
        return pixel;
    }
    let (s0, s1, s2) = clean_samples(bitmap, cleared, x, y);
    proof {
        lemma_clean_lengths(r, c, x as int, y as int, 81);
    }
    if s0.len() < 4 {
        return pixel;
    }
    let m0 = median_u8(&s0);
    let m1 = median_u8(&s1);
    let m2 = median_u8(&s2);
    proof {
        lemma_median_named(s0@, m0);
        lemma_median_named(s1@, m1);
        lemma_median_named(s2@, m2);
    }
    let interior = [m0, m1, m2, 255];
    assert(interior@ =~= seq![m0, m1, m2, 255u8]);
    if distance(interior, background) - distance(pixel, background) > SPILL_MARGIN {
        [m0, m1, m2, pixel[3]]
    } else {
        pixel
    }
}

/// Takes the background's colour back out of the pixels along the edge of
/// what the flood kept. Every pixel is judged against the bitmap as it was,
/// so a corrected pixel is never a clean sample for the next.
pub fn despill(bitmap: &mut Bitmap, cleared: &Vec<bool>, background: [u8; 4])
    requires
        old(bitmap)@.wf(),
        cleared@.len() == old(bitmap).width * old(bitmap).height,
    ensures
        final(bitmap)@ == despilled(old(bitmap)@, cleared@, background@),
{
    let ghost r = bitmap@;
    let ghost target = despilled(r, cleared@, background@);
    let (w, h) = (bitmap.width, bitmap.height);
    let mut out = bitmap.duplicate();
    let mut y: u32 = 0;
    while y < h
        invariant
            r == bitmap@,
            r.wf(),
            out@.wf(),
            out.width == w,
            out.height == h,
            w == bitmap.width,
            h == bitmap.height,
            cleared@.len() == w * h,
            target == despilled(r, cleared@, background@),
            y <= h,
            forall|xx: int, yy: int, ch: int|
                #![trigger out@.at(xx, yy, ch)]
                0 <= xx < w && 0 <= yy < h && 0 <= ch < 4 ==> out@.at(xx, yy, ch) == (if yy < y {
                    target.at(xx, yy, ch)
                } else {
                    r.at(xx, yy, ch)
                }),
        decreases h - y,
    {
        let mut x: u32 = 0;
        while x < w
            invariant
                r == bitmap@,
                r.wf(),
                out@.wf(),
                out.width == w,
                out.height == h,
                w == bitmap.width,
                h == bitmap.height,
                cleared@.len() == w * h,
                target == despilled(r, cleared@, background@),
                y < h,
                x <= w,
                forall|xx: int, yy: int, ch: int|
                    #![trigger out@.at(xx, yy, ch)]
                    0 <= xx < w && 0 <= yy < h && 0 <= ch < 4 ==> out@.at(xx, yy, ch) == (if yy < y || (yy == y && xx
                        < x) {
                        target.at(xx, yy, ch)
                    } else {
                        r.at(xx, yy, ch)
                    }),
            decreases w - x,
        {
            let rgba = despill_pixel(bitmap, cleared, background, x, y);
            proof {
                assert forall|ch: int| 0 <= ch < 4 implies #[trigger] target.at(x as int, y as int, ch) == rgba[ch] by {
                    lemma_raster_from_at(
                        r.width,
                        r.height,
                        |x: int, y: int, ch: int| despilled_at(r, cleared@, background@, x, y, ch),
                        x as int,
                        y as int,
                        ch,
                    );
                }
            }
            out.set_pixel(x, y, rgba);
            x = x + 1;
        }
        y = y + 1;
    }
    proof {
        if w > 0 && h > 0 {
            assert(target.wf()) by {
                lemma_raster_from_at(
                    r.width,
                    r.height,
                    |x: int, y: int, ch: int| despilled_at(r, cleared@, background@, x, y, ch),
                    0,
                    0,
                    0,
                );
            }
            assert forall|xx: int, yy: int, ch: int|
                #![trigger out@.at(xx, yy, ch)]
                #![trigger target.at(xx, yy, ch)]
                out@.in_bounds(xx, yy) && 0 <= ch < 4 implies out@.at(xx, yy, ch) == target.at(xx, yy, ch) by {}
            lemma_raster_ext(out@, target);
        } else {
            assert(w as int * h as int == 0) by (nonlinear_arith)
                requires
                    w == 0 || h == 0,
            ;
            assert(out@.bytes =~= target.bytes);
        }
    }
    *bitmap = out;
}

/// Despill moves colour only, never alpha, and never touches a cleared
/// pixel: the shape was decided by the flood.
pub proof fn law_despill_keeps_the_shape(r: Raster, c: Seq<bool>, bg: Seq<u8>, x: int, y: int)
    requires
        r.wf(),
        r.in_bounds(x, y),
    ensures
        despilled(r, c, bg).alpha(x, y) == r.alpha(x, y),
        c[cell(r.width as int, x, y)] ==> despilled(r, c, bg).pixel(x, y) == r.pixel(x, y),
{
    let f = |x: int, y: int, ch: int| despilled_at(r, c, bg, x, y, ch);
    lemma_raster_from_at(r.width, r.height, f, x, y, 0);
    lemma_raster_from_at(r.width, r.height, f, x, y, 1);
    lemma_raster_from_at(r.width, r.height, f, x, y, 2);
    lemma_raster_from_at(r.width, r.height, f, x, y, 3);
    if c[cell(r.width as int, x, y)] {
        assert(despilled(r, c, bg).pixel(x, y) =~= r.pixel(x, y));
    }
}

} // verus!
