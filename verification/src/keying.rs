//! Which pixels of an image are background: the flood from the border that
//! the background cut starts with, the background it encloses, and the lone
//! pixels of noise left inside it.
//!
//! A flood rather than a colour test, because a white shirt in the middle of
//! a subject matches a white card exactly; the difference is that it is not
//! connected to the edge. How much of each boundary pixel is background is
//! graded afterwards, and not here.

use vstd::prelude::*;
use crate::bitmap::{Bitmap, Raster};
use crate::crumbs::{crumbs_swept, remove_crumbs};
use crate::matte::{colour_distance, distance, near, soft_for, soft_of, MIN_TOLERANCE, SOFT_TOLERANCE};
use crate::regions::{
    adjacent, cell, grid, lemma_cell, lemma_cell_injective, lemma_grid_finite, lemma_mirror_insert, mirrors,
    neighbour, stacked, step_to,
};

verus! {

/// How far one step of the flood may move in colour when it follows a smooth
/// gradient rather than matching the background.
pub const LOCAL_STEP: i32 = 14;

/// How far from the background colour a gradient may lead the flood.
pub const MAX_DRIFT: i32 = 96;

/// The most a pixel's neighbourhood may vary for the flood to follow a
/// gradient through it: detail stops it.
pub const SMOOTH_ENOUGH: i32 = 34;

pub open spec fn clamped_to(v: int, hi: int) -> int {
    if v < 0 { 0 } else if v > hi { hi } else { v }
}

/// The `k`-th pixel of the 3 by 3 neighbourhood of `p`, row by row, with the
/// edge of the image repeated beyond it.
pub open spec fn around(r: Raster, p: (int, int), k: int) -> (int, int) {
    (clamped_to(p.0 + k % 3 - 1, r.width - 1), clamped_to(p.1 + k / 3 - 1, r.height - 1))
}

/// The highest value of channel `c` among the first `k` neighbourhood pixels,
/// or zero.
pub open spec fn hi_upto(r: Raster, p: (int, int), c: int, k: int) -> int
    decreases k,
{
    if k <= 0 {
        0
    } else {
        let v = r.at(around(r, p, k - 1).0, around(r, p, k - 1).1, c) as int;
        let prev = hi_upto(r, p, c, k - 1);
        if v > prev { v } else { prev }
    }
}

/// The lowest value of channel `c` among the first `k` neighbourhood pixels,
/// or 255.
pub open spec fn lo_upto(r: Raster, p: (int, int), c: int, k: int) -> int
    decreases k,
{
    if k <= 0 {
        255
    } else {
        let v = r.at(around(r, p, k - 1).0, around(r, p, k - 1).1, c) as int;
        let prev = lo_upto(r, p, c, k - 1);
        if v < prev { v } else { prev }
    }
}

/// How much the neighbourhood of `p` varies: the largest per-channel spread
/// across its nine pixels.
pub open spec fn contrast(r: Raster, p: (int, int)) -> int {
    let s0 = hi_upto(r, p, 0, 9) - lo_upto(r, p, 0, 9);
    let s1 = hi_upto(r, p, 1, 9) - lo_upto(r, p, 1, 9);
    let s2 = hi_upto(r, p, 2, 9) - lo_upto(r, p, 2, 9);
    if s0 >= s1 && s0 >= s2 { s0 } else if s1 >= s2 { s1 } else { s2 }
}

proof fn lemma_upto_bounds(r: Raster, p: (int, int), c: int, k: int)
    ensures
        0 <= hi_upto(r, p, c, k) <= 255,
        0 <= lo_upto(r, p, c, k) <= 255,
    decreases k,
{
    if k > 0 {
        lemma_upto_bounds(r, p, c, k - 1);
    }
}

/// The highest and lowest value of channel `c` across the neighbourhood.
fn channel_spread(bitmap: &Bitmap, x: u32, y: u32, c: usize) -> (out: (i32, i32))
    requires
        bitmap@.wf(),
        x < bitmap.width,
        y < bitmap.height,
        c < 3,
    ensures
        out.0 == hi_upto(bitmap@, (x as int, y as int), c as int, 9),
        out.1 == lo_upto(bitmap@, (x as int, y as int), c as int, 9),
        0 <= out.0 <= 255,
        0 <= out.1 <= 255,
{
    let ghost r = bitmap@;
    let ghost p = (x as int, y as int);
    let mut lo: i32 = 255;
    let mut hi: i32 = 0;
    let mut k: u32 = 0;
    while k < 9
        invariant
            r == bitmap@,
            r.wf(),
            x < bitmap.width,
            y < bitmap.height,
            c < 3,
            k <= 9,
            p == (x as int, y as int),
            hi == hi_upto(r, p, c as int, k as int),
            lo == lo_upto(r, p, c as int, k as int),
        decreases 9 - k,
    {
        let dx: i64 = (k % 3) as i64 - 1;
        let dy: i64 = (k / 3) as i64 - 1;
        assert(dx == (k as int) % 3 - 1);
        assert(dy == (k as int) / 3 - 1);
        let mut sx: i64 = x as i64 + dx;
        if sx < 0 {
            sx = 0;
        }
        if sx > bitmap.width as i64 - 1 {
            sx = bitmap.width as i64 - 1;
        }
        let mut sy: i64 = y as i64 + dy;
        if sy < 0 {
            sy = 0;
        }
        if sy > bitmap.height as i64 - 1 {
            sy = bitmap.height as i64 - 1;
        }
        assert(sx == around(r, p, k as int).0);
        assert(sy == around(r, p, k as int).1);
        let px = bitmap.pixel(sx as u32, sy as u32);
        let v = px[c] as i32;
        assert(v == r.at(around(r, p, k as int).0, around(r, p, k as int).1, c as int));
        if v < lo {
            lo = v;
        }
        if v > hi {
            hi = v;
        }
        k = k + 1;
    }
    proof {
        lemma_upto_bounds(r, p, c as int, 9);
    }
    (hi, lo)
}

/// How much the 3 by 3 neighbourhood of a pixel varies, as the largest
/// per-channel spread across it; the edge of the image is repeated, so the
/// border is never mistaken for texture.
pub fn local_contrast(bitmap: &Bitmap, x: u32, y: u32) -> (out: i32)
    requires
        bitmap@.wf(),
        x < bitmap.width,
        y < bitmap.height,
    ensures
        out == contrast(bitmap@, (x as int, y as int)),
{
    let (h0, l0) = channel_spread(bitmap, x, y, 0);
    let (h1, l1) = channel_spread(bitmap, x, y, 1);
    let (h2, l2) = channel_spread(bitmap, x, y, 2);
    let s0 = h0 - l0;
    let s1 = h1 - l1;
    let s2 = h2 - l2;
    if s0 >= s1 && s0 >= s2 {
        s0
    } else if s1 >= s2 {
        s1
    } else {
        s2
    }
}

} // verus!

verus! {

/// A pixel that is background outright: nearly clear, or within the
/// tolerance of the background colour.
pub open spec fn keyable(pixel: Seq<u8>, bg: Seq<u8>, tolerance: int) -> bool {
    pixel[3] < 16 || colour_distance(pixel, bg) <= tolerance
}

/// The pixel that entry `i` of a row-major mask of width `w` stands for.
pub open spec fn pixel_of(w: int, i: int) -> (int, int) {
    (i % w, i / w)
}

pub(crate) proof fn lemma_pixel_of(w: int, h: int, i: int)
    requires
        w >= 0,
        0 <= i < w * h,
    ensures
        w > 0,
        0 <= pixel_of(w, i).0 < w,
        0 <= pixel_of(w, i).1 < h,
        cell(w, pixel_of(w, i).0, pixel_of(w, i).1) == i,
{
    if w == 0 {
        assert(w * h == 0);
    }
    vstd::arithmetic::div_mod::lemma_fundamental_div_mod(i, w);
    let (x, y) = pixel_of(w, i);
    assert(0 <= y < h) by (nonlinear_arith)
        requires
            0 <= i < w * h,
            w > 0,
            i == w * y + x,
            0 <= x < w,
    ;
}

/// The pixel of entry `i`, computed.
pub(crate) fn locate(i: usize, w: u32, h: u32) -> (p: (u32, u32))
    requires
        i < w * h,
    ensures
        p.0 < w,
        p.1 < h,
        (p.0 as int, p.1 as int) == pixel_of(w as int, i as int),
        cell(w as int, p.0 as int, p.1 as int) == i,
{
    proof {
        lemma_pixel_of(w as int, h as int, i as int);
    }
    let x = i % (w as usize);
    let y = i / (w as usize);
    (x as u32, y as u32)
}

/// The flood may step from `a` into `b`: `b` is background (nearly clear, or
/// within the tolerance of the background colour), or it continues smoothly
/// from `a` (a small step in colour, not too far from the background, in a
/// neighbourhood without detail). The second is what lets a gradient or a
/// blurred backdrop come off whole while a subject edge still stops it.
pub open spec fn joins(r: Raster, a: (int, int), b: (int, int), bg: Seq<u8>, tolerance: int) -> bool {
    let pb = r.pixel(b.0, b.1);
    let pa = r.pixel(a.0, a.1);
    keyable(pb, bg, tolerance) || (colour_distance(pb, pa) <= LOCAL_STEP
        && colour_distance(pb, bg) <= MAX_DRIFT && contrast(r, b) <= SMOOTH_ENOUGH)
}

/// `p` lies on the canvas and the flood may enter it.
pub open spec fn open_at(blocked: Seq<bool>, w: int, h: int, p: (int, int)) -> bool {
    0 <= p.0 < w && 0 <= p.1 < h && !blocked[cell(w, p.0, p.1)]
}

/// A path the flood can take: every pixel open, every step to an edge
/// neighbour it may step into.
pub open spec fn flood_walk(r: Raster, bg: Seq<u8>, tolerance: int, blocked: Seq<bool>, path: Seq<(int, int)>) -> bool {
    &&& path.len() >= 1
    &&& forall|i: int| 0 <= i < path.len() ==> open_at(blocked, r.width as int, r.height as int, #[trigger] path[i])
    &&& forall|i: int|
        0 <= i < path.len() - 1 ==> adjacent(#[trigger] path[i], path[i + 1]) && joins(r, path[i], path[i + 1], bg, tolerance)
}

/// A flood path from a seed to `q`.
pub open spec fn flood_path(
    r: Raster,
    bg: Seq<u8>,
    tolerance: int,
    blocked: Seq<bool>,
    seeds: Seq<bool>,
    path: Seq<(int, int)>,
    q: (int, int),
) -> bool {
    flood_walk(r, bg, tolerance, blocked, path) && seeds[cell(r.width as int, path[0].0, path[0].1)] && path.last() == q
}

/// The flood reaches `q` from one of the seeds.
pub open spec fn flooded(r: Raster, bg: Seq<u8>, tolerance: int, blocked: Seq<bool>, seeds: Seq<bool>, q: (int, int)) -> bool {
    exists|path: Seq<(int, int)>| #[trigger] flood_path(r, bg, tolerance, blocked, seeds, path, q)
}

/// Every pixel the flood may step into from `a` is in `m`.
pub open spec fn closed_key(r: Raster, bg: Seq<u8>, tolerance: int, blocked: Seq<bool>, a: (int, int), m: Set<(int, int)>) -> bool {
    forall|b: (int, int)|
        #[trigger] adjacent(a, b) && open_at(blocked, r.width as int, r.height as int, b) && joins(r, a, b, bg, tolerance)
            ==> m.contains(b)
}

proof fn lemma_flood_extend(
    r: Raster,
    bg: Seq<u8>,
    tolerance: int,
    blocked: Seq<bool>,
    seeds: Seq<bool>,
    a: (int, int),
    b: (int, int),
)
    requires
        flooded(r, bg, tolerance, blocked, seeds, a),
        adjacent(a, b),
        open_at(blocked, r.width as int, r.height as int, b),
        joins(r, a, b, bg, tolerance),
    ensures
        flooded(r, bg, tolerance, blocked, seeds, b),
{
    let path = choose|path: Seq<(int, int)>| #[trigger] flood_path(r, bg, tolerance, blocked, seeds, path, a);
    let longer = path.push(b);
    assert forall|i: int| 0 <= i < longer.len() implies open_at(blocked, r.width as int, r.height as int, #[trigger] longer[i]) by {
        if i < path.len() {
            assert(longer[i] == path[i]);
        }
    }
    assert forall|i: int| 0 <= i < longer.len() - 1 implies adjacent(#[trigger] longer[i], longer[i + 1]) && joins(
        r,
        longer[i],
        longer[i + 1],
        bg,
        tolerance,
    ) by {
        assert(longer[i] == path[i]);
        if i + 1 < path.len() {
            assert(longer[i + 1] == path[i + 1]);
        }
    }
    assert(flood_path(r, bg, tolerance, blocked, seeds, longer, b));
}

proof fn lemma_flood_seed(r: Raster, bg: Seq<u8>, tolerance: int, blocked: Seq<bool>, seeds: Seq<bool>, s: (int, int))
    requires
        open_at(blocked, r.width as int, r.height as int, s),
        seeds[cell(r.width as int, s.0, s.1)],
    ensures
        flooded(r, bg, tolerance, blocked, seeds, s),
{
    let path = seq![s];
    assert(flood_path(r, bg, tolerance, blocked, seeds, path, s));
}

proof fn lemma_flood_closed(
    r: Raster,
    bg: Seq<u8>,
    tolerance: int,
    blocked: Seq<bool>,
    seeds: Seq<bool>,
    m: Set<(int, int)>,
    path: Seq<(int, int)>,
    i: int,
)
    requires
        flood_walk(r, bg, tolerance, blocked, path),
        m.contains(path[0]),
        forall|a: (int, int)| #[trigger] m.contains(a) ==> closed_key(r, bg, tolerance, blocked, a, m),
        0 <= i < path.len(),
    ensures
        m.contains(path[i]),
    decreases i,
{
    if i > 0 {
        lemma_flood_closed(r, bg, tolerance, blocked, seeds, m, path, i - 1);
        assert(closed_key(r, bg, tolerance, blocked, path[i - 1], m));
        assert(adjacent(path[i - 1], path[i]));
        assert(open_at(blocked, r.width as int, r.height as int, path[i]));
    }
}

/// Whether the flood may step from `(ax, ay)` into `(bx, by)`.
fn may_join(bitmap: &Bitmap, ax: u32, ay: u32, bx: u32, by: u32, background: [u8; 4], tolerance: i32) -> (b: bool)
    requires
        bitmap@.wf(),
        ax < bitmap.width,
        ay < bitmap.height,
        bx < bitmap.width,
        by < bitmap.height,
    ensures
        b == joins(bitmap@, (ax as int, ay as int), (bx as int, by as int), background@, tolerance as int),
{
    let pixel = bitmap.pixel(bx, by);
    if near(pixel, background, tolerance) {
        return true;
    }
    let here = bitmap.pixel(ax, ay);
    distance(pixel, here) <= LOCAL_STEP && distance(pixel, background) <= MAX_DRIFT && local_contrast(bitmap, bx, by)
        <= SMOOTH_ENOUGH
}

/// Marks `(bx, by)` and pushes it when the flood may step there from
/// `(ax, ay)` and it is not yet marked.
fn visit_key(
    bitmap: &Bitmap,
    background: [u8; 4],
    tolerance: i32,
    blocked: &Vec<bool>,
    out: &mut Vec<bool>,
    stack: &mut Vec<(u32, u32)>,
    ax: u32,
    ay: u32,
    bx: u32,
    by: u32,
) -> (added: bool)
    requires
        bitmap@.wf(),
        ax < bitmap.width,
        ay < bitmap.height,
        bx < bitmap.width,
        by < bitmap.height,
        blocked@.len() == bitmap.width * bitmap.height,
        old(out)@.len() == bitmap.width * bitmap.height,
    ensures
        added == (open_at(blocked@, bitmap.width as int, bitmap.height as int, (bx as int, by as int)) && joins(
            bitmap@,
            (ax as int, ay as int),
            (bx as int, by as int),
            background@,
            tolerance as int,
        ) && !old(out)@[cell(bitmap.width as int, bx as int, by as int)]),
        added ==> final(out)@ == old(out)@.update(cell(bitmap.width as int, bx as int, by as int), true),
        added ==> final(stack)@ == old(stack)@.push((bx, by)),
        !added ==> final(out)@ == old(out)@ && final(stack)@ == old(stack)@,
{
    proof {
        lemma_cell(bitmap.width as int, bitmap.height as int, bx as int, by as int);
    }
    let n = out.len();
    assert((by as int) * (bitmap.width as int) <= cell(bitmap.width as int, bx as int, by as int));
    let i = (by as usize) * (bitmap.width as usize) + (bx as usize);
    if !out[i] && !blocked[i] && may_join(bitmap, ax, ay, bx, by, background, tolerance) {
        out.set(i, true);
        stack.push((bx, by));
        true
    } else {
        false
    }
}

/// Every pixel the flood reaches: from the open seeds, through open pixels,
/// each step one the flood may take. Which order the pixels are visited in
/// makes no difference to which are reached.
fn spread(bitmap: &Bitmap, background: [u8; 4], tolerance: i32, blocked: &Vec<bool>, seeds: &Vec<bool>) -> (out: Vec<bool>)
    requires
        bitmap@.wf(),
        blocked@.len() == bitmap.width * bitmap.height,
        seeds@.len() == bitmap.width * bitmap.height,
    ensures
        out@.len() == bitmap.width * bitmap.height,
        mirrors(
            out@,
            bitmap.width as int,
            bitmap.height as int,
            Set::new(|q: (int, int)| flooded(bitmap@, background@, tolerance as int, blocked@, seeds@, q)),
        ),
{
    let ghost r = bitmap@;
    let ghost bg = background@;
    let ghost tol = tolerance as int;
    let ghost w = bitmap.width as int;
    let ghost h = bitmap.height as int;
    let (bw, bh) = (bitmap.width, bitmap.height);
    let n = blocked.len();
    let mut out: Vec<bool> = vec![false; n];
    let mut stack: Vec<(u32, u32)> = Vec::new();
    let ghost mut m: Set<(int, int)> = Set::empty();
    proof {
        lemma_grid_finite(w, h);
        assert forall|px: int, py: int| 0 <= px < w && 0 <= py < h implies #[trigger] out@[cell(w, px, py)] == m.contains((px, py)) by {
            lemma_cell(w, h, px, py);
        }
    }
    let mut i: usize = 0;
    while i < n
        invariant
            r == bitmap@,
            bg == background@,
            tol == tolerance as int,
            r.wf(),
            w == bitmap.width,
            h == bitmap.height,
            bw == bitmap.width,
            bh == bitmap.height,
            n == w * h,
            blocked@.len() == n,
            seeds@.len() == n,
            i <= n,
            grid(w, h).finite(),
            out@.len() == n,
            mirrors(out@, w, h, m),
            m.finite(),
            m.subset_of(grid(w, h)),
            stack@.len() == m.len(),
            forall|q: (int, int)| #[trigger] m.contains(q) ==> flooded(r, bg, tol, blocked@, seeds@, q),
            forall|q: (int, int)| #[trigger] m.contains(q) ==> stacked(stack@, q),
            forall|j: int|
                0 <= j < stack@.len() ==> (#[trigger] stack@[j]).0 < w && stack@[j].1 < h && m.contains(
                    (stack@[j].0 as int, stack@[j].1 as int),
                ),
            forall|px: int, py: int|
                0 <= px < w && 0 <= py < h && cell(w, px, py) < i && #[trigger] seeds@[cell(w, px, py)] && !blocked@[cell(w, px, py)]
                    ==> m.contains((px, py)),
        decreases n - i,
    {
        let (x, y) = locate(i, bw, bh);
        if seeds[i] && !blocked[i] && !out[i] {
            let ghost before = m;
            let ghost stack0 = stack@;
            let ghost out0 = out@;
            out.set(i, true);
            stack.push((x, y));
            proof {
                lemma_mirror_insert(out0, w, h, before, x as int, y as int);
                m = before.insert((x as int, y as int));
                lemma_flood_seed(r, bg, tol, blocked@, seeds@, (x as int, y as int));
                assert forall|q: (int, int)| #[trigger] m.contains(q) implies stacked(stack@, q) by {
                    if q == (x as int, y as int) {
                        assert(stack@[stack@.len() - 1] == (x, y));
                    } else {
                        let j = choose|j: int| 0 <= j < stack0.len() && (#[trigger] stack0[j]).0 as int == q.0 && stack0[j].1 as int == q.1;
                        assert(stack@[j] == stack0[j]);
                    }
                }
                assert forall|j: int| 0 <= j < stack@.len() implies (#[trigger] stack@[j]).0 < w && stack@[j].1 < h && m.contains(
                    (stack@[j].0 as int, stack@[j].1 as int),
                ) by {
                    if j < stack0.len() {
                        assert(stack@[j] == stack0[j]);
                    }
                }
            }
        }
        proof {
            assert forall|px: int, py: int|
                0 <= px < w && 0 <= py < h && cell(w, px, py) < i + 1 && #[trigger] seeds@[cell(w, px, py)] && !blocked@[cell(w, px, py)]
                implies m.contains((px, py)) by {
                if cell(w, px, py) == i {
                    lemma_cell_injective(w, h, px, py, x as int, y as int);
                }
            }
        }
        i = i + 1;
    }
    proof {
        assert forall|a: (int, int)| #[trigger] m.contains(a) implies stacked(stack@, a) || closed_key(
            r,
            bg,
            tol,
            blocked@,
            a,
            m,
        ) by {}
        assert forall|px: int, py: int|
            0 <= px < w && 0 <= py < h && #[trigger] seeds@[cell(w, px, py)] && !blocked@[cell(w, px, py)] implies m.contains(
            (px, py),
        ) by {
            lemma_cell(w, h, px, py);
        }
    }
    while stack.len() > 0
        invariant
            r == bitmap@,
            bg == background@,
            tol == tolerance as int,
            r.wf(),
            w == bitmap.width,
            h == bitmap.height,
            bw == bitmap.width,
            bh == bitmap.height,
            n == w * h,
            blocked@.len() == n,
            seeds@.len() == n,
            grid(w, h).finite(),
            out@.len() == n,
            mirrors(out@, w, h, m),
            m.finite(),
            m.subset_of(grid(w, h)),
            forall|q: (int, int)| #[trigger] m.contains(q) ==> flooded(r, bg, tol, blocked@, seeds@, q),
            forall|j: int|
                0 <= j < stack@.len() ==> (#[trigger] stack@[j]).0 < w && stack@[j].1 < h && m.contains(
                    (stack@[j].0 as int, stack@[j].1 as int),
                ),
            forall|px: int, py: int|
                0 <= px < w && 0 <= py < h && #[trigger] seeds@[cell(w, px, py)] && !blocked@[cell(w, px, py)]
                    ==> m.contains((px, py)),
            forall|a: (int, int)| #[trigger] m.contains(a) ==> stacked(stack@, a) || closed_key(r, bg, tol, blocked@, a, m),
        decreases stack@.len() + 5 * grid(w, h).difference(m).len(),
    {
        let ghost stack0 = stack@;
        let ghost m0 = m;
        let ghost measure0 = stack@.len() + 5 * grid(w, h).difference(m).len();
        let top = stack.pop();
        let (cx, cy) = match top {
            Some(t) => t,
            None => (0, 0),
        };
        let ghost a = (cx as int, cy as int);
        let ghost popped = stack@;
        proof {
            assert(stack0[stack0.len() - 1] == (cx, cy));
            assert(m.contains(a));
        }
        let mut d: u32 = 0;
        while d < 4
            invariant
                r == bitmap@,
                bg == background@,
                tol == tolerance as int,
            bg == background@,
            tol == tolerance as int,
                r.wf(),
                w == bitmap.width,
                h == bitmap.height,
                bw == bitmap.width,
                bh == bitmap.height,
                n == w * h,
                blocked@.len() == n,
                seeds@.len() == n,
                cx < w,
                cy < h,
                a == (cx as int, cy as int),
                d <= 4,
                grid(w, h).finite(),
                out@.len() == n,
                mirrors(out@, w, h, m),
                m.finite(),
                m.subset_of(grid(w, h)),
                m0.subset_of(m),
                m.contains(a),
                stack@.len() >= popped.len(),
                stack@.take(popped.len() as int) == popped,
                stack@.len() + 5 * grid(w, h).difference(m).len() < measure0,
                forall|q: (int, int)| #[trigger] m.contains(q) ==> flooded(r, bg, tol, blocked@, seeds@, q),
                forall|j: int|
                    0 <= j < stack@.len() ==> (#[trigger] stack@[j]).0 < w && stack@[j].1 < h && m.contains(
                        (stack@[j].0 as int, stack@[j].1 as int),
                    ),
                forall|q: (int, int)| #[trigger] m.contains(q) && !m0.contains(q) ==> stacked(stack@, q),
                forall|e: int|
                    0 <= e < d ==> {
                        let nb = neighbour(a.0, a.1, e);
                        (open_at(blocked@, w, h, nb) && joins(r, a, nb, bg, tol)) ==> #[trigger] m.contains(
                            neighbour(a.0, a.1, e),
                        )
                    },
            decreases 4 - d,
        {
            let next = step_to(cx, cy, d, bw, bh);
            match next {
                Some((nx, ny)) => {
                    let ghost out1 = out@;
                    let ghost stack1 = stack@;
                    let ghost m1 = m;
                    let ghost nb = (nx as int, ny as int);
                    let added = visit_key(bitmap, background, tolerance, blocked, &mut out, &mut stack, cx, cy, nx, ny);
                    proof {
                        lemma_cell(w, h, nb.0, nb.1);
                        if added {
                            lemma_mirror_insert(out1, w, h, m1, nb.0, nb.1);
                            m = m1.insert(nb);
                            assert(!m1.contains(nb));
                            assert(grid(w, h).contains(nb));
                            grid(w, h).lemma_set_insert_diff_decreases(m1, nb);
                            assert(adjacent(a, nb));
                            lemma_flood_extend(r, bg, tol, blocked@, seeds@, a, nb);
                            assert(stack@[stack@.len() - 1] == (nx, ny));
                            assert forall|j: int| 0 <= j < stack@.len() implies (#[trigger] stack@[j]).0 < w && stack@[j].1 < h
                                && m.contains((stack@[j].0 as int, stack@[j].1 as int)) by {
                                if j < stack1.len() {
                                    assert(stack@[j] == stack1[j]);
                                }
                            }
                            assert forall|q: (int, int)| #[trigger] m.contains(q) && !m0.contains(q) implies stacked(stack@, q) by {
                                if q == nb {
                                    assert(stack@[stack@.len() - 1].0 as int == q.0 && stack@[stack@.len() - 1].1 as int == q.1);
                                } else {
                                    assert(stacked(stack1, q));
                                    let j = choose|j: int| 0 <= j < stack1.len() && (#[trigger] stack1[j]).0 as int == q.0 && stack1[j].1 as int == q.1;
                                    assert(stack@[j] == stack1[j]);
                                }
                            }
                            assert(stack@.take(popped.len() as int) =~= stack1.take(popped.len() as int));
                        } else {
                            assert(out1[cell(w, nb.0, nb.1)] || !open_at(blocked@, w, h, nb) || !joins(r, a, nb, bg, tol));
                        }
                        assert forall|e: int| 0 <= e < d + 1 implies {
                            let nbe = neighbour(a.0, a.1, e);
                            (open_at(blocked@, w, h, nbe) && joins(r, a, nbe, bg, tol)) ==> #[trigger] m.contains(
                                neighbour(a.0, a.1, e),
                            )
                        } by {
                            let nbe = neighbour(a.0, a.1, e);
                            if e < d && open_at(blocked@, w, h, nbe) && joins(r, a, nbe, bg, tol) {
                                assert(m1.contains(nbe));
                            }
                        }
                    }
                }
                None => {}
            }
            d = d + 1;
        }
        proof {
            assert(closed_key(r, bg, tol, blocked@, a, m)) by {
                assert forall|b: (int, int)|
                    #[trigger] adjacent(a, b) && open_at(blocked@, w, h, b) && joins(r, a, b, bg, tol) implies m.contains(b) by {
                    if b == neighbour(a.0, a.1, 0) {
                    } else if b == neighbour(a.0, a.1, 1) {
                    } else if b == neighbour(a.0, a.1, 2) {
                    } else {
                        assert(b == neighbour(a.0, a.1, 3));
                    }
                }
            }
            assert forall|c: (int, int)| #[trigger] m.contains(c) implies stacked(stack@, c) || closed_key(
                r,
                bg,
                tol,
                blocked@,
                c,
                m,
            ) by {
                if !m0.contains(c) {
                } else if c == a {
                } else if stacked(stack0, c) {
                    let j = choose|j: int| 0 <= j < stack0.len() && (#[trigger] stack0[j]).0 as int == c.0 && stack0[j].1 as int == c.1;
                    assert(j < stack0.len() - 1);
                    assert(popped[j] == stack0[j]);
                    assert(stack@.take(popped.len() as int)[j] == popped[j]);
                    assert(stack@[j] == stack0[j]);
                } else {
                    assert(closed_key(r, bg, tol, blocked@, c, m0));
                    assert forall|b: (int, int)|
                        #[trigger] adjacent(c, b) && open_at(blocked@, w, h, b) && joins(r, c, b, bg, tol) implies m.contains(b) by {
                        assert(m0.contains(b));
                    }
                }
            }
        }
    }
    proof {
        assert forall|q: (int, int)| m.contains(q) <==> flooded(r, bg, tol, blocked@, seeds@, q) by {
            if flooded(r, bg, tol, blocked@, seeds@, q) {
                let path = choose|path: Seq<(int, int)>| #[trigger] flood_path(r, bg, tol, blocked@, seeds@, path, q);
                assert(open_at(blocked@, w, h, path[0]));
                assert forall|a: (int, int)| #[trigger] m.contains(a) implies closed_key(r, bg, tol, blocked@, a, m) by {
                    assert(!stacked(stack@, a));
                }
                lemma_flood_closed(r, bg, tol, blocked@, seeds@, m, path, path.len() - 1);
            }
        }
        assert(m =~= Set::new(|q: (int, int)| flooded(r, bg, tol, blocked@, seeds@, q)));
    }
    out
}

} // verus!

verus! {

/// Whether `p` lies on the outermost ring of the image.
pub open spec fn on_edge(r: Raster, p: (int, int)) -> bool {
    p.0 == 0 || p.1 == 0 || p.0 == r.width - 1 || p.1 == r.height - 1
}

/// Where the edge flood starts: the pixels of the outer ring that are
/// background outright.
pub open spec fn edge_seeds(r: Raster, bg: Seq<u8>, tolerance: int) -> Seq<bool> {
    Seq::new(
        r.width * r.height,
        |i: int|
            {
                let p = pixel_of(r.width as int, i);
                on_edge(r, p) && keyable(r.pixel(p.0, p.1), bg, tolerance)
            },
    )
}

/// No pixel kept out of a flood.
pub open spec fn nothing_blocked(r: Raster) -> Seq<bool> {
    Seq::new(r.width * r.height, |i: int| false)
}

/// The background connected to the edge: every pixel the flood reaches from
/// the background pixels of the outer ring.
pub open spec fn edge_mask(r: Raster, bg: Seq<u8>, tolerance: int) -> Seq<bool> {
    Seq::new(
        r.width * r.height,
        |i: int| flooded(r, bg, tolerance, nothing_blocked(r), edge_seeds(r, bg, tolerance), pixel_of(r.width as int, i)),
    )
}

/// Where the search for enclosed background starts: every pixel not yet
/// cleared whose colour is within the tolerance of the background, however
/// clear it is.
pub open spec fn enclosed_seeds(r: Raster, bg: Seq<u8>, tolerance: int, cleared: Seq<bool>) -> Seq<bool> {
    Seq::new(
        cleared.len(),
        |i: int|
            {
                let p = pixel_of(r.width as int, i);
                !cleared[i] && colour_distance(r.pixel(p.0, p.1), bg) <= tolerance
            },
    )
}

/// The cleared pixels, together with every pixel the flood reaches from a
/// background-coloured pixel without crossing a cleared one.
pub open spec fn enclosed_mask(r: Raster, bg: Seq<u8>, tolerance: int, cleared: Seq<bool>) -> Seq<bool> {
    Seq::new(
        cleared.len(),
        |i: int|
            cleared[i] || flooded(r, bg, tolerance, cleared, enclosed_seeds(r, bg, tolerance, cleared), pixel_of(r.width as int, i)),
    )
}

/// A kept pixel away from the edge whose four edge neighbours are all cleared.
pub open spec fn lone(c: Seq<bool>, w: int, h: int, p: (int, int)) -> bool {
    let (x, y) = p;
    &&& 1 <= x < w - 1
    &&& 1 <= y < h - 1
    &&& !c[cell(w, x, y)]
    &&& c[cell(w, x, y - 1)]
    &&& c[cell(w, x, y + 1)]
    &&& c[cell(w, x - 1, y)]
    &&& c[cell(w, x + 1, y)]
}

/// The cleared pixels, together with every lone kept pixel among them.
pub open spec fn despeckled(c: Seq<bool>, w: int, h: int) -> Seq<bool> {
    Seq::new(c.len(), |i: int| c[i] || lone(c, w, h, pixel_of(w, i)))
}

/// The number of pixels of a well-formed bitmap, computed.
fn pixel_count(bitmap: &Bitmap) -> (n: usize)
    requires
        bitmap@.wf(),
    ensures
        n == bitmap.width * bitmap.height,
{
    let (w, h) = (bitmap.width, bitmap.height);
    let plen = bitmap.pixels.len();
    assert((w as int) * (h as int) <= plen) by (nonlinear_arith)
        requires
            plen == (w as int) * (h as int) * 4,
    ;
    (w as usize) * (h as usize)
}

/// Marks the background connected to the edge of the image: a flood from
/// every background pixel of the outer ring, through every pixel it may step
/// into. A white shirt in the middle of the subject matches a white card
/// exactly; it stays because the flood cannot reach it.
pub fn edge_flood(bitmap: &Bitmap, background: [u8; 4], tolerance: i32) -> (cleared: Vec<bool>)
    requires
        bitmap@.wf(),
    ensures
        cleared@ == edge_mask(bitmap@, background@, tolerance as int),
{
    let ghost r = bitmap@;
    let ghost w = bitmap.width as int;
    let ghost h = bitmap.height as int;
    let (bw, bh) = (bitmap.width, bitmap.height);
    let n = pixel_count(bitmap);
    let blocked: Vec<bool> = vec![false; n];
    let mut seeds: Vec<bool> = Vec::new();
    let mut i: usize = 0;
    while i < n
        invariant
            r == bitmap@,
            r.wf(),
            bw == bitmap.width,
            bh == bitmap.height,
            w == bw,
            h == bh,
            n == w * h,
            i <= n,
            seeds@.len() == i,
            forall|j: int| 0 <= j < i ==> seeds@[j] == #[trigger] edge_seeds(r, background@, tolerance as int)[j],
        decreases n - i,
    {
        let (x, y) = locate(i, bw, bh);
        let edge = x == 0 || y == 0 || x == bw - 1 || y == bh - 1;
        let seed = edge && near(bitmap.pixel(x, y), background, tolerance);
        seeds.push(seed);
        i = i + 1;
    }
    proof {
        assert(seeds@ =~= edge_seeds(r, background@, tolerance as int));
        assert(blocked@ =~= nothing_blocked(r));
    }
    let reached = spread(bitmap, background, tolerance, &blocked, &seeds);
    proof {
        assert forall|j: int| 0 <= j < n implies reached@[j] == #[trigger] edge_mask(r, background@, tolerance as int)[j] by {
            lemma_pixel_of(w, h, j);
        }
        assert(reached@ =~= edge_mask(r, background@, tolerance as int));
    }
    reached
}

/// Clears the background the edge flood cannot reach: the hole in an O, the
/// gap between two fingers. From every kept pixel that is the background
/// colour, the flood takes in whatever it may step into without crossing a
/// cleared pixel; all of that is cleared. Which order the regions are found
/// in makes no difference to what is cleared.
pub fn enclose_background(bitmap: &Bitmap, background: [u8; 4], cleared: &mut Vec<bool>, tolerance: i32)
    requires
        bitmap@.wf(),
        old(cleared)@.len() == bitmap.width * bitmap.height,
    ensures
        final(cleared)@ == enclosed_mask(bitmap@, background@, tolerance as int, old(cleared)@),
{
    let ghost r = bitmap@;
    let ghost w = bitmap.width as int;
    let ghost h = bitmap.height as int;
    let ghost before = cleared@;
    let (bw, bh) = (bitmap.width, bitmap.height);
    let n = pixel_count(bitmap);
    let mut seeds: Vec<bool> = Vec::new();
    let mut i: usize = 0;
    while i < n
        invariant
            r == bitmap@,
            r.wf(),
            bw == bitmap.width,
            bh == bitmap.height,
            w == bw,
            h == bh,
            n == w * h,
            cleared@ == before,
            before.len() == n,
            i <= n,
            seeds@.len() == i,
            forall|j: int| 0 <= j < i ==> seeds@[j] == #[trigger] enclosed_seeds(r, background@, tolerance as int, before)[j],
        decreases n - i,
    {
        let (x, y) = locate(i, bw, bh);
        let seed = !cleared[i] && distance(bitmap.pixel(x, y), background) <= tolerance;
        seeds.push(seed);
        i = i + 1;
    }
    proof {
        assert(seeds@ =~= enclosed_seeds(r, background@, tolerance as int, before));
    }
    let reached = spread(bitmap, background, tolerance, cleared, &seeds);
    let mut k: usize = 0;
    while k < n
        invariant
            r == bitmap@,
            r.wf(),
            bw == bitmap.width,
            bh == bitmap.height,
            w == bw,
            h == bh,
            n == w * h,
            before.len() == n,
            reached@.len() == n,
            k <= n,
            cleared@.len() == n,
            mirrors(
                reached@,
                w,
                h,
                Set::new(|q: (int, int)| flooded(r, background@, tolerance as int, before, enclosed_seeds(r, background@, tolerance as int, before), q)),
            ),
            forall|j: int| k <= j < n ==> cleared@[j] == before[j],
            forall|j: int| 0 <= j < k ==> cleared@[j] == #[trigger] enclosed_mask(r, background@, tolerance as int, before)[j],
        decreases n - k,
    {
        if reached[k] {
            cleared.set(k, true);
        }
        proof {
            let kk = k as int;
            lemma_pixel_of(w, h, kk);
            let p = pixel_of(w, kk);
            assert(reached@[cell(w, p.0, p.1)] == flooded(
                r,
                background@,
                tolerance as int,
                before,
                enclosed_seeds(r, background@, tolerance as int, before),
                p,
            ));
        }
        k = k + 1;
    }
    proof {
        assert(cleared@ =~= enclosed_mask(r, background@, tolerance as int, before));
    }
}

/// Clears the lone kept pixels stranded inside the background: each one away
/// from the edge whose four edge neighbours are all cleared. They are found
/// before any is cleared, so two neighbours never decide each other.
pub fn despeckle(cleared: &mut Vec<bool>, w: u32, h: u32)
    requires
        old(cleared)@.len() == w * h,
    ensures
        final(cleared)@ == despeckled(old(cleared)@, w as int, h as int),
{
    let ghost before = cleared@;
    let n = cleared.len();
    let mut next: Vec<bool> = Vec::new();
    let mut i: usize = 0;
    while i < n
        invariant
            cleared@ == before,
            n == before.len(),
            n == w * h,
            i <= n,
            next@.len() == i,
            forall|j: int| 0 <= j < i ==> next@[j] == #[trigger] despeckled(before, w as int, h as int)[j],
        decreases n - i,
    {
        let (x, y) = locate(i, w, h);
        let mut v = cleared[i];
        if !v && 1 <= x && x + 1 < w && 1 <= y && y + 1 < h {
            proof {
                assert(cell(w as int, x as int, y as int - 1) == i - w) by (nonlinear_arith)
                    requires
                        cell(w as int, x as int, y as int) == i,
                ;
                assert(cell(w as int, x as int, y as int + 1) == i + w) by (nonlinear_arith)
                    requires
                        cell(w as int, x as int, y as int) == i,
                ;
                assert(cell(w as int, x as int, y as int + 1) < n) by {
                    lemma_cell(w as int, h as int, x as int, y as int + 1);
                }
            }
            let wu = w as usize;
            v = cleared[i - wu] && cleared[i + wu] && cleared[i - 1] && cleared[i + 1];
        }
        next.push(v);
        i = i + 1;
    }
    proof {
        assert(next@ =~= despeckled(before, w as int, h as int));
    }
    *cleared = next;
}

/// Which pixels the background cut clears outright: the background
/// connected to the edge, then the background it encloses, then the lone
/// pixels of noise left inside it, then the crumbs.
pub open spec fn key_mask(r: Raster, bg: Seq<u8>, tolerance: int) -> Seq<bool> {
    crumbs_swept(
        r,
        bg,
        soft_of(tolerance),
        despeckled(enclosed_mask(r, bg, tolerance, edge_mask(r, bg, tolerance)), r.width as int, r.height as int),
    )
}

/// The pixels the background cut clears outright, one flag per pixel in
/// row-major order: the edge flood, the enclosed background, the despeckle,
/// and the crumbs, judged against the soft band of the tolerance.
pub fn background_mask(bitmap: &Bitmap, background: [u8; 4], tolerance: i32) -> (cleared: Vec<bool>)
    requires
        bitmap@.wf(),
        MIN_TOLERANCE <= tolerance <= SOFT_TOLERANCE,
    ensures
        cleared@ == key_mask(bitmap@, background@, tolerance as int),
        cleared@.len() == bitmap.width * bitmap.height,
{
    let mut cleared = edge_flood(bitmap, background, tolerance);
    enclose_background(bitmap, background, &mut cleared, tolerance);
    despeckle(&mut cleared, bitmap.width, bitmap.height);
    let soft = soft_for(tolerance);
    remove_crumbs(bitmap, &mut cleared, background, soft);
    cleared
}


/// Each stage of the cut only ever adds to what is cleared: a pixel cleared
/// by the edge flood is cleared in the final mask.
pub proof fn law_the_stages_only_clear(r: Raster, bg: Seq<u8>, tolerance: int, i: int)
    requires
        0 <= i < r.width * r.height,
        edge_mask(r, bg, tolerance)[i],
    ensures
        key_mask(r, bg, tolerance)[i],
{
    let e = edge_mask(r, bg, tolerance);
    let en = enclosed_mask(r, bg, tolerance, e);
    let d = despeckled(en, r.width as int, r.height as int);
    assert(en[i]);
    assert(d[i]);
}

/// The edge flood never clears a pixel that no path of flood steps joins to
/// a background pixel of the outer ring.
pub proof fn law_the_edge_flood_is_connected(r: Raster, bg: Seq<u8>, tolerance: int, i: int)
    requires
        r.wf(),
        0 <= i < r.width * r.height,
        edge_mask(r, bg, tolerance)[i],
    ensures
        exists|path: Seq<(int, int)>|
            #[trigger] flood_walk(r, bg, tolerance, nothing_blocked(r), path) && on_edge(r, path[0]) && keyable(
                r.pixel(path[0].0, path[0].1),
                bg,
                tolerance,
            ) && path.last() == pixel_of(r.width as int, i),
{
    let w = r.width as int;
    let h = r.height as int;
    let q = pixel_of(w, i);
    let path = choose|path: Seq<(int, int)>|
        #[trigger] flood_path(r, bg, tolerance, nothing_blocked(r), edge_seeds(r, bg, tolerance), path, q);
    let s = path[0];
    assert(open_at(nothing_blocked(r), w, h, s));
    lemma_cell(w, h, s.0, s.1);
    let j = cell(w, s.0, s.1);
    lemma_pixel_of(w, h, j);
    lemma_cell_injective(w, h, pixel_of(w, j).0, pixel_of(w, j).1, s.0, s.1);
    assert(edge_seeds(r, bg, tolerance)[j]);
}

} // verus!
