//! Whether a background can be keyed at all, measured before anything is
//! cut. A flood with a tolerance is right for a flat card and has no right
//! answer on a photograph, so the first question is not what tolerance but
//! whether to try. These are the integer measurements that question is
//! answered from.

use vstd::prelude::*;
use crate::bitmap::{Bitmap, Raster};
use crate::board::{board_of, detect_checkerboard, flatten_checkerboard, flattened, Checkerboard};
use crate::keying::{contrast, lemma_pixel_of, local_contrast, locate, pixel_of, SMOOTH_ENOUGH};
use crate::matte::{colour_distance, distance, lemma_median_named, median_of, median_u8};

verus! {

/// The side of the square sampled in each corner.
pub const PATCH: u32 = 8;

/// Channel `ch` of the visible pixels of row `y` from `x0` up to `x`.
pub open spec fn row_samples(r: Raster, y: int, x0: int, x: int, ch: int) -> Seq<u8>
    decreases x - x0,
{
    if x <= x0 {
        Seq::empty()
    } else {
        let prev = row_samples(r, y, x0, x - 1, ch);
        if r.alpha(x - 1, y) >= 16 { prev.push(r.at(x - 1, y, ch)) } else { prev }
    }
}

/// Channel `ch` of the visible pixels of the rectangle `[x0, x1) x [y0, y)`,
/// row by row.
pub open spec fn patch_samples(r: Raster, x0: int, x1: int, y0: int, y: int, ch: int) -> Seq<u8>
    decreases y - y0,
{
    if y <= y0 {
        Seq::empty()
    } else {
        patch_samples(r, x0, x1, y0, y - 1, ch) + row_samples(r, y - 1, x0, x1, ch)
    }
}

/// The per-channel median of the visible pixels of a rectangle, opaque; or
/// opaque black when none is visible. Transparency is absence, not black.
pub open spec fn patch_colour(r: Raster, x0: int, x1: int, y0: int, y1: int) -> Seq<u8> {
    if patch_samples(r, x0, x1, y0, y1, 0).len() == 0 {
        seq![0u8, 0u8, 0u8, 255u8]
    } else {
        seq![
            median_of(patch_samples(r, x0, x1, y0, y1, 0)),
            median_of(patch_samples(r, x0, x1, y0, y1, 1)),
            median_of(patch_samples(r, x0, x1, y0, y1, 2)),
            255u8,
        ]
    }
}

/// `v - PATCH`, or zero.
pub open spec fn back_off(v: int) -> int {
    if v >= PATCH { v - PATCH } else { 0 }
}

/// The colour of the corner patch whose top left is `(x0, y0)`.
pub open spec fn corner_colour(r: Raster, x0: int, y0: int) -> Seq<u8> {
    let x1 = if x0 + PATCH < r.width { x0 + PATCH } else { r.width as int };
    let y1 = if y0 + PATCH < r.height { y0 + PATCH } else { r.height as int };
    patch_colour(r, x0, x1, y0, y1)
}

/// The four corner colours: top left, top right, bottom left, bottom right.
pub open spec fn corners(r: Raster) -> Seq<Seq<u8>> {
    let right = back_off(r.width as int);
    let bottom = back_off(r.height as int);
    seq![corner_colour(r, 0, 0), corner_colour(r, right, 0), corner_colour(r, 0, bottom), corner_colour(r, right, bottom)]
}

pub open spec fn max_of(a: int, b: int) -> int {
    if a >= b { a } else { b }
}

/// The largest colour distance between any two corners.
pub open spec fn disagreement(r: Raster) -> int {
    let c = corners(r);
    max_of(
        max_of(max_of(colour_distance(c[0], c[1]), colour_distance(c[0], c[2])), max_of(colour_distance(c[0], c[3]), colour_distance(c[1], c[2]))),
        max_of(colour_distance(c[1], c[3]), colour_distance(c[2], c[3])),
    )
}

proof fn lemma_row_lengths(r: Raster, y: int, x0: int, x: int)
    ensures
        row_samples(r, y, x0, x, 0).len() == row_samples(r, y, x0, x, 1).len(),
        row_samples(r, y, x0, x, 0).len() == row_samples(r, y, x0, x, 2).len(),
    decreases x - x0,
{
    if x > x0 {
        lemma_row_lengths(r, y, x0, x - 1);
    }
}

proof fn lemma_patch_lengths(r: Raster, x0: int, x1: int, y0: int, y: int)
    ensures
        patch_samples(r, x0, x1, y0, y, 0).len() == patch_samples(r, x0, x1, y0, y, 1).len(),
        patch_samples(r, x0, x1, y0, y, 0).len() == patch_samples(r, x0, x1, y0, y, 2).len(),
    decreases y - y0,
{
    if y > y0 {
        lemma_patch_lengths(r, x0, x1, y0, y - 1);
        lemma_row_lengths(r, y - 1, x0, x1);
    }
}

/// The median colour of the visible pixels of `[x0, x1) x [y0, y1)`.
fn patch_median(bitmap: &Bitmap, x0: u32, x1: u32, y0: u32, y1: u32) -> (out: [u8; 4])
    requires
        bitmap@.wf(),
        x0 <= x1 <= bitmap.width,
        y0 <= y1 <= bitmap.height,
    ensures
        out@ == patch_colour(bitmap@, x0 as int, x1 as int, y0 as int, y1 as int),
{
    let ghost r = bitmap@;
    let mut s0: Vec<u8> = Vec::new();
    let mut s1: Vec<u8> = Vec::new();
    let mut s2: Vec<u8> = Vec::new();
    let mut y = y0;
    while y < y1
        invariant
            r == bitmap@,
            r.wf(),
            x0 <= x1 <= bitmap.width,
            y0 <= y <= y1,
            y1 <= bitmap.height,
            s0@ == patch_samples(r, x0 as int, x1 as int, y0 as int, y as int, 0),
            s1@ == patch_samples(r, x0 as int, x1 as int, y0 as int, y as int, 1),
            s2@ == patch_samples(r, x0 as int, x1 as int, y0 as int, y as int, 2),
        decreases y1 - y,
    {
        let ghost base0 = s0@;
        let ghost base1 = s1@;
        let ghost base2 = s2@;
        let mut x = x0;
        while x < x1
            invariant
                r == bitmap@,
                r.wf(),
                x0 <= x <= x1,
                x1 <= bitmap.width,
                y0 <= y < y1,
                y1 <= bitmap.height,
                s0@ == base0 + row_samples(r, y as int, x0 as int, x as int, 0),
                s1@ == base1 + row_samples(r, y as int, x0 as int, x as int, 1),
                s2@ == base2 + row_samples(r, y as int, x0 as int, x as int, 2),
            decreases x1 - x,
        {
            let p = bitmap.pixel(x, y);
            if p[3] >= 16 {
                s0.push(p[0]);
                s1.push(p[1]);
                s2.push(p[2]);
            }
            proof {
                assert(row_samples(r, y as int, x0 as int, x + 1, 0) == (if r.alpha(x as int, y as int) >= 16 {
                    row_samples(r, y as int, x0 as int, x as int, 0).push(r.at(x as int, y as int, 0))
                } else {
                    row_samples(r, y as int, x0 as int, x as int, 0)
                }));
            }
            x = x + 1;
        }
        y = y + 1;
    }
    proof {
        lemma_patch_lengths(r, x0 as int, x1 as int, y0 as int, y1 as int);
    }
    if s0.len() == 0 {
        let out = [0u8, 0u8, 0u8, 255u8];
        assert(out@ =~= seq![0u8, 0u8, 0u8, 255u8]);
        return out;
    }
    let m0 = median_u8(&s0);
    let m1 = median_u8(&s1);
    let m2 = median_u8(&s2);
    proof {
        lemma_median_named(s0@, m0);
        lemma_median_named(s1@, m1);
        lemma_median_named(s2@, m2);
    }
    let out = [m0, m1, m2, 255u8];
    assert(out@ =~= seq![m0, m1, m2, 255u8]);
    out
}

/// The colour of the corner patch whose top left is `(x0, y0)`.
fn corner_at(bitmap: &Bitmap, x0: u32, y0: u32) -> (out: [u8; 4])
    requires
        bitmap@.wf(),
        x0 <= bitmap.width,
        y0 <= bitmap.height,
    ensures
        out@ == corner_colour(bitmap@, x0 as int, y0 as int),
{
    let x1 = if (x0 as u64) + (PATCH as u64) < bitmap.width as u64 { x0 + PATCH } else { bitmap.width };
    let y1 = if (y0 as u64) + (PATCH as u64) < bitmap.height as u64 { y0 + PATCH } else { bitmap.height };
    patch_median(bitmap, x0, x1, y0, y1)
}

/// How far apart the four corners of the image are in colour: the largest
/// distance between any two of their median colours. A flat card's corners
/// agree to within noise; a vignette or a gradient does not.
pub fn corner_disagreement(bitmap: &Bitmap) -> (worst: i32)
    requires
        bitmap@.wf(),
    ensures
        worst == disagreement(bitmap@),
{
    let (w, h) = (bitmap.width, bitmap.height);
    let right = if w >= PATCH { w - PATCH } else { 0 };
    let bottom = if h >= PATCH { h - PATCH } else { 0 };
    let c0 = corner_at(bitmap, 0, 0);
    let c1 = corner_at(bitmap, right, 0);
    let c2 = corner_at(bitmap, 0, bottom);
    let c3 = corner_at(bitmap, right, bottom);
    let mut worst: i32 = 0;
    let pairs = [distance(c0, c1), distance(c0, c2), distance(c0, c3), distance(c1, c2), distance(c1, c3), distance(c2, c3)];
    let mut k: usize = 0;
    while k < 6
        invariant
            0 <= k <= 6,
            forall|j: int| 0 <= j < 6 ==> pairs[j] >= 0,
            worst == (if k == 0 {
                0
            } else if k == 1 {
                pairs[0] as int
            } else if k == 2 {
                max_of(pairs[0] as int, pairs[1] as int)
            } else if k == 3 {
                max_of(max_of(pairs[0] as int, pairs[1] as int), pairs[2] as int)
            } else if k == 4 {
                max_of(max_of(pairs[0] as int, pairs[1] as int), max_of(pairs[2] as int, pairs[3] as int))
            } else if k == 5 {
                max_of(max_of(max_of(pairs[0] as int, pairs[1] as int), max_of(pairs[2] as int, pairs[3] as int)), pairs[4] as int)
            } else {
                max_of(
                    max_of(max_of(pairs[0] as int, pairs[1] as int), max_of(pairs[2] as int, pairs[3] as int)),
                    max_of(pairs[4] as int, pairs[5] as int),
                )
            }),
        decreases 6 - k,
    {
        if pairs[k] > worst {
            worst = pairs[k];
        }
        k = k + 1;
    }
    proof {
        let c = corners(bitmap@);
        assert(c[0] == c0@ && c[1] == c1@ && c[2] == c2@ && c[3] == c3@);
    }
    worst
}

} // verus!

verus! {

/// How wide a band around the perimeter counts as the border.
pub const BORDER_BAND: u32 = 4;

/// `v - BORDER_BAND`, or zero.
pub open spec fn band_edge(v: int) -> int {
    if v >= BORDER_BAND { v - BORDER_BAND } else { 0 }
}

/// A visible pixel within [`BORDER_BAND`] of the edge. Transparency is not a
/// colour: a transparent margin measured as black would make a logo on a
/// white card look like a photograph.
pub open spec fn band_member(r: Raster, p: (int, int)) -> bool {
    &&& (p.0 < BORDER_BAND || p.1 < BORDER_BAND || p.0 >= band_edge(r.width as int) || p.1 >= band_edge(r.height as int))
    &&& r.alpha(p.0, p.1) >= 16
}

/// Channel `ch` of the band pixels among the first `k` pixels.
pub open spec fn band_channel(r: Raster, ch: int, k: int) -> Seq<u8>
    decreases k,
{
    if k <= 0 {
        Seq::empty()
    } else {
        let p = pixel_of(r.width as int, k - 1);
        let prev = band_channel(r, ch, k - 1);
        if band_member(r, p) { prev.push(r.at(p.0, p.1, ch)) } else { prev }
    }
}

/// How many band pixels among the first `k` sit on a strong local edge.
pub open spec fn band_edges(r: Raster, k: int) -> int
    decreases k,
{
    if k <= 0 {
        0
    } else {
        let p = pixel_of(r.width as int, k - 1);
        band_edges(r, k - 1) + if band_member(r, p) && contrast(r, p) > SMOOTH_ENOUGH { 1int } else { 0int }
    }
}

/// A colour quantised to five bits a channel: fine enough to tell two shades
/// of grass apart, coarse enough that noise on a flat card is one colour.
pub open spec fn colour_key(px: Seq<u8>) -> int {
    (px[0] / 8) * 1024 + (px[1] / 8) * 32 + px[2] / 8
}

/// The quantised colours of the band pixels among the first `k`.
pub open spec fn band_keys(r: Raster, k: int) -> Set<int>
    decreases k,
{
    if k <= 0 {
        Set::empty()
    } else {
        let p = pixel_of(r.width as int, k - 1);
        let prev = band_keys(r, k - 1);
        if band_member(r, p) { prev.insert(colour_key(r.pixel(p.0, p.1))) } else { prev }
    }
}

/// The band's per-channel median colour.
pub open spec fn band_median(r: Raster) -> Seq<u8> {
    let n = (r.width * r.height) as int;
    seq![median_of(band_channel(r, 0, n)), median_of(band_channel(r, 1, n)), median_of(band_channel(r, 2, n)), 255u8]
}

/// How far each band pixel among the first `k` lies from `m`.
pub open spec fn band_deviations(r: Raster, m: Seq<u8>, k: int) -> Seq<u8>
    decreases k,
{
    if k <= 0 {
        Seq::empty()
    } else {
        let p = pixel_of(r.width as int, k - 1);
        let prev = band_deviations(r, m, k - 1);
        if band_member(r, p) { prev.push(colour_distance(r.pixel(p.0, p.1), m) as u8) } else { prev }
    }
}

/// The integer measurements a background's keyability is judged from.
#[derive(Debug, Clone, Copy, PartialEq, Eq)]
pub struct BorderSignals {
    /// The largest colour distance between two corner patches.
    pub corner_disagreement: i32,
    /// The median distance of the band's pixels from the band's median colour.
    pub border_variance: i32,
    /// How many quantised colours the band holds.
    pub colours: usize,
    /// How many band pixels sit on a strong local edge.
    pub on_edge: usize,
    /// How many pixels the band holds.
    pub band: usize,
}

/// What the border of `r` measures, or nothing when the image is too small
/// to measure or its band holds no visible pixel.
pub open spec fn measures(r: Raster, s: Option<BorderSignals>) -> bool {
    let n = (r.width * r.height) as int;
    match s {
        None => r.width < 16 || r.height < 16 || band_channel(r, 0, n).len() == 0,
        Some(s) => {
            &&& r.width >= 16
            &&& r.height >= 16
            &&& s.band == band_channel(r, 0, n).len()
            &&& s.band > 0
            &&& s.corner_disagreement == disagreement(r)
            &&& s.border_variance == median_of(band_deviations(r, band_median(r), n))
            &&& s.colours == band_keys(r, n).len()
            &&& s.on_edge == band_edges(r, n)
        },
    }
}

proof fn lemma_band_lengths(r: Raster, k: int)
    ensures
        band_channel(r, 0, k).len() == band_channel(r, 1, k).len(),
        band_channel(r, 0, k).len() == band_channel(r, 2, k).len(),
        band_channel(r, 0, k).len() == band_deviations(r, band_median(r), k).len(),
        0 <= band_edges(r, k) <= band_channel(r, 0, k).len(),
        band_keys(r, k).finite(),
        band_keys(r, k).len() <= band_channel(r, 0, k).len(),
        k >= 0 ==> band_channel(r, 0, k).len() <= k,
    decreases k,
{
    if k > 0 {
        lemma_band_lengths(r, k - 1);
        let p = pixel_of(r.width as int, k - 1);
        if band_member(r, p) {
            vstd::set::axiom_set_insert_len(band_keys(r, k - 1), colour_key(r.pixel(p.0, p.1)));
        }
    }
}

/// Measures the border of a bitmap as it stands.
pub fn border_signals(bitmap: &Bitmap) -> (out: Option<BorderSignals>)
    requires
        bitmap@.wf(),
    ensures
        measures(bitmap@, out),
{
    let ghost r = bitmap@;
    let (w, h) = (bitmap.width, bitmap.height);
    if w < 16 || h < 16 {
        return None;
    }
    let ghost gw = w as int;
    let ghost gh = h as int;
    let plen = bitmap.pixels.len();
    assert((w as int) * (h as int) <= plen) by (nonlinear_arith)
        requires
            plen == (w as int) * (h as int) * 4,
    ;
    let n: usize = (w as usize) * (h as usize);
    let right = w - BORDER_BAND;
    let bottom = h - BORDER_BAND;
    let mut s0: Vec<u8> = Vec::new();
    let mut s1: Vec<u8> = Vec::new();
    let mut s2: Vec<u8> = Vec::new();
    let mut on_edge: usize = 0;
    let mut colours: usize = 0;
    let mut table: Vec<bool> = vec![false; 32768];
    let mut i: usize = 0;
    while i < n
        invariant
            r == bitmap@,
            r.wf(),
            w == bitmap.width,
            h == bitmap.height,
            w >= 16,
            h >= 16,
            gw == w,
            gh == h,
            right == band_edge(gw),
            bottom == band_edge(gh),
            n == gw * gh,
            i <= n,
            s0@ == band_channel(r, 0, i as int),
            s1@ == band_channel(r, 1, i as int),
            s2@ == band_channel(r, 2, i as int),
            on_edge == band_edges(r, i as int),
            table@.len() == 32768,
            forall|key: int| 0 <= key < 32768 ==> (#[trigger] table@[key] == band_keys(r, i as int).contains(key)),
            forall|key: int| #[trigger] band_keys(r, i as int).contains(key) ==> 0 <= key < 32768,
            colours == band_keys(r, i as int).len(),
        decreases n - i,
    {
        proof {
            lemma_band_lengths(r, i as int);
        }
        let (x, y) = locate(i, w, h);
        proof {
            lemma_pixel_of(gw, gh, i as int);
        }
        let p = bitmap.pixel(x, y);
        let edge = x < BORDER_BAND || y < BORDER_BAND || x >= right || y >= bottom;
        if edge && p[3] >= 16 {
            s0.push(p[0]);
            s1.push(p[1]);
            s2.push(p[2]);
            if local_contrast(bitmap, x, y) > SMOOTH_ENOUGH {
                on_edge = on_edge + 1;
            }
            let key = (p[0] / 8) as usize * 1024 + (p[1] / 8) as usize * 32 + (p[2] / 8) as usize;
            assert(key == colour_key(r.pixel(x as int, y as int)));
            proof {
                vstd::set::axiom_set_insert_len(band_keys(r, i as int), key as int);
            }
            if !table[key] {
                table.set(key, true);
                colours = colours + 1;
            }
        }
        i = i + 1;
    }
    proof {
        lemma_band_lengths(r, n as int);
    }
    let band = s0.len();
    if band == 0 {
        return None;
    }
    let m0 = median_u8(&s0);
    let m1 = median_u8(&s1);
    let m2 = median_u8(&s2);
    proof {
        lemma_median_named(s0@, m0);
        lemma_median_named(s1@, m1);
        lemma_median_named(s2@, m2);
    }
    let median = [m0, m1, m2, 255u8];
    assert(median@ =~= band_median(r));
    let mut deviations: Vec<u8> = Vec::new();
    let mut k: usize = 0;
    while k < n
        invariant
            r == bitmap@,
            r.wf(),
            w == bitmap.width,
            h == bitmap.height,
            w >= 16,
            h >= 16,
            gw == w,
            gh == h,
            right == band_edge(gw),
            bottom == band_edge(gh),
            n == gw * gh,
            k <= n,
            median@ == band_median(r),
            deviations@ == band_deviations(r, band_median(r), k as int),
        decreases n - k,
    {
        let (x, y) = locate(k, w, h);
        proof {
            lemma_pixel_of(gw, gh, k as int);
        }
        let p = bitmap.pixel(x, y);
        let edge = x < BORDER_BAND || y < BORDER_BAND || x >= right || y >= bottom;
        if edge && p[3] >= 16 {
            let d = distance(p, median);
            deviations.push(d as u8);
        }
        k = k + 1;
    }
    let variance = median_u8(&deviations);
    proof {
        lemma_median_named(deviations@, variance);
    }
    let corner = corner_disagreement(bitmap);
    Some(BorderSignals { corner_disagreement: corner, border_variance: variance as i32, colours, on_edge, band })
}

/// What a checkerboard found in `r` is, as the bitmap it came from sees it.
pub open spec fn board_view(b: Option<Checkerboard>) -> Option<(Seq<u8>, Seq<u8>, u32)> {
    match b {
        Some(b) => Some((b.light@, b.dark@, b.cell)),
        None => None,
    }
}

/// Measures the border as the background cut will see it: a transparency
/// checkerboard is flattened first, on a copy, since two colours measured as
/// one background read as a textured, disagreeing, many-coloured border.
pub fn keyability_signals(bitmap: &Bitmap) -> (out: Option<BorderSignals>)
    requires
        bitmap@.wf(),
        2 * (bitmap.width as int) + 2 * (bitmap.height as int) <= usize::MAX,
    ensures
        exists|found: Option<Checkerboard>|
            board_of(bitmap@, #[trigger] board_view(found)) && measures(
                match found {
                    Some(b) => flattened(bitmap@, b),
                    None => bitmap@,
                },
                out,
            ),
{
    let found = detect_checkerboard(bitmap);
    match found {
        Some(board) => {
            let mut flat = bitmap.duplicate();
            flatten_checkerboard(&mut flat, &board);
            let out = border_signals(&flat);
            assert(board_of(bitmap@, board_view(found)));
            out
        },
        None => {
            let out = border_signals(bitmap);
            assert(board_of(bitmap@, board_view(found)));
            out
        },
    }
}

/// Corner patches further apart than this disagree about the background.
pub const MAX_CORNER_DISAGREEMENT: i32 = 40;

/// A border band whose pixels scatter further than this from its median is
/// textured.
pub const MAX_BORDER_VARIANCE: i32 = 20;

/// Quantised colours per thousand band pixels above which the band is many
/// coloured.
pub const MAX_COLOURS_PER_THOUSAND: u64 = 8;

/// Band pixels on a strong edge, per hundred, above which the band is busy.
pub const MAX_EDGES_PER_HUNDRED: u64 = 22;

/// How many of the four signals trip: corners that disagree, a textured
/// band, a many-coloured band, a busy band. The two densities are compared
/// as exact ratios.
pub open spec fn tripped(s: BorderSignals) -> int {
    (if s.corner_disagreement > MAX_CORNER_DISAGREEMENT { 1int } else { 0int })
        + (if s.border_variance > MAX_BORDER_VARIANCE { 1int } else { 0int })
        + (if s.colours * 1000 > MAX_COLOURS_PER_THOUSAND * s.band { 1int } else { 0int })
        + (if s.on_edge * 100 > MAX_EDGES_PER_HUNDRED * s.band { 1int } else { 0int })
}

/// Whether a background can be keyed with confidence: one tripped signal
/// is evidence, two make a pattern.
pub fn confident(s: &BorderSignals) -> (b: bool)
    ensures
        b == (tripped(*s) < 2),
{
    let mut count: u32 = 0;
    if s.corner_disagreement > MAX_CORNER_DISAGREEMENT {
        count = count + 1;
    }
    if s.border_variance > MAX_BORDER_VARIANCE {
        count = count + 1;
    }
    if (s.colours as u128) * 1000 > (s.band as u128) * 8 {
        count = count + 1;
    }
    if (s.on_edge as u128) * 100 > (s.band as u128) * 22 {
        count = count + 1;
    }
    count < 2
}

} // verus!
