//! The measurements background removal decides by: what the border of an
//! image looks like, how much slack a key gets, and when a cut is refused.
//!
//! The cut itself grades alpha along a smooth curve and is done elsewhere;
//! everything here is exact integer arithmetic on pixels.

use vstd::prelude::*;
use crate::bitmap::{Bitmap, Raster};
use crate::regions::{coherent, law_measurement_is_unique, measures};
pub use crate::regions::{survivor_is_coherent, survivors, Survivors};
pub use crate::board::{detect_checkerboard, Checkerboard};

verus! {

/// How far a pixel may sit from the sampled background and still be
/// background, at most.
pub const TOLERANCE: i32 = 38;

/// The tightest tolerance used, for a perfectly uniform background. Not zero:
/// even a flat card has antialiasing along the subject's edge.
pub const MIN_TOLERANCE: i32 = 10;

/// The outer edge of the band in which a pixel is partly background.
pub const SOFT_TOLERANCE: i32 = 96;

/// Below this alpha a pixel has no colour worth sampling.
pub const VISIBLE_ALPHA: u8 = 16;

/// Why a removal did not happen. A refusal is a result, not a failure.
#[derive(Debug, Clone, Copy, PartialEq, Eq, Structural)]
pub enum Refusal {
    /// The background is a gradient, a vignette or a texture: no tolerance
    /// gives a correct result, so none is tried.
    LooksLikeAPhotograph,
    /// A key was attempted and what came back was not a subject. Reverted.
    WouldHaveEatenTheSubject,
    /// The key found almost nothing to remove.
    BarelyMoved,
}

/// What the user is told about a refusal.
pub open spec fn refusal_text(r: Refusal) -> Seq<char> {
    match r {
        Refusal::LooksLikeAPhotograph => "This looks like a photo. Automatic background removal works on flat backgrounds \u{2014} logos, icons, screenshots \u{2014} and it will not do a good job here. Use the image as it is, or cut it out yourself in the editor."@,
        Refusal::WouldHaveEatenTheSubject => "Removing the background would have taken the subject with it, so the image was left as it is. Try the editor if you want to cut it by hand."@,
        Refusal::BarelyMoved => "There was no background to find, so the image was left as it is."@,
    }
}

impl Refusal {
    /// What to tell the user. Plain, specific, and never blaming them.
    pub fn message(self) -> (text: &'static str)
        ensures
            text@ == refusal_text(self),
    {
        match self {
            Refusal::LooksLikeAPhotograph => "This looks like a photo. Automatic background removal works on flat backgrounds \u{2014} logos, icons, screenshots \u{2014} and it will not do a good job here. Use the image as it is, or cut it out yourself in the editor.",
            Refusal::WouldHaveEatenTheSubject => "Removing the background would have taken the subject with it, so the image was left as it is. Try the editor if you want to cut it by hand.",
            Refusal::BarelyMoved => "There was no background to find, so the image was left as it is.",
        }
    }
}

/// The pixels of the border, in the order they are visited: top and bottom
/// rows column by column, then left and right columns row by row.
pub open spec fn border_at(w: int, h: int, k: int) -> (int, int) {
    if k < 2 * w {
        if k % 2 == 0 { (k / 2, 0) } else { (k / 2, h - 1) }
    } else {
        let j = k - 2 * w;
        if j % 2 == 0 { (0, j / 2) } else { (w - 1, j / 2) }
    }
}

/// How many border visits there are.
pub open spec fn border_len(r: Raster) -> int {
    2 * (r.width as int) + 2 * (r.height as int)
}

/// How many of the first `k` border visits land on a nearly transparent
/// pixel.
pub open spec fn clear_count(r: Raster, k: int) -> int
    decreases k,
{
    if k <= 0 {
        0
    } else {
        let (x, y) = border_at(r.width as int, r.height as int, k - 1);
        clear_count(r, k - 1) + if r.alpha(x, y) < 16 { 1int } else { 0int }
    }
}

/// A subject that has been cut out leaves an edge that is mostly empty: at
/// least half the border is transparent.
pub open spec fn cut_out(r: Raster) -> bool {
    r.width >= 3 && r.height >= 3 && 2 * clear_count(r, border_len(r)) >= border_len(r)
}

/// How many of the first `k` pixels of row `y` are nearly transparent.
pub open spec fn clear_in_row(r: Raster, y: int, k: int) -> int
    decreases k,
{
    if k <= 0 {
        0
    } else {
        clear_in_row(r, y, k - 1) + if r.alpha(k - 1, y) < 16 { 1int } else { 0int }
    }
}

/// How many of the first `k` pixels of column `x` are nearly transparent.
pub open spec fn clear_in_column(r: Raster, x: int, k: int) -> int
    decreases k,
{
    if k <= 0 {
        0
    } else {
        clear_in_column(r, x, k - 1) + if r.alpha(x, k - 1) < 16 { 1int } else { 0int }
    }
}

proof fn lemma_rows_counted(r: Raster, k: int)
    requires
        0 <= k <= r.width,
    ensures
        clear_count(r, 2 * k) == clear_in_row(r, 0, k) + clear_in_row(r, r.height - 1, k),
    decreases k,
{
    if k > 0 {
        lemma_rows_counted(r, k - 1);
        reveal_with_fuel(clear_count, 2);
        let w = r.width as int;
        let h = r.height as int;
        assert(border_at(w, h, 2 * k - 2) == (k - 1, 0int));
        assert(border_at(w, h, 2 * k - 1) == (k - 1, h - 1));
    }
}

proof fn lemma_columns_counted(r: Raster, j: int)
    requires
        0 <= j <= r.height,
    ensures
        clear_count(r, 2 * r.width + 2 * j) == clear_count(r, 2 * r.width as int) + clear_in_column(r, 0, j)
            + clear_in_column(r, r.width - 1, j),
    decreases j,
{
    if j > 0 {
        lemma_columns_counted(r, j - 1);
        reveal_with_fuel(clear_count, 2);
        let w = r.width as int;
        let h = r.height as int;
        assert(border_at(w, h, 2 * w + 2 * j - 2) == (0int, j - 1));
        assert(border_at(w, h, 2 * w + 2 * j - 1) == (w - 1, j - 1));
    }
}

/// A picture counts as already cut out exactly when it is at least 3 px on
/// each side and at least half of its border is nearly transparent (alpha
/// under 16), counting the top and bottom rows and the left and right
/// columns in full, corners in both. Rounded corners or a thin shadow on an
/// otherwise opaque card leave most of the border opaque, so such a card is
/// not cut out and its background is still keyed away.
pub proof fn law_cut_out_means_half_the_border_is_clear(r: Raster)
    ensures
        cut_out(r) <==> (r.width >= 3 && r.height >= 3 && 2 * (clear_in_row(r, 0, r.width as int) + clear_in_row(
            r,
            r.height - 1,
            r.width as int,
        ) + clear_in_column(r, 0, r.height as int) + clear_in_column(r, r.width - 1, r.height as int)) >= 2
            * r.width + 2 * r.height),
{
    lemma_rows_counted(r, r.width as int);
    lemma_columns_counted(r, r.height as int);
}

/// True when the image already has its background removed, decided from the
/// border: rounded corners, a drop shadow or a transparent margin leave a
/// solid background in the middle, and a cut-out subject leaves a
/// transparent edge.
pub fn already_cut_out(bitmap: &Bitmap) -> (out: bool)
    requires
        bitmap@.wf(),
        2 * (bitmap.width as int) + 2 * (bitmap.height as int) <= usize::MAX,
    ensures
        out == cut_out(bitmap@),
{
    let (w, h) = (bitmap.width, bitmap.height);
    if w < 3 || h < 3 {
        return false;
    }
    let ghost r = bitmap@;
    let mut clear: usize = 0;
    let mut k: usize = 0;
    let total: usize = 2 * (w as usize) + 2 * (h as usize);
    while k < total
        invariant
            r == bitmap@,
            r.wf(),
            w == r.width,
            h == r.height,
            w >= 3,
            h >= 3,
            total == border_len(r),
            k <= total,
            clear == clear_count(r, k as int),
            clear <= k,
        decreases total - k,
    {
        let (x, y) = border_pixel(w, h, k);
        if bitmap.alpha(x, y) < VISIBLE_ALPHA {
            clear = clear + 1;
        }
        k = k + 1;
    }
    clear >= total - clear
}

/// The `k`-th border visit.
pub(crate) fn border_pixel(w: u32, h: u32, k: usize) -> (p: (u32, u32))
    requires
        w >= 1,
        h >= 1,
        k < 2 * (w as int) + 2 * (h as int),
    ensures
        (p.0 as int, p.1 as int) == border_at(w as int, h as int, k as int),
        p.0 < w,
        p.1 < h,
{
    let k64 = k as u64;
    if k64 < 2 * (w as u64) {
        if k64 % 2 == 0 {
            ((k64 / 2) as u32, 0)
        } else {
            ((k64 / 2) as u32, h - 1)
        }
    } else {
        let j = k64 - 2 * (w as u64);
        if j % 2 == 0 {
            (0, (j / 2) as u32)
        } else {
            (w - 1, (j / 2) as u32)
        }
    }
}

/// The range the tolerance slider spans.
pub fn tolerance_range() -> (range: (i32, i32))
    ensures
        range == (MIN_TOLERANCE, SOFT_TOLERANCE),
{
    (MIN_TOLERANCE, SOFT_TOLERANCE)
}

/// The tolerance for a border of the given spread: three levels a level of
/// spread, floored so a flat card still absorbs its own antialiasing, and
/// capped at [`TOLERANCE`].
pub open spec fn tolerance_of(spread: int) -> int {
    let t = 10 + 3 * spread;
    if t < 10 { 10 } else if t > 38 { 38 } else { t }
}

pub fn tolerance_for(spread: i32) -> (t: i32)
    ensures
        t == tolerance_of(spread as int),
{
    let t = 10 + 3 * (spread as i64);
    if t < 10 {
        10
    } else if t > 38 {
        38
    } else {
        t as i32
    }
}

/// The soft band for a tolerance: the 38:96 proportion, and at least one
/// level wide.
pub open spec fn soft_of(tolerance: int) -> int {
    let scaled = toward_zero(tolerance * 96, 38);
    if scaled > tolerance + 1 { scaled } else { tolerance + 1 }
}

/// `a / b` rounded toward zero, as integer division in Rust rounds, for a
/// positive `b`.
pub open spec fn toward_zero(a: int, b: int) -> int {
    if a >= 0 { a / b } else { -((-a) / b) }
}

/// The soft band for a tolerance, keeping the 38:96 proportion, and at
/// least one level wide.
pub fn soft_for(tolerance: i32) -> (soft: i32)
    requires
        i32::MIN <= tolerance * SOFT_TOLERANCE <= i32::MAX,
    ensures
        soft == soft_of(tolerance as int),
{
    let product = tolerance * SOFT_TOLERANCE;
    let scaled = if product >= 0 { product / TOLERANCE } else { -((-product) / TOLERANCE) };
    if scaled > tolerance + 1 {
        scaled
    } else {
        tolerance + 1
    }
}

/// Chebyshev distance between two colours, alpha ignored.
pub open spec fn colour_distance(p: Seq<u8>, q: Seq<u8>) -> int {
    let d0 = if p[0] >= q[0] { p[0] - q[0] } else { q[0] - p[0] };
    let d1 = if p[1] >= q[1] { p[1] - q[1] } else { q[1] - p[1] };
    let d2 = if p[2] >= q[2] { p[2] - q[2] } else { q[2] - p[2] };
    if d0 >= d1 && d0 >= d2 {
        d0
    } else if d1 >= d2 {
        d1
    } else {
        d2
    }
}

/// Chebyshev distance from the background colour: a background usually
/// differs from the subject in one channel more than the others, and a
/// Euclidean distance would average that away.
pub fn distance(pixel: [u8; 4], background: [u8; 4]) -> (d: i32)
    ensures
        d == colour_distance(pixel@, background@),
        0 <= d <= 255,
{
    let d0 = if pixel[0] >= background[0] { pixel[0] - background[0] } else { background[0] - pixel[0] };
    let d1 = if pixel[1] >= background[1] { pixel[1] - background[1] } else { background[1] - pixel[1] };
    let d2 = if pixel[2] >= background[2] { pixel[2] - background[2] } else { background[2] - pixel[2] };
    let m = if d0 >= d1 && d0 >= d2 {
        d0
    } else if d1 >= d2 {
        d1
    } else {
        d2
    };
    m as i32
}

/// Whether a pixel counts as background: nearly transparent, or within the
/// tolerance of the background colour.
pub fn near(pixel: [u8; 4], background: [u8; 4], tolerance: i32) -> (b: bool)
    ensures
        b == (pixel[3] < 16 || colour_distance(pixel@, background@) <= tolerance),
{
    pixel[3] < VISIBLE_ALPHA || distance(pixel, background) <= tolerance
}

/// The largest per-channel difference between two colours.
pub fn grey_distance(a: [u8; 3], b: [u8; 3]) -> (d: i32)
    ensures
        d == colour_distance(a@, b@),
{
    distance([a[0], a[1], a[2], 0], [b[0], b[1], b[2], 0])
}

/// A colour close enough to grey to be part of a drawn transparency grid:
/// its channels span at most 12 levels.
pub open spec fn neutral(c: Seq<u8>) -> bool {
    let hi = if c[0] >= c[1] && c[0] >= c[2] { c[0] } else if c[1] >= c[2] { c[1] } else { c[2] };
    let lo = if c[0] <= c[1] && c[0] <= c[2] { c[0] } else if c[1] <= c[2] { c[1] } else { c[2] };
    hi - lo <= 12
}

pub fn near_neutral(rgb: [u8; 3]) -> (b: bool)
    ensures
        b == neutral(rgb@),
{
    let hi = if rgb[0] >= rgb[1] && rgb[0] >= rgb[2] { rgb[0] } else if rgb[1] >= rgb[2] { rgb[1] } else { rgb[2] };
    let lo = if rgb[0] <= rgb[1] && rgb[0] <= rgb[2] { rgb[0] } else if rgb[1] <= rgb[2] { rgb[1] } else { rgb[2] };
    hi - lo <= 12
}

/// Perceived brightness, in whole levels.
pub fn luma(rgb: [u8; 3]) -> (l: i32)
    ensures
        l == (rgb[0] * 30 + rgb[1] * 59 + rgb[2] * 11) / 100,
{
    ((rgb[0] as i32) * 30 + (rgb[1] as i32) * 59 + (rgb[2] as i32) * 11) / 100
}

/// How many values of `s` are at most `v`.
pub open spec fn count_le(s: Seq<u8>, v: int) -> int
    decreases s.len(),
{
    if s.len() == 0 {
        0
    } else {
        count_le(s.drop_last(), v) + if s.last() <= v { 1int } else { 0int }
    }
}

/// How many values of `s` are exactly `v`.
pub open spec fn count_eq(s: Seq<u8>, v: int) -> int
    decreases s.len(),
{
    if s.len() == 0 {
        0
    } else {
        count_eq(s.drop_last(), v) + if s.last() == v { 1int } else { 0int }
    }
}

/// `m` is the median of `s`: the value at position `len / 2` once `s` is
/// sorted, so fewer than half-and-one values lie below it and more than half
/// lie at or below it.
pub open spec fn is_median(s: Seq<u8>, m: u8) -> bool {
    count_le(s, m - 1) <= s.len() / 2 < count_le(s, m as int)
}

/// Counting at or below a value is counting below it and at it.
proof fn lemma_count_split(s: Seq<u8>, v: int)
    ensures
        count_le(s, v) == count_le(s, v - 1) + count_eq(s, v),
        count_le(s, -1) == 0,
        count_le(s, 255) == s.len(),
        0 <= count_le(s, v) <= s.len(),
    decreases s.len(),
{
    if s.len() > 0 {
        lemma_count_split(s.drop_last(), v);
    }
}

/// The median of a non-empty run of bytes, by counting.
pub fn median_u8(values: &Vec<u8>) -> (m: u8)
    requires
        values@.len() > 0,
    ensures
        is_median(values@, m),
{
    let n = values.len();
    let mut hist: Vec<usize> = Vec::new();
    let mut v: usize = 0;
    while v < 256
        invariant
            v <= 256,
            hist@.len() == v,
            forall|j: int| 0 <= j < v ==> hist@[j] == 0,
        decreases 256 - v,
    {
        hist.push(0);
        v = v + 1;
    }
    assert(values@.take(0) =~= Seq::<u8>::empty());
    let mut i: usize = 0;
    while i < n
        invariant
            n == values@.len(),
            i <= n,
            hist@.len() == 256,
            forall|j: int| 0 <= j < 256 ==> #[trigger] hist@[j] == count_eq(values@.take(i as int), j),
            forall|j: int| 0 <= j < 256 ==> #[trigger] hist@[j] <= i,
        decreases n - i,
    {
        let b = values[i] as usize;
        assert(values@.take(i as int + 1).drop_last() =~= values@.take(i as int));
        let c = hist[b];
        hist.set(b, c + 1);
        i = i + 1;
    }
    assert(values@.take(n as int) =~= values@);
    let half = n / 2;
    let mut acc: usize = 0;
    let mut v: usize = 0;
    proof {
        lemma_count_split(values@, 0);
        lemma_count_split(values@, 255);
    }
    while v < 256
        invariant
            n == values@.len(),
            half == n / 2,
            hist@.len() == 256,
            forall|j: int| 0 <= j < 256 ==> #[trigger] hist@[j] == count_eq(values@, j),
            v <= 256,
            acc == count_le(values@, v - 1),
            acc <= half,
            count_le(values@, 255) == n,
        decreases 256 - v,
    {
        proof {
            lemma_count_split(values@, v as int);
        }
        acc = acc + hist[v];
        if acc > half {
            return v as u8;
        }
        v = v + 1;
    }
    assert(false);
    0
}

/// The visible border pixels' values in channel `c`, over the first `k`
/// border visits.
pub open spec fn border_channel(r: Raster, k: int, c: int) -> Seq<u8>
    decreases k,
{
    if k <= 0 {
        Seq::empty()
    } else {
        let (x, y) = border_at(r.width as int, r.height as int, k - 1);
        let prev = border_channel(r, k - 1, c);
        if r.alpha(x, y) >= 16 { prev.push(r.at(x, y, c)) } else { prev }
    }
}

/// The background colour the border suggests: the per-channel median of its
/// visible pixels, or nothing when the border is all transparency.
pub open spec fn border_colour(r: Raster) -> Option<Seq<u8>> {
    if border_channel(r, border_len(r), 0).len() == 0 {
        None
    } else {
        Some(seq![median_of(border_channel(r, border_len(r), 0)), median_of(border_channel(r, border_len(r), 1)),
            median_of(border_channel(r, border_len(r), 2)), 255u8])
    }
}

/// The median of a non-empty run of bytes.
pub open spec fn median_of(s: Seq<u8>) -> u8 {
    choose|m: u8| is_median(s, m)
}

/// A non-empty run has exactly one median.
proof fn lemma_median_unique(s: Seq<u8>, m1: u8, m2: u8)
    requires
        is_median(s, m1),
        is_median(s, m2),
    ensures
        m1 == m2,
{
    if m1 < m2 {
        lemma_count_le_mono(s, m1 as int, m2 - 1);
    } else if m2 < m1 {
        lemma_count_le_mono(s, m2 as int, m1 - 1);
    }
}

/// Counting at or below a larger value never counts fewer.
proof fn lemma_count_le_mono(s: Seq<u8>, a: int, b: int)
    requires
        a <= b,
    ensures
        count_le(s, a) <= count_le(s, b),
    decreases s.len(),
{
    if s.len() > 0 {
        lemma_count_le_mono(s.drop_last(), a, b);
    }
}

/// The median is what [`median_of`] names.
pub(crate) proof fn lemma_median_named(s: Seq<u8>, m: u8)
    requires
        is_median(s, m),
    ensures
        median_of(s) == m,
{
    let c = median_of(s);
    lemma_median_unique(s, c, m);
}

/// The visible border pixels' values in one channel.
fn border_channel_in(bitmap: &Bitmap, c: usize) -> (out: Vec<u8>)
    requires
        bitmap@.wf(),
        bitmap.width >= 1,
        bitmap.height >= 1,
        c < 4,
        2 * (bitmap.width as int) + 2 * (bitmap.height as int) <= usize::MAX,
    ensures
        out@ == border_channel(bitmap@, border_len(bitmap@), c as int),
{
    let (w, h) = (bitmap.width, bitmap.height);
    let total: usize = 2 * (w as usize) + 2 * (h as usize);
    let mut out: Vec<u8> = Vec::new();
    let mut k: usize = 0;
    while k < total
        invariant
            bitmap@.wf(),
            w == bitmap.width,
            h == bitmap.height,
            w >= 1,
            h >= 1,
            c < 4,
            total == border_len(bitmap@),
            k <= total,
            out@ == border_channel(bitmap@, k as int, c as int),
        decreases total - k,
    {
        let (x, y) = border_pixel(w, h, k);
        let p = bitmap.pixel(x, y);
        if p[3] >= VISIBLE_ALPHA {
            out.push(p[c]);
        }
        k = k + 1;
    }
    out
}

/// The dominant colour around the border: the median of the visible edge
/// pixels, which a subject touching the edge cannot drag the way it drags a
/// mean. Transparent pixels are skipped: their colour channels hold whatever
/// the encoder left there, usually black.
pub fn sample_border(bitmap: &Bitmap) -> (out: Option<[u8; 4]>)
    requires
        bitmap@.wf(),
        bitmap.width >= 1,
        bitmap.height >= 1,
        2 * (bitmap.width as int) + 2 * (bitmap.height as int) <= usize::MAX,
    ensures
        match out {
            Some(p) => border_colour(bitmap@) == Some(p@),
            None => border_colour(bitmap@) == None::<Seq<u8>>,
        },
{
    let r0 = border_channel_in(bitmap, 0);
    if r0.len() == 0 {
        return None;
    }
    let r1 = border_channel_in(bitmap, 1);
    let r2 = border_channel_in(bitmap, 2);
    proof {
        lemma_channels_same_len(bitmap@, border_len(bitmap@));
    }
    let m0 = median_u8(&r0);
    let m1 = median_u8(&r1);
    let m2 = median_u8(&r2);
    proof {
        lemma_median_named(r0@, m0);
        lemma_median_named(r1@, m1);
        lemma_median_named(r2@, m2);
    }
    let out = [m0, m1, m2, 255];
    assert(out@ =~= seq![m0, m1, m2, 255u8]);
    Some(out)
}

/// Every channel of the visible border has the same number of values.
proof fn lemma_channels_same_len(r: Raster, k: int)
    ensures
        border_channel(r, k, 0).len() == border_channel(r, k, 1).len(),
        border_channel(r, k, 0).len() == border_channel(r, k, 2).len(),
    decreases k,
{
    if k > 0 {
        lemma_channels_same_len(r, k - 1);
    }
}

/// The visible border pixels' distances from a background colour.
pub open spec fn border_distances(r: Raster, k: int, bg: Seq<u8>) -> Seq<u8>
    decreases k,
{
    if k <= 0 {
        Seq::empty()
    } else {
        let (x, y) = border_at(r.width as int, r.height as int, k - 1);
        let prev = border_distances(r, k - 1, bg);
        if r.alpha(x, y) >= 16 { prev.push(colour_distance(r.pixel(x, y), bg) as u8) } else { prev }
    }
}

/// How uniform the border is: the median distance of its visible pixels from
/// the background colour, or 0 when none is visible.
pub open spec fn spread_of(r: Raster, bg: Seq<u8>) -> int {
    let d = border_distances(r, border_len(r), bg);
    if d.len() == 0 { 0 } else { median_of(d) as int }
}

/// The median distance of the visible border from `background`. This decides
/// how much slack the key gets: a flat card must be keyed tightly, a noisy
/// photographic backdrop loosely.
pub fn border_spread(bitmap: &Bitmap, background: [u8; 4]) -> (spread: i32)
    requires
        bitmap@.wf(),
        bitmap.width >= 1,
        bitmap.height >= 1,
        2 * (bitmap.width as int) + 2 * (bitmap.height as int) <= usize::MAX,
    ensures
        spread == spread_of(bitmap@, background@),
{
    let (w, h) = (bitmap.width, bitmap.height);
    let total: usize = 2 * (w as usize) + 2 * (h as usize);
    let mut deviations: Vec<u8> = Vec::new();
    let mut k: usize = 0;
    while k < total
        invariant
            bitmap@.wf(),
            w == bitmap.width,
            h == bitmap.height,
            w >= 1,
            h >= 1,
            total == border_len(bitmap@),
            k <= total,
            deviations@ == border_distances(bitmap@, k as int, background@),
        decreases total - k,
    {
        let (x, y) = border_pixel(w, h, k);
        let p = bitmap.pixel(x, y);
        if p[3] >= VISIBLE_ALPHA {
            deviations.push(distance(p, background) as u8);
        }
        k = k + 1;
    }
    if deviations.len() == 0 {
        return 0;
    }
    let m = median_u8(&deviations);
    proof {
        lemma_median_named(deviations@, m);
    }
    m as i32
}

/// The tolerance the automatic path would choose: from the border's spread
/// around its own colour, or [`TOLERANCE`] when the border is all
/// transparency.
pub open spec fn suggested(r: Raster) -> int {
    match border_colour(r) {
        Some(bg) => tolerance_of(spread_of(r, bg)),
        None => 38,
    }
}

/// What the automatic path would choose for this image, so the tolerance
/// slider can start where the app would have.
pub fn suggested_tolerance(bitmap: &Bitmap) -> (t: i32)
    requires
        bitmap@.wf(),
        bitmap.width >= 1,
        bitmap.height >= 1,
        2 * (bitmap.width as int) + 2 * (bitmap.height as int) <= usize::MAX,
    ensures
        t == suggested(bitmap@),
{
    match sample_border(bitmap) {
        Some(background) => tolerance_for(border_spread(bitmap, background)),
        None => TOLERANCE,
    }
}

} // verus!

verus! {

/// Clears faint pixels that ended up with no visible neighbour at all.
///
/// Deliberately absolute: not "faint and small", but faint and completely
/// alone, all eight neighbours fully transparent. A pixel with any visible
/// neighbour is part of something and is left alone, whatever its alpha. A
/// bitmap narrower or shorter than three pixels has no inside to judge and is
/// left as it is.
pub fn sweep_dust(bitmap: &mut Bitmap)
    requires
        old(bitmap)@.wf(),
    ensures
        final(bitmap)@ == (if old(bitmap).width < 3 || old(bitmap).height < 3 {
            old(bitmap)@
        } else {
            crate::bitmap::dust_swept(old(bitmap)@)
        }),
{
    if bitmap.width < 3 || bitmap.height < 3 {
        return;
    }
    let swept = bitmap.without_dust();
    *bitmap = swept;
}

} // verus!

verus! {

/// Below this share of the image, in percent, a key achieved nothing worth
/// keeping.
pub const MIN_USEFUL_PERCENT: u64 = 5;

/// A key that claimed more than this share of the image, in percent, and
/// left nothing coherent behind, ate the subject.
pub const MAX_PLAUSIBLE_PERCENT: u64 = 85;

/// Where a background removal stands before any key is tried.
#[derive(Debug, Clone, Copy, PartialEq, Eq)]
pub enum MatteStep {
    /// Too small to key: left exactly as it is.
    LeaveAlone,
    /// The picture already carries its own transparency.
    AlreadyCutOut,
    /// Refused before trying.
    Refuse(Refusal),
    /// Worth keying.
    Key,
}

/// The decision before keying: a picture under 3 px on a side is left
/// alone; unless forced, one already cut out is left as it is, and one whose
/// border does not look keyable is refused as a photograph unless the user
/// set the tolerance by hand.
pub open spec fn step_before_key(width: int, height: int, force: bool, hand_set: bool, cut_out: bool, confident: bool) -> MatteStep {
    if width < 3 || height < 3 {
        MatteStep::LeaveAlone
    } else if !force && cut_out {
        MatteStep::AlreadyCutOut
    } else if !force && !hand_set && !confident {
        MatteStep::Refuse(Refusal::LooksLikeAPhotograph)
    } else {
        MatteStep::Key
    }
}

/// Decides what to do with a picture before keying it. `cut_out` is whether
/// it already carries its own transparency ([`already_cut_out`]),
/// `confident` whether its border looks keyable
/// ([`crate::keyability::confident`]).
pub fn before_key(width: u32, height: u32, force: bool, hand_set: bool, cut_out: bool, confident: bool) -> (step: MatteStep)
    ensures
        step == step_before_key(width as int, height as int, force, hand_set, cut_out, confident),
{
    if width < 3 || height < 3 {
        MatteStep::LeaveAlone
    } else if !force && cut_out {
        MatteStep::AlreadyCutOut
    } else if !force && !hand_set && !confident {
        MatteStep::Refuse(Refusal::LooksLikeAPhotograph)
    } else {
        MatteStep::Key
    }
}

/// How many entries of a mask are set.
pub open spec fn cleared_count(c: Seq<bool>) -> int
    decreases c.len(),
{
    if c.len() == 0 {
        0
    } else {
        cleared_count(c.drop_last()) + if c.last() { 1int } else { 0int }
    }
}

/// What survived a key is a subject rather than debris.
pub open spec fn coherent_raster(r: Raster) -> bool {
    exists|s: Survivors| #[trigger] measures(r, s) && coherent(s)
}

/// The verdict on a key that cleared `removed` of `total` pixels: almost
/// nothing removed means there was no background to find; nearly everything
/// removed with nothing coherent left means the subject went with it.
pub open spec fn verdict_after_key(total: int, removed: int, coherent: bool) -> Option<Refusal> {
    if removed * 100 < MIN_USEFUL_PERCENT * total {
        Some(Refusal::BarelyMoved)
    } else if removed * 100 > MAX_PLAUSIBLE_PERCENT * total && !coherent {
        Some(Refusal::WouldHaveEatenTheSubject)
    } else {
        None
    }
}

/// Judges what a key did: `candidate` is the keyed copy, `cleared` the mask
/// the key cleared. Refuses a key that barely moved anything, and one that
/// took nearly everything and left no coherent subject; `None` keeps it.
/// The survivors are only measured where the second question arises.
pub fn after_key(candidate: &Bitmap, cleared: &Vec<bool>) -> (out: Option<Refusal>)
    requires
        candidate@.wf(),
        cleared@.len() == candidate.width * candidate.height,
    ensures
        out == verdict_after_key(cleared@.len() as int, cleared_count(cleared@), coherent_raster(candidate@)),
{
    let n = cleared.len();
    let mut removed: u64 = 0;
    let mut i: usize = 0;
    while i < n
        invariant
            n == cleared@.len(),
            i <= n,
            removed == cleared_count(cleared@.take(i as int)),
            removed <= i,
        decreases n - i,
    {
        proof {
            assert(cleared@.take(i as int + 1).drop_last() =~= cleared@.take(i as int));
        }
        if cleared[i] {
            removed = removed + 1;
        }
        i = i + 1;
    }
    assert(cleared@.take(n as int) =~= cleared@);
    let total = n as u128;
    let r = removed as u128;
    if r * 100 < total * 5 {
        return Some(Refusal::BarelyMoved);
    }
    if r * 100 > total * 85 {
        let whole = survivor_is_coherent(candidate);
        proof {
            let s = choose|s: Survivors| #[trigger] measures(candidate@, s) && whole == coherent(s);
            if !whole {
                assert forall|t: Survivors| #[trigger] measures(candidate@, t) implies !coherent(t) by {
                    law_measurement_is_unique(candidate@, s, t);
                }
            }
        }
        if !whole {
            return Some(Refusal::WouldHaveEatenTheSubject);
        }
    }
    None
}

} // verus!
