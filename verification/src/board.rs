//! The transparency checkerboard: the alternating grey grid an image editor
//! draws behind transparency, found in a screenshot of one.
//!
//! Such a screenshot is fully opaque and its background is two colours, not
//! one, so everything that keys a flat background does the wrong thing with
//! it. It is recognised from the border, where the board is unobstructed:
//! two near-grey colours must cover it, and they must alternate on a regular
//! grid.

use vstd::prelude::*;
use crate::bitmap::{lemma_raster_ext, lemma_raster_from_at, raster_from, Bitmap, Raster};
use crate::matte::{border_at, border_len, border_pixel, colour_distance, grey_distance, neutral, near_neutral, luma};

verus! {

/// How close a pixel must be to one of the two greys to count as the board.
pub const BOARD_TOLERANCE: i32 = 10;

/// The alternating grey grid an image editor draws behind transparency.
#[derive(Debug, Clone, Copy, PartialEq, Eq)]
pub struct Checkerboard {
    pub light: [u8; 3],
    pub dark: [u8; 3],
    /// Side of one square, in pixels.
    pub cell: u32,
}

/// The colour of a pixel, without its alpha.
pub open spec fn rgb_at(r: Raster, p: (int, int)) -> Seq<u8> {
    seq![r.at(p.0, p.1, 0), r.at(p.0, p.1, 1), r.at(p.0, p.1, 2)]
}

/// The first cluster from `i` on whose colour lies within the board
/// tolerance of `rgb`, or the number of clusters.
pub open spec fn first_match(cl: Seq<(Seq<u8>, int)>, rgb: Seq<u8>, i: int) -> int
    decreases cl.len() - i,
{
    if i < 0 || i >= cl.len() {
        cl.len() as int
    } else if colour_distance(cl[i].0, rgb) <= BOARD_TOLERANCE {
        i
    } else {
        first_match(cl, rgb, i + 1)
    }
}

/// The colour clusters of the first `k` opaque border visits, each with how
/// many visits joined it, and how many visits were opaque. A visit joins
/// the first cluster its colour is within the tolerance of, or starts a new
/// one; a pixel under 250 alpha is already transparent and not a board.
pub open spec fn tallied(r: Raster, k: int) -> (Seq<(Seq<u8>, int)>, int)
    decreases k,
{
    if k <= 0 {
        (Seq::empty(), 0)
    } else {
        let prev = tallied(r, k - 1);
        let p = border_at(r.width as int, r.height as int, k - 1);
        if r.alpha(p.0, p.1) < 250 {
            prev
        } else {
            let rgb = rgb_at(r, p);
            let j = first_match(prev.0, rgb, 0);
            if j < prev.0.len() {
                (prev.0.update(j, (prev.0[j].0, prev.0[j].1 + 1)), prev.1 + 1)
            } else {
                (prev.0.push((rgb, 1)), prev.1 + 1)
            }
        }
    }
}

/// `i` is the most common cluster, the earliest among equals.
pub open spec fn is_top(cl: Seq<(Seq<u8>, int)>, i: int) -> bool {
    &&& 0 <= i < cl.len()
    &&& forall|j: int| 0 <= j < cl.len() ==> #[trigger] cl[j].1 <= cl[i].1
    &&& forall|j: int| 0 <= j < i ==> #[trigger] cl[j].1 < cl[i].1
}

/// `i` is the most common cluster other than `t`, the earliest among equals.
pub open spec fn is_second(cl: Seq<(Seq<u8>, int)>, t: int, i: int) -> bool {
    &&& 0 <= i < cl.len()
    &&& i != t
    &&& forall|j: int| 0 <= j < cl.len() && j != t ==> #[trigger] cl[j].1 <= cl[i].1
    &&& forall|j: int| 0 <= j < i && j != t ==> #[trigger] cl[j].1 < cl[i].1
}

/// Perceived brightness of a colour.
pub open spec fn luma_of(c: Seq<u8>) -> int {
    (c[0] * 30 + c[1] * 59 + c[2] * 11) / 100
}

/// One step of a walk along a border line: the runs found so far, the
/// length of the current run, and whether it is of the light colour.
pub open spec fn walk_step(st: (Seq<u32>, int, Option<bool>), i: int, rgb: Seq<u8>, light: Seq<u8>, dark: Seq<u8>) -> (Seq<u32>, int, Option<bool>) {
    let is_light = colour_distance(rgb, light) <= BOARD_TOLERANCE;
    let is_dark = colour_distance(rgb, dark) <= BOARD_TOLERANCE;
    if !is_light && !is_dark {
        (st.0, 0, None)
    } else if st.2 == Some(is_light) {
        (st.0, st.1 + 1, st.2)
    } else {
        (if st.1 > 0 && i > st.1 + 1 { st.0.push(st.1 as u32) } else { st.0 }, 1, Some(is_light))
    }
}

/// The walk over the first `k` pixels of the top row (`across`) or the left
/// column, starting from the runs `start`.
pub open spec fn walked(r: Raster, across: bool, k: int, start: Seq<u32>, light: Seq<u8>, dark: Seq<u8>) -> (Seq<u32>, int, Option<bool>)
    decreases k,
{
    if k <= 0 {
        (start, 0, None)
    } else {
        let p = if across { (k - 1, 0) } else { (0, k - 1) };
        walk_step(walked(r, across, k - 1, start, light, dark), k - 1, rgb_at(r, p), light, dark)
    }
}

/// The interior runs of the two colours along the top row and then down the
/// left column: the first and last run of a line are cut off by the edge.
pub open spec fn board_runs(r: Raster, light: Seq<u8>, dark: Seq<u8>) -> Seq<u32> {
    let top = walked(r, true, r.width as int, Seq::empty(), light, dark).0;
    walked(r, false, r.height as int, top, light, dark).0
}

/// How many runs are at most `v` long.
pub open spec fn count_upto(s: Seq<u32>, v: int) -> int
    decreases s.len(),
{
    if s.len() == 0 { 0 } else { count_upto(s.drop_last(), v) + if s.last() <= v { 1int } else { 0int } }
}

/// How many runs are within one of `m`.
pub open spec fn near_count(s: Seq<u32>, m: int) -> int
    decreases s.len(),
{
    if s.len() == 0 {
        0
    } else {
        near_count(s.drop_last(), m) + if m - 1 <= s.last() <= m + 1 { 1int } else { 0int }
    }
}

/// `m` is the median run: the one at position `len / 2` once sorted.
pub open spec fn is_median_run(s: Seq<u32>, m: int) -> bool {
    count_upto(s, m - 1) <= s.len() / 2 < count_upto(s, m)
}

/// The square size the runs give: at least three runs, a median of 2-64
/// pixels, and three in four runs within a pixel of it. A two-tone logo
/// produces runs of every length; a drawn grid produces one.
pub open spec fn cell_from(s: Seq<u32>, m: int) -> bool {
    s.len() >= 3 && is_median_run(s, m) && 2 <= m <= 64 && near_count(s, m) * 4 >= s.len() * 3
}

/// The board a bitmap shows, as its light colour, dark colour and square
/// size, if any: both sides at least 16 px; two clusters of near-grey
/// colour covering at least 85% of the opaque border, the second seen at
/// least a sixth as often as the first, at least 12 levels apart; and a
/// regular grid of runs along the top row and left column.
pub open spec fn board_of(r: Raster, board: Option<(Seq<u8>, Seq<u8>, u32)>) -> bool {
    let w = r.width as int;
    let h = r.height as int;
    let (cl, total) = tallied(r, border_len(r));
    if w < 16 || h < 16 || total == 0 || cl.len() < 2 {
        board is None
    } else {
        forall|i1: int, i2: int|
            #![trigger is_top(cl, i1), is_second(cl, i1, i2)]
            is_top(cl, i1) && is_second(cl, i1, i2) ==> {
                let (first, a) = cl[i1];
                let (second, b) = cl[i2];
                if 100 * (a + b) < 85 * total || b * 6 < a || !neutral(first) || !neutral(second) || colour_distance(first, second) < 12 {
                    board is None
                } else {
                    let light = if luma_of(first) >= luma_of(second) { first } else { second };
                    let dark = if luma_of(first) >= luma_of(second) { second } else { first };
                    let runs = board_runs(r, light, dark);
                    match board {
                        Some(b) => b.0 == light && b.1 == dark && cell_from(runs, b.2 as int),
                        None => forall|m: int| !cell_from(runs, m),
                    }
                }
            }
    }
}

} // verus!

verus! {

/// The clusters as colours and counts.
pub open spec fn clusters_view(v: Seq<([u8; 3], usize)>) -> Seq<(Seq<u8>, int)> {
    v.map_values(|c: ([u8; 3], usize)| (c.0@, c.1 as int))
}

fn find_cluster(clusters: &Vec<([u8; 3], usize)>, rgb: [u8; 3]) -> (j: usize)
    ensures
        j == first_match(clusters_view(clusters@), rgb@, 0),
{
    let ghost cl = clusters_view(clusters@);
    let mut i: usize = 0;
    while i < clusters.len()
        invariant
            i <= clusters@.len(),
            cl == clusters_view(clusters@),
            first_match(cl, rgb@, i as int) == first_match(cl, rgb@, 0),
        decreases clusters@.len() - i,
    {
        let c = clusters[i].0;
        assert(cl[i as int].0 == c@);
        if grey_distance(c, rgb) <= BOARD_TOLERANCE {
            return i;
        }
        i = i + 1;
    }
    i
}

/// Tallies the opaque border pixels into colour clusters.
fn tally(bitmap: &Bitmap) -> (out: (Vec<([u8; 3], usize)>, usize))
    requires
        bitmap@.wf(),
        bitmap.width >= 1,
        bitmap.height >= 1,
        2 * (bitmap.width as int) + 2 * (bitmap.height as int) <= usize::MAX,
    ensures
        clusters_view(out.0@) == tallied(bitmap@, border_len(bitmap@)).0,
        out.1 == tallied(bitmap@, border_len(bitmap@)).1,
{
    let ghost r = bitmap@;
    let (w, h) = (bitmap.width, bitmap.height);
    let n = 2 * (w as usize) + 2 * (h as usize);
    let mut clusters: Vec<([u8; 3], usize)> = Vec::new();
    let mut total: usize = 0;
    let mut k: usize = 0;
    assert(clusters_view(clusters@) =~= Seq::<(Seq<u8>, int)>::empty());
    while k < n
        invariant
            r == bitmap@,
            r.wf(),
            w == bitmap.width,
            h == bitmap.height,
            w >= 1,
            h >= 1,
            n == border_len(r),
            k <= n,
            clusters_view(clusters@) == tallied(r, k as int).0,
            total == tallied(r, k as int).1,
            total <= k,
            forall|j: int| 0 <= j < clusters@.len() ==> (#[trigger] clusters@[j]).1 <= k,
        decreases n - k,
    {
        let (x, y) = border_pixel(w, h, k);
        let p = bitmap.pixel(x, y);
        if p[3] >= 250 {
            let rgb = [p[0], p[1], p[2]];
            assert(rgb@ =~= rgb_at(r, (x as int, y as int)));
            let j = find_cluster(&clusters, rgb);
            let ghost before = clusters@;
            if j < clusters.len() {
                let (c, m) = clusters[j];
                clusters.set(j, (c, m + 1));
                assert(clusters_view(clusters@) =~= clusters_view(before).update(j as int, (c@, m + 1)));
            } else {
                clusters.push((rgb, 1));
                assert(clusters_view(clusters@) =~= clusters_view(before).push((rgb@, 1)));
            }
            total = total + 1;
        }
        k = k + 1;
    }
    (clusters, total)
}

/// The most common cluster, the earliest among equals.
fn top_cluster(clusters: &Vec<([u8; 3], usize)>) -> (i: usize)
    requires
        clusters@.len() >= 1,
    ensures
        is_top(clusters_view(clusters@), i as int),
{
    let ghost cl = clusters_view(clusters@);
    let mut best: usize = 0;
    let mut i: usize = 1;
    while i < clusters.len()
        invariant
            cl == clusters_view(clusters@),
            1 <= i <= clusters@.len(),
            best < i,
            forall|j: int| 0 <= j < i ==> #[trigger] cl[j].1 <= cl[best as int].1,
            forall|j: int| 0 <= j < best ==> #[trigger] cl[j].1 < cl[best as int].1,
        decreases clusters@.len() - i,
    {
        if clusters[i].1 > clusters[best].1 {
            best = i;
        }
        i = i + 1;
    }
    best
}

/// The most common cluster other than `t`, the earliest among equals.
fn second_cluster(clusters: &Vec<([u8; 3], usize)>, t: usize) -> (i: usize)
    requires
        clusters@.len() >= 2,
        t < clusters@.len(),
    ensures
        is_second(clusters_view(clusters@), t as int, i as int),
{
    let ghost cl = clusters_view(clusters@);
    let first: usize = if t == 0 { 1 } else { 0 };
    let mut best: usize = first;
    let mut i: usize = first + 1;
    while i < clusters.len()
        invariant
            cl == clusters_view(clusters@),
            first == (if t == 0 { 1usize } else { 0usize }),
            first < i <= clusters@.len(),
            best < i,
            best != t,
            first <= best,
            forall|j: int| 0 <= j < i && j != t ==> #[trigger] cl[j].1 <= cl[best as int].1,
            forall|j: int| 0 <= j < best && j != t ==> #[trigger] cl[j].1 < cl[best as int].1,
        decreases clusters@.len() - i,
    {
        if i != t && clusters[i].1 > clusters[best].1 {
            best = i;
        }
        i = i + 1;
    }
    best
}

proof fn lemma_top_unique(cl: Seq<(Seq<u8>, int)>, i: int, j: int)
    requires
        is_top(cl, i),
        is_top(cl, j),
    ensures
        i == j,
{
    if i < j {
        assert(cl[i].1 < cl[j].1);
        assert(cl[i].1 <= cl[j].1);
        assert(cl[j].1 <= cl[i].1);
    } else if j < i {
        assert(cl[j].1 < cl[i].1);
        assert(cl[i].1 <= cl[j].1);
    }
}

proof fn lemma_second_unique(cl: Seq<(Seq<u8>, int)>, t: int, i: int, j: int)
    requires
        is_second(cl, t, i),
        is_second(cl, t, j),
    ensures
        i == j,
{
    if i < j {
        assert(cl[i].1 < cl[j].1);
        assert(cl[j].1 <= cl[i].1);
    } else if j < i {
        assert(cl[j].1 < cl[i].1);
        assert(cl[i].1 <= cl[j].1);
    }
}

} // verus!

verus! {

/// Walks the top row (`across`) or the left column, adding the interior runs
/// of the two colours to `runs`.
fn walk(bitmap: &Bitmap, across: bool, light: [u8; 3], dark: [u8; 3], runs: &mut Vec<u32>)
    requires
        bitmap@.wf(),
        bitmap.width >= 1,
        bitmap.height >= 1,
    ensures
        final(runs)@ == walked(
            bitmap@,
            across,
            if across { bitmap.width as int } else { bitmap.height as int },
            old(runs)@,
            light@,
            dark@,
        ).0,
{
    let ghost r = bitmap@;
    let ghost start = runs@;
    let length = if across { bitmap.width } else { bitmap.height };
    let mut run: u32 = 0;
    let mut current: Option<bool> = None;
    let mut i: u32 = 0;
    while i < length
        invariant
            r == bitmap@,
            r.wf(),
            length == (if across { bitmap.width } else { bitmap.height }),
            bitmap.width >= 1,
            bitmap.height >= 1,
            i <= length,
            run <= i,
            (runs@, run as int, current) == walked(r, across, i as int, start, light@, dark@),
        decreases length - i,
    {
        let p = if across { bitmap.pixel(i, 0) } else { bitmap.pixel(0, i) };
        let rgb = [p[0], p[1], p[2]];
        assert(rgb@ =~= rgb_at(r, if across { (i as int, 0) } else { (0, i as int) }));
        let is_light = grey_distance(rgb, light) <= BOARD_TOLERANCE;
        let is_dark = grey_distance(rgb, dark) <= BOARD_TOLERANCE;
        if !is_light && !is_dark {
            current = None;
            run = 0;
        } else if current == Some(is_light) {
            run = run + 1;
        } else {
            if run > 0 && i > run + 1 {
                runs.push(run);
            }
            current = Some(is_light);
            run = 1;
        }
        i = i + 1;
    }
}

proof fn lemma_count_mono(s: Seq<u32>, a: int, b: int)
    requires
        a <= b,
    ensures
        count_upto(s, a) <= count_upto(s, b),
        0 <= count_upto(s, a) <= s.len(),
        count_upto(s, -1) == 0,
    decreases s.len(),
{
    if s.len() > 0 {
        lemma_count_mono(s.drop_last(), a, b);
    }
}

proof fn lemma_median_unique(s: Seq<u32>, m1: int, m2: int)
    requires
        is_median_run(s, m1),
        is_median_run(s, m2),
    ensures
        m1 == m2,
{
    if m1 < m2 {
        lemma_count_mono(s, m1, m2 - 1);
    } else if m2 < m1 {
        lemma_count_mono(s, m2, m1 - 1);
    }
}

fn count_upto_exec(s: &Vec<u32>, v: u32) -> (c: usize)
    ensures
        c == count_upto(s@, v as int),
{
    let mut c: usize = 0;
    let mut i: usize = 0;
    while i < s.len()
        invariant
            i <= s@.len(),
            c == count_upto(s@.take(i as int), v as int),
            c <= i,
        decreases s@.len() - i,
    {
        assert(s@.take(i as int + 1).drop_last() =~= s@.take(i as int));
        if s[i] <= v {
            c = c + 1;
        }
        i = i + 1;
    }
    assert(s@.take(s@.len() as int) =~= s@);
    c
}

fn near_count_exec(s: &Vec<u32>, m: u32) -> (c: usize)
    ensures
        c == near_count(s@, m as int),
{
    let mut c: usize = 0;
    let mut i: usize = 0;
    while i < s.len()
        invariant
            i <= s@.len(),
            c == near_count(s@.take(i as int), m as int),
            c <= i,
        decreases s@.len() - i,
    {
        assert(s@.take(i as int + 1).drop_last() =~= s@.take(i as int));
        let e = s[i];
        if (e as u64) + 1 >= m as u64 && (e as u64) <= (m as u64) + 1 {
            c = c + 1;
        }
        i = i + 1;
    }
    assert(s@.take(s@.len() as int) =~= s@);
    c
}

/// The square size the runs give, given their median `m`.
fn cell_for(runs: &Vec<u32>, m: u32) -> (out: Option<u32>)
    requires
        runs@.len() >= 3,
        is_median_run(runs@, m as int),
    ensures
        match out {
            Some(c) => cell_from(runs@, c as int),
            None => forall|c: int| !#[trigger] cell_from(runs@, c),
        },
{
    proof {
        assert forall|m2: int| #[trigger] cell_from(runs@, m2) implies m2 == m by {
            lemma_median_unique(runs@, m as int, m2);
        }
    }
    if m < 2 || m > 64 {
        return None;
    }
    let near = near_count_exec(runs, m);
    if (near as u128) * 4 >= (runs.len() as u128) * 3 {
        Some(m)
    } else {
        None
    }
}

/// The square size the runs give, if they make a regular grid.
fn cell_size(runs: &Vec<u32>) -> (out: Option<u32>)
    ensures
        match out {
            Some(m) => cell_from(runs@, m as int),
            None => forall|m: int| !#[trigger] cell_from(runs@, m),
        },
{
    let n = runs.len();
    if n < 3 {
        return None;
    }
    let half = n / 2;
    let mut v: u32 = 0;
    while v <= 64
        invariant
            n == runs@.len(),
            n >= 3,
            half == n / 2,
            v <= 65,
            forall|u: int| 0 <= u < v ==> #[trigger] count_upto(runs@, u) <= half,
        decreases 65 - v,
    {
        let c = count_upto_exec(runs, v);
        if c > half {
            proof {
                lemma_count_mono(runs@, -1, v as int);
                if v > 0 {
                    assert(count_upto(runs@, v as int - 1) <= half);
                }
            }
            return cell_for(runs, v);
        }
        v = v + 1;
    }
    proof {
        assert forall|m: int| !#[trigger] cell_from(runs@, m) by {
            if 2 <= m <= 64 {
                assert(count_upto(runs@, m) <= half);
            }
        }
    }
    None
}

} // verus!

verus! {

/// Finds the transparency checkerboard, if the image is a screenshot of one.
///
/// Three things have to hold, each ruling out a different false positive:
/// two colours cover the border (a photograph does not), both are near
/// grey and one lighter than the other (a chequered shirt is not a board),
/// and they alternate on a regular grid (a two-tone logo does not). The
/// coverage and share ratios are compared exactly, in whole pixels.
pub fn detect_checkerboard(bitmap: &Bitmap) -> (out: Option<Checkerboard>)
    requires
        bitmap@.wf(),
        2 * (bitmap.width as int) + 2 * (bitmap.height as int) <= usize::MAX,
    ensures
        board_of(bitmap@, match out { Some(b) => Some((b.light@, b.dark@, b.cell)), None => None }),
{
    let ghost r = bitmap@;
    let (w, h) = (bitmap.width, bitmap.height);
    if w < 16 || h < 16 {
        return None;
    }
    let (clusters, total) = tally(bitmap);
    if total == 0 || clusters.len() < 2 {
        return None;
    }
    let ghost cl = clusters_view(clusters@);
    let i1 = top_cluster(&clusters);
    let i2 = second_cluster(&clusters, i1);
    let (first, a) = clusters[i1];
    let (second, b) = clusters[i2];
    proof {
        assert forall|j1: int, j2: int| #![trigger is_top(cl, j1), is_second(cl, j1, j2)] is_top(cl, j1) && is_second(cl, j1, j2) implies j1 == i1 && j2 == i2 by {
            lemma_top_unique(cl, j1, i1 as int);
            lemma_second_unique(cl, i1 as int, j2, i2 as int);
        }
        assert(cl[i1 as int] == (first@, a as int));
        assert(cl[i2 as int] == (second@, b as int));
    }
    if (a as u128 + b as u128) * 100 < (total as u128) * 85 {
        return None;
    }
    if (b as u128) * 6 < a as u128 {
        return None;
    }
    if !near_neutral(first) || !near_neutral(second) {
        return None;
    }
    if grey_distance(first, second) < 12 {
        return None;
    }
    let lighter = luma(first) >= luma(second);
    let light = if lighter { first } else { second };
    let dark = if lighter { second } else { first };
    let mut runs: Vec<u32> = Vec::new();
    walk(bitmap, true, light, dark, &mut runs);
    walk(bitmap, false, light, dark, &mut runs);
    assert(runs@ == board_runs(r, light@, dark@));
    match cell_size(&runs) {
        Some(cell) => Some(Checkerboard { light, dark, cell }),
        None => None,
    }
}

} // verus!

verus! {

/// An opaque pixel within the board tolerance of either square.
pub open spec fn on_board(r: Raster, board: Checkerboard, x: int, y: int) -> bool {
    r.alpha(x, y) >= 250 && (colour_distance(rgb_at(r, (x, y)), board.light@) <= BOARD_TOLERANCE || colour_distance(
        rgb_at(r, (x, y)),
        board.dark@,
    ) <= BOARD_TOLERANCE)
}

pub open spec fn flattened_at(r: Raster, board: Checkerboard, x: int, y: int, c: int) -> u8 {
    if on_board(r, board, x, y) {
        if c < 3 { board.light[c] } else { 255u8 }
    } else {
        r.at(x, y, c)
    }
}

/// The raster with every pixel of the board painted the lighter square's
/// colour, so that what lies behind the subject is one colour rather than two.
pub open spec fn flattened(r: Raster, board: Checkerboard) -> Raster {
    raster_from(r.width, r.height, |x: int, y: int, c: int| flattened_at(r, board, x, y, c))
}

/// Paints both squares of the board one colour, the lighter one.
///
/// Only opaque pixels within the board tolerance of a square change. A grey
/// patch in the middle of the subject is flattened too, but it stays where
/// it is: whether it is background is still decided by whether the flood
/// reaches it.
pub fn flatten_checkerboard(bitmap: &mut Bitmap, board: &Checkerboard)
    requires
        old(bitmap)@.wf(),
    ensures
        final(bitmap)@ == flattened(old(bitmap)@, *board),
        final(bitmap).width == old(bitmap).width,
        final(bitmap).height == old(bitmap).height,
{
    let ghost r = bitmap@;
    let ghost target = flattened(r, *board);
    let (w, h) = (bitmap.width, bitmap.height);
    let mut y: u32 = 0;
    while y < h
        invariant
            r.wf(),
            bitmap@.wf(),
            bitmap.width == w,
            bitmap.height == h,
            r.width == w,
            r.height == h,
            target == flattened(r, *board),
            y <= h,
            forall|xx: int, yy: int, c: int|
                #![trigger bitmap@.at(xx, yy, c)]
                0 <= xx < w && 0 <= yy < h && 0 <= c < 4 ==> bitmap@.at(xx, yy, c) == (if yy < y {
                    target.at(xx, yy, c)
                } else {
                    r.at(xx, yy, c)
                }),
        decreases h - y,
    {
        let mut x: u32 = 0;
        while x < w
            invariant
                r.wf(),
                bitmap@.wf(),
                bitmap.width == w,
                bitmap.height == h,
                r.width == w,
                r.height == h,
                target == flattened(r, *board),
                y < h,
                x <= w,
                forall|xx: int, yy: int, c: int|
                    #![trigger bitmap@.at(xx, yy, c)]
                    0 <= xx < w && 0 <= yy < h && 0 <= c < 4 ==> bitmap@.at(xx, yy, c) == (if yy < y || (yy == y
                        && xx < x) {
                        target.at(xx, yy, c)
                    } else {
                        r.at(xx, yy, c)
                    }),
            decreases w - x,
        {
            let pixel = bitmap.pixel(x, y);
            let rgb = [pixel[0], pixel[1], pixel[2]];
            proof {
                assert(rgb@ =~= rgb_at(r, (x as int, y as int)));
                assert forall|c: int| 0 <= c < 4 implies #[trigger] target.at(x as int, y as int, c) == flattened_at(
                    r,
                    *board,
                    x as int,
                    y as int,
                    c,
                ) by {
                    lemma_raster_from_at(r.width, r.height, |x: int, y: int, c: int| flattened_at(r, *board, x, y, c), x as int, y as int, c);
                }
            }
            if pixel[3] >= 250 && (grey_distance(rgb, board.light) <= BOARD_TOLERANCE || grey_distance(rgb, board.dark)
                <= BOARD_TOLERANCE) {
                bitmap.set_pixel(x, y, [board.light[0], board.light[1], board.light[2], 255]);
            }
            x = x + 1;
        }
        y = y + 1;
    }
    proof {
        if w > 0 && h > 0 {
            assert(target.wf()) by {
                lemma_raster_from_at(r.width, r.height, |x: int, y: int, c: int| flattened_at(r, *board, x, y, c), 0, 0, 0);
            }
            assert forall|xx: int, yy: int, c: int|
                #![trigger bitmap@.at(xx, yy, c)]
                #![trigger target.at(xx, yy, c)]
                bitmap@.in_bounds(xx, yy) && 0 <= c < 4 implies bitmap@.at(xx, yy, c) == target.at(xx, yy, c) by {}
            lemma_raster_ext(bitmap@, target);
        } else {
            assert(w as int * h as int == 0) by (nonlinear_arith)
                requires
                    w == 0 || h == 0,
            ;
            assert(bitmap@.bytes =~= target.bytes);
        }
    }
}

/// Flattening a second time changes nothing: a painted square is the light
/// colour, opaque, and so still a square, and everything else was left as
/// it was.
pub proof fn law_flattening_twice_is_flattening_once(r: Raster, board: Checkerboard)
    requires
        r.wf(),
    ensures
        flattened(flattened(r, board), board) == flattened(r, board),
{
    let f1 = flattened(r, board);
    let f2 = flattened(f1, board);
    let g1 = |x: int, y: int, c: int| flattened_at(r, board, x, y, c);
    let g2 = |x: int, y: int, c: int| flattened_at(f1, board, x, y, c);
    if r.width > 0 && r.height > 0 {
        lemma_raster_from_at(r.width, r.height, g1, 0, 0, 0);
        lemma_raster_from_at(f1.width, f1.height, g2, 0, 0, 0);
        assert forall|x: int, y: int, c: int|
            #![trigger f2.at(x, y, c)]
            #![trigger f1.at(x, y, c)]
            f2.in_bounds(x, y) && 0 <= c < 4 implies f2.at(x, y, c) == f1.at(x, y, c) by {
            lemma_raster_from_at(f1.width, f1.height, g2, x, y, c);
            lemma_raster_from_at(r.width, r.height, g1, x, y, 0);
            lemma_raster_from_at(r.width, r.height, g1, x, y, 1);
            lemma_raster_from_at(r.width, r.height, g1, x, y, 2);
            lemma_raster_from_at(r.width, r.height, g1, x, y, 3);
            lemma_raster_from_at(r.width, r.height, g1, x, y, c);
            if on_board(r, board, x, y) {
                assert(rgb_at(f1, (x, y)) =~= board.light@);
                assert(colour_distance(rgb_at(f1, (x, y)), board.light@) == 0);
            } else {
                assert(rgb_at(f1, (x, y)) =~= rgb_at(r, (x, y)));
            }
        }
        lemma_raster_ext(f2, f1);
    } else {
        assert(r.width as int * r.height as int == 0) by (nonlinear_arith)
            requires
                r.width == 0 || r.height == 0,
        ;
        assert(f2.bytes =~= f1.bytes);
    }
}

} // verus!
