//! Leftover background: islands of kept pixels small enough, and still close
//! enough to the background's colour, to be debris rather than artwork.
//!
//! A crumb is a property of a whole island, not of a pixel: its size is the
//! island's size, its colour the island's mean distance from the background.
//! Islands are eight-connected, so a diagonal chain of debris is one island
//! rather than a handful of survivors propping each other up.

use vstd::prelude::*;
use crate::bitmap::{Bitmap, Raster};
use crate::keying::{lemma_pixel_of, locate, pixel_of};
use crate::matte::{colour_distance, distance};
use crate::regions::{cell, grid, lemma_cell, lemma_cell_injective, lemma_grid_finite, stacked};

verus! {

/// The largest island that can still be a crumb, as a fraction of the
/// image: one part in this many.
pub const CRUMB_FRACTION: usize = 2000;

/// The smallest crumb limit, for images too small for the fraction to mean
/// anything.
pub const MIN_CRUMB: usize = 16;

/// `p` lies on the canvas and has not been cleared.
pub open spec fn kept(c: Seq<bool>, w: int, h: int, p: (int, int)) -> bool {
    0 <= p.0 < w && 0 <= p.1 < h && !c[cell(w, p.0, p.1)]
}

/// Two distinct pixels that share an edge or a corner.
pub open spec fn touching(p: (int, int), q: (int, int)) -> bool {
    p != q && -1 <= q.0 - p.0 <= 1 && -1 <= q.1 - p.1 <= 1
}

/// A walk from `p` to `q` through kept pixels, each step to a touching one.
pub open spec fn island_walk(c: Seq<bool>, w: int, h: int, path: Seq<(int, int)>, p: (int, int), q: (int, int)) -> bool {
    &&& path.len() >= 1
    &&& path[0] == p
    &&& path.last() == q
    &&& forall|i: int| 0 <= i < path.len() ==> kept(c, w, h, #[trigger] path[i])
    &&& forall|i: int| 0 <= i < path.len() - 1 ==> touching(#[trigger] path[i], path[i + 1])
}

/// `p` and `q` lie on one island.
pub open spec fn linked(c: Seq<bool>, w: int, h: int, p: (int, int), q: (int, int)) -> bool {
    exists|path: Seq<(int, int)>| #[trigger] island_walk(c, w, h, path, p, q)
}

/// How many of the first `k` pixels lie on the island of `p`.
pub open spec fn size_upto(c: Seq<bool>, w: int, h: int, p: (int, int), k: int) -> int
    decreases k,
{
    if k <= 0 {
        0
    } else {
        size_upto(c, w, h, p, k - 1) + if linked(c, w, h, p, pixel_of(w, k - 1)) { 1int } else { 0int }
    }
}

/// How many pixels the island of `p` holds.
pub open spec fn island_size(c: Seq<bool>, w: int, h: int, p: (int, int)) -> int {
    size_upto(c, w, h, p, w * h)
}

/// The summed distance from the background over the island's pixels among
/// the first `k`.
pub open spec fn drift_upto(r: Raster, bg: Seq<u8>, c: Seq<bool>, p: (int, int), k: int) -> int
    decreases k,
{
    if k <= 0 {
        0
    } else {
        let q = pixel_of(r.width as int, k - 1);
        drift_upto(r, bg, c, p, k - 1) + if linked(c, r.width as int, r.height as int, p, q) {
            colour_distance(r.pixel(q.0, q.1), bg)
        } else {
            0int
        }
    }
}

/// The summed distance from the background over the whole island of `p`.
pub open spec fn island_drift(r: Raster, bg: Seq<u8>, c: Seq<bool>, p: (int, int)) -> int {
    drift_upto(r, bg, c, p, (r.width * r.height) as int)
}

/// The size of the largest island met among the first `k` pixels.
pub open spec fn largest_upto(c: Seq<bool>, w: int, h: int, k: int) -> int
    decreases k,
{
    if k <= 0 {
        0
    } else {
        let p = pixel_of(w, k - 1);
        let s = if kept(c, w, h, p) { island_size(c, w, h, p) } else { 0 };
        let prev = largest_upto(c, w, h, k - 1);
        if s > prev { s } else { prev }
    }
}

/// The size of the largest island, or zero when nothing is kept.
pub open spec fn largest_island(c: Seq<bool>, w: int, h: int) -> int {
    largest_upto(c, w, h, w * h)
}

/// The largest island that can be a crumb, for an image of `n` pixels.
pub open spec fn crumb_limit(n: int) -> int {
    if n / CRUMB_FRACTION as int > MIN_CRUMB as int { n / CRUMB_FRACTION as int } else { MIN_CRUMB as int }
}

/// A kept pixel on a crumb: an island smaller than the largest (which is
/// never touched, whatever it measures), no bigger than the limit, and on
/// average within `soft` of the background colour.
pub open spec fn crumb(r: Raster, bg: Seq<u8>, soft: int, c: Seq<bool>, p: (int, int)) -> bool {
    let w = r.width as int;
    let h = r.height as int;
    &&& kept(c, w, h, p)
    &&& island_size(c, w, h, p) < largest_island(c, w, h)
    &&& island_size(c, w, h, p) <= crumb_limit(w * h)
    &&& island_drift(r, bg, c, p) / island_size(c, w, h, p) <= soft
}

/// The cleared pixels, together with every crumb.
pub open spec fn crumbs_swept(r: Raster, bg: Seq<u8>, soft: int, c: Seq<bool>) -> Seq<bool> {
    Seq::new(c.len(), |i: int| c[i] || crumb(r, bg, soft, c, pixel_of(r.width as int, i)))
}

proof fn lemma_linked_kept(c: Seq<bool>, w: int, h: int, p: (int, int), q: (int, int))
    requires
        linked(c, w, h, p, q),
    ensures
        kept(c, w, h, p),
        kept(c, w, h, q),
{
    let path = choose|path: Seq<(int, int)>| #[trigger] island_walk(c, w, h, path, p, q);
    assert(kept(c, w, h, path[0]));
    assert(kept(c, w, h, path[path.len() - 1]));
}

proof fn lemma_linked_self(c: Seq<bool>, w: int, h: int, p: (int, int))
    requires
        kept(c, w, h, p),
    ensures
        linked(c, w, h, p, p),
{
    assert(island_walk(c, w, h, seq![p], p, p));
}

proof fn lemma_linked_step(c: Seq<bool>, w: int, h: int, p: (int, int), a: (int, int), b: (int, int))
    requires
        linked(c, w, h, p, a),
        touching(a, b),
        kept(c, w, h, b),
    ensures
        linked(c, w, h, p, b),
{
    let path = choose|path: Seq<(int, int)>| #[trigger] island_walk(c, w, h, path, p, a);
    let longer = path.push(b);
    assert forall|i: int| 0 <= i < longer.len() implies kept(c, w, h, #[trigger] longer[i]) by {
        if i < path.len() {
            assert(longer[i] == path[i]);
        }
    }
    assert forall|i: int| 0 <= i < longer.len() - 1 implies touching(#[trigger] longer[i], longer[i + 1]) by {
        assert(longer[i] == path[i]);
        if i + 1 < path.len() {
            assert(longer[i + 1] == path[i + 1]);
        }
    }
    assert(island_walk(c, w, h, longer, p, b));
}

proof fn lemma_linked_symmetric(c: Seq<bool>, w: int, h: int, p: (int, int), q: (int, int))
    requires
        linked(c, w, h, p, q),
    ensures
        linked(c, w, h, q, p),
{
    let path = choose|path: Seq<(int, int)>| #[trigger] island_walk(c, w, h, path, p, q);
    let n = path.len() as int;
    let back = Seq::new(n as nat, |i: int| path[n - 1 - i]);
    assert forall|i: int| 0 <= i < back.len() implies kept(c, w, h, #[trigger] back[i]) by {
        assert(back[i] == path[n - 1 - i]);
    }
    assert forall|i: int| 0 <= i < back.len() - 1 implies touching(#[trigger] back[i], back[i + 1]) by {
        assert(back[i] == path[n - 1 - i]);
        assert(back[i + 1] == path[n - 2 - i]);
        assert(touching(path[n - 2 - i], path[n - 1 - i]));
    }
    assert(island_walk(c, w, h, back, q, p));
}

proof fn lemma_linked_transitive(c: Seq<bool>, w: int, h: int, p: (int, int), m: (int, int), q: (int, int))
    requires
        linked(c, w, h, p, m),
        linked(c, w, h, m, q),
    ensures
        linked(c, w, h, p, q),
{
    let a = choose|path: Seq<(int, int)>| #[trigger] island_walk(c, w, h, path, p, m);
    let b = choose|path: Seq<(int, int)>| #[trigger] island_walk(c, w, h, path, m, q);
    let joined = a + b.skip(1);
    assert forall|i: int| 0 <= i < joined.len() implies kept(c, w, h, #[trigger] joined[i]) by {
        if i < a.len() {
            assert(joined[i] == a[i]);
        } else {
            assert(joined[i] == b[i - a.len() + 1]);
        }
    }
    assert forall|i: int| 0 <= i < joined.len() - 1 implies touching(#[trigger] joined[i], joined[i + 1]) by {
        if i + 1 < a.len() {
            assert(joined[i] == a[i] && joined[i + 1] == a[i + 1]);
        } else if i + 1 == a.len() {
            assert(joined[i] == a[a.len() - 1]);
            assert(joined[i + 1] == b[1]);
            assert(b[0] == m);
            assert(touching(b[0], b[1]));
        } else {
            assert(joined[i] == b[i - a.len() + 1] && joined[i + 1] == b[i - a.len() + 2]);
        }
    }
    if b.len() == 1 {
        assert(joined =~= a);
    }
    assert(joined.last() == q);
    assert(island_walk(c, w, h, joined, p, q));
}

/// Every kept pixel touching `a` is in `m`.
pub open spec fn closed8(c: Seq<bool>, w: int, h: int, a: (int, int), m: Set<(int, int)>) -> bool {
    forall|b: (int, int)| #[trigger] touching(a, b) && kept(c, w, h, b) ==> m.contains(b)
}

proof fn lemma_closed_prefix8(
    c: Seq<bool>,
    w: int,
    h: int,
    m: Set<(int, int)>,
    path: Seq<(int, int)>,
    p: (int, int),
    q: (int, int),
    i: int,
)
    requires
        island_walk(c, w, h, path, p, q),
        m.contains(p),
        forall|a: (int, int)| #[trigger] m.contains(a) ==> closed8(c, w, h, a, m),
        0 <= i < path.len(),
    ensures
        m.contains(path[i]),
    decreases i,
{
    if i > 0 {
        lemma_closed_prefix8(c, w, h, m, path, p, q, i - 1);
        assert(closed8(c, w, h, path[i - 1], m));
        assert(touching(path[i - 1], path[i]));
        assert(kept(c, w, h, path[i]));
    }
}

/// A set holding `p` and closed under stepping to a touching kept pixel
/// holds the whole island of `p`.
proof fn lemma_closed_holds_island(c: Seq<bool>, w: int, h: int, m: Set<(int, int)>, p: (int, int), q: (int, int))
    requires
        m.contains(p),
        forall|a: (int, int)| #[trigger] m.contains(a) ==> closed8(c, w, h, a, m),
        linked(c, w, h, p, q),
    ensures
        m.contains(q),
{
    let path = choose|path: Seq<(int, int)>| #[trigger] island_walk(c, w, h, path, p, q);
    lemma_closed_prefix8(c, w, h, m, path, p, q, path.len() - 1);
}

} // verus!

verus! {

/// The `d`-th of the eight pixels around `(x, y)`, row by row.
pub open spec fn around8(x: int, y: int, d: int) -> (int, int) {
    let k = if d < 4 { d } else { d + 1 };
    (x + k % 3 - 1, y + k / 3 - 1)
}

fn step8(x: u32, y: u32, d: u32, w: u32, h: u32) -> (out: Option<(u32, u32)>)
    requires
        d < 8,
        x < w,
        y < h,
    ensures
        match out {
            Some(n) => (n.0 as int, n.1 as int) == around8(x as int, y as int, d as int) && n.0 < w && n.1 < h,
            None => {
                let n = around8(x as int, y as int, d as int);
                !(0 <= n.0 < w && 0 <= n.1 < h)
            },
        },
{
    let k = if d < 4 { d } else { d + 1 };
    let dx = k % 3;
    let dy = k / 3;
    if (dx == 0 && x == 0) || (dy == 0 && y == 0) {
        return None;
    }
    let nx = x as u64 + dx as u64 - 1;
    let ny = y as u64 + dy as u64 - 1;
    if nx >= w as u64 || ny >= h as u64 {
        None
    } else {
        Some((nx as u32, ny as u32))
    }
}

proof fn lemma_around8_touching(x: int, y: int, d: int)
    requires
        0 <= d < 8,
    ensures
        touching((x, y), around8(x, y, d)),
{
}

proof fn lemma_touching_is_around8(a: (int, int), b: (int, int))
    requires
        touching(a, b),
    ensures
        exists|d: int| 0 <= d < 8 && #[trigger] around8(a.0, a.1, d) == b,
{
    let dx = b.0 - a.0;
    let dy = b.1 - a.1;
    let k = (dy + 1) * 3 + (dx + 1);
    let d = if k < 4 { k } else { k - 1 };
    assert(around8(a.0, a.1, d) == b);
}

/// Every label names the seed of an island the pixel lies on, and every
/// seed's island is labelled in full.
pub open spec fn labelled_well(c: Seq<bool>, w: int, h: int, labels: Seq<usize>, seeds: Seq<(int, int)>) -> bool {
    &&& labels.len() == w * h
    &&& forall|j: int|
        0 <= j < w * h && #[trigger] labels[j] > 0 ==> labels[j] <= seeds.len() && linked(
            c,
            w,
            h,
            seeds[labels[j] - 1],
            pixel_of(w, j),
        )
    &&& forall|l: int, q: (int, int)|
        0 <= l < seeds.len() && #[trigger] linked(c, w, h, seeds[l], q) ==> labels[cell(w, q.0, q.1)] == l + 1
}

/// A kept pixel touching the island of an unlabelled seed carries no label
/// yet: were it labelled, the seed would lie on the same island and carry
/// the label too.
proof fn lemma_no_foreign_label(
    c: Seq<bool>,
    w: int,
    h: int,
    labels: Seq<usize>,
    seeds: Seq<(int, int)>,
    seed: (int, int),
    a: (int, int),
    b: (int, int),
)
    requires
        labelled_well(c, w, h, labels, seeds),
        0 <= seed.0 < w,
        0 <= seed.1 < h,
        labels[cell(w, seed.0, seed.1)] == 0,
        linked(c, w, h, seed, a),
        touching(a, b),
        kept(c, w, h, b),
    ensures
        labels[cell(w, b.0, b.1)] == 0,
{
    lemma_cell(w, h, b.0, b.1);
    let j = cell(w, b.0, b.1);
    if labels[j] > 0 {
        lemma_pixel_of(w, h, j);
        lemma_cell_injective(w, h, pixel_of(w, j).0, pixel_of(w, j).1, b.0, b.1);
        let l = labels[j] - 1;
        assert(linked(c, w, h, seeds[l], b));
        lemma_linked_step(c, w, h, seed, a, b);
        lemma_linked_symmetric(c, w, h, seed, b);
        lemma_linked_transitive(c, w, h, seeds[l], b, seed);
        assert(labels[cell(w, seed.0, seed.1)] == l + 1);
    }
}

/// Labels the whole island of `(x, y)`, a kept pixel with no label yet,
/// with `tag`, the next label. Iterative: an island can be a million pixels.
fn fill_island(
    cleared: &Vec<bool>,
    w: u32,
    h: u32,
    labels: &mut Vec<usize>,
    x: u32,
    y: u32,
    tag: usize,
    Ghost(seeds): Ghost<Seq<(int, int)>>,
)
    requires
        cleared@.len() == w * h,
        labelled_well(cleared@, w as int, h as int, old(labels)@, seeds),
        tag == seeds.len() + 1,
        x < w,
        y < h,
        !cleared@[cell(w as int, x as int, y as int)],
        old(labels)@[cell(w as int, x as int, y as int)] == 0,
    ensures
        labelled_well(cleared@, w as int, h as int, final(labels)@, seeds.push((x as int, y as int))),
        forall|j: int| 0 <= j < w * h && #[trigger] old(labels)@[j] > 0 ==> final(labels)@[j] == old(labels)@[j],
        final(labels)@[cell(w as int, x as int, y as int)] == tag,
{
    let ghost c = cleared@;
    let ghost gw = w as int;
    let ghost gh = h as int;
    let ghost before = labels@;
    let ghost seed = (x as int, y as int);
    let n = labels.len();
    proof {
        lemma_cell(gw, gh, seed.0, seed.1);
        lemma_grid_finite(gw, gh);
        lemma_linked_self(c, gw, gh, seed);
    }
    let i0 = (y as usize) * (w as usize) + (x as usize);
    labels.set(i0, tag);
    let mut stack: Vec<(u32, u32)> = Vec::new();
    stack.push((x, y));
    let ghost mut m: Set<(int, int)> = Set::empty().insert(seed);
    proof {
        assert forall|px: int, py: int| 0 <= px < gw && 0 <= py < gh implies #[trigger] labels@[cell(gw, px, py)] == (if m.contains(
            (px, py),
        ) {
            tag
        } else {
            before[cell(gw, px, py)]
        }) by {
            lemma_cell(gw, gh, px, py);
            if (px, py) != seed {
                if cell(gw, px, py) == cell(gw, seed.0, seed.1) {
                    lemma_cell_injective(gw, gh, px, py, seed.0, seed.1);
                }
            }
        }
        assert(stack@[0] == (x, y));
        assert forall|a: (int, int)| #[trigger] m.contains(a) implies stacked(stack@, a) || closed8(c, gw, gh, a, m) by {
            assert(stack@[0].0 as int == a.0 && stack@[0].1 as int == a.1);
        }
    }
    while stack.len() > 0
        invariant
            c == cleared@,
            gw == w,
            gh == h,
            n == gw * gh,
            c.len() == n,
            labelled_well(c, gw, gh, before, seeds),
            tag == seeds.len() + 1,
            0 <= seed.0 < gw,
            0 <= seed.1 < gh,
            before[cell(gw, seed.0, seed.1)] == 0,
            labels@.len() == n,
            grid(gw, gh).finite(),
            m.finite(),
            m.subset_of(grid(gw, gh)),
            m.contains(seed),
            forall|px: int, py: int|
                0 <= px < gw && 0 <= py < gh ==> #[trigger] labels@[cell(gw, px, py)] == (if m.contains((px, py)) {
                    tag
                } else {
                    before[cell(gw, px, py)]
                }),
            forall|q: (int, int)| #[trigger] m.contains(q) ==> linked(c, gw, gh, seed, q),
            forall|j: int|
                0 <= j < stack@.len() ==> (#[trigger] stack@[j]).0 < w && stack@[j].1 < h && m.contains(
                    (stack@[j].0 as int, stack@[j].1 as int),
                ),
            forall|a: (int, int)| #[trigger] m.contains(a) ==> stacked(stack@, a) || closed8(c, gw, gh, a, m),
        decreases stack@.len() + 9 * grid(gw, gh).difference(m).len(),
    {
        let ghost stack0 = stack@;
        let ghost m0 = m;
        let ghost measure0 = stack@.len() + 9 * grid(gw, gh).difference(m).len();
        let top = stack.pop();
        let (cx, cy) = match top {
            Some(t) => t,
            None => (0, 0),
        };
        let ghost a = (cx as int, cy as int);
        let ghost popped = stack@;
        proof {
            assert(stack0[stack0.len() - 1] == (cx, cy));
            assert(m.contains(a));
        }
        let mut d: u32 = 0;
        while d < 8
            invariant
                c == cleared@,
                gw == w,
                gh == h,
                n == gw * gh,
                c.len() == n,
                labelled_well(c, gw, gh, before, seeds),
                tag == seeds.len() + 1,
                0 <= seed.0 < gw,
                0 <= seed.1 < gh,
                before[cell(gw, seed.0, seed.1)] == 0,
                labels@.len() == n,
                cx < w,
                cy < h,
                a == (cx as int, cy as int),
                d <= 8,
                grid(gw, gh).finite(),
                m.finite(),
                m.subset_of(grid(gw, gh)),
                m0.subset_of(m),
                m.contains(a),
                m.contains(seed),
                stack@.len() >= popped.len(),
                stack@.take(popped.len() as int) == popped,
                stack@.len() + 9 * grid(gw, gh).difference(m).len() < measure0,
                forall|px: int, py: int|
                    0 <= px < gw && 0 <= py < gh ==> #[trigger] labels@[cell(gw, px, py)] == (if m.contains((px, py)) {
                        tag
                    } else {
                        before[cell(gw, px, py)]
                    }),
                forall|q: (int, int)| #[trigger] m.contains(q) ==> linked(c, gw, gh, seed, q),
                forall|j: int|
                    0 <= j < stack@.len() ==> (#[trigger] stack@[j]).0 < w && stack@[j].1 < h && m.contains(
                        (stack@[j].0 as int, stack@[j].1 as int),
                    ),
                forall|q: (int, int)| #[trigger] m.contains(q) && !m0.contains(q) ==> stacked(stack@, q),
                forall|e: int|
                    0 <= e < d ==> (kept(c, gw, gh, around8(a.0, a.1, e)) ==> #[trigger] m.contains(around8(a.0, a.1, e))),
            decreases 8 - d,
        {
            let next = step8(cx, cy, d, w, h);
            match next {
                Some((nx, ny)) => {
                    let ghost nb = (nx as int, ny as int);
                    proof {
                        lemma_cell(gw, gh, nb.0, nb.1);
                        lemma_around8_touching(a.0, a.1, d as int);
                    }
                    let i = (ny as usize) * (w as usize) + (nx as usize);
                    if !cleared[i] && labels[i] == 0 {
                        let ghost labels1 = labels@;
                        let ghost stack1 = stack@;
                        let ghost m1 = m;
                        labels.set(i, tag);
                        stack.push((nx, ny));
                        proof {
                            m = m1.insert(nb);
                            assert(!m1.contains(nb));
                            assert(grid(gw, gh).contains(nb));
                            grid(gw, gh).lemma_set_insert_diff_decreases(m1, nb);
                            lemma_linked_step(c, gw, gh, seed, a, nb);
                            assert forall|px: int, py: int| 0 <= px < gw && 0 <= py < gh implies #[trigger] labels@[cell(
                                gw,
                                px,
                                py,
                            )] == (if m.contains((px, py)) {
                                tag
                            } else {
                                before[cell(gw, px, py)]
                            }) by {
                                lemma_cell(gw, gh, px, py);
                                if (px, py) != nb {
                                    if cell(gw, px, py) == cell(gw, nb.0, nb.1) {
                                        lemma_cell_injective(gw, gh, px, py, nb.0, nb.1);
                                    }
                                    assert(labels@[cell(gw, px, py)] == labels1[cell(gw, px, py)]);
                                }
                            }
                            assert(stack@[stack@.len() - 1] == (nx, ny));
                            assert forall|j: int| 0 <= j < stack@.len() implies (#[trigger] stack@[j]).0 < w && stack@[j].1 < h
                                && m.contains((stack@[j].0 as int, stack@[j].1 as int)) by {
                                if j < stack1.len() {
                                    assert(stack@[j] == stack1[j]);
                                }
                            }
                            assert forall|q: (int, int)| #[trigger] m.contains(q) && !m0.contains(q) implies stacked(stack@, q) by {
                                if q == nb {
                                    assert(stack@[stack@.len() - 1].0 as int == q.0 && stack@[stack@.len() - 1].1 as int == q.1);
                                } else {
                                    assert(stacked(stack1, q));
                                    let j = choose|j: int| 0 <= j < stack1.len() && (#[trigger] stack1[j]).0 as int == q.0 && stack1[j].1 as int == q.1;
                                    assert(stack@[j] == stack1[j]);
                                }
                            }
                            assert(stack@.take(popped.len() as int) =~= stack1.take(popped.len() as int));
                        }
                    } else {
                        proof {
                            if kept(c, gw, gh, nb) && !m.contains(nb) {
                                assert(labels@[cell(gw, nb.0, nb.1)] == before[cell(gw, nb.0, nb.1)]);
                                lemma_no_foreign_label(c, gw, gh, before, seeds, seed, a, nb);
                            }
                        }
                    }
                    proof {
                        assert forall|e: int| 0 <= e < d + 1 implies (kept(c, gw, gh, around8(a.0, a.1, e)) ==> #[trigger] m.contains(
                            around8(a.0, a.1, e),
                        )) by {}
                    }
                },
                None => {},
            }
            d = d + 1;
        }
        proof {
            assert(closed8(c, gw, gh, a, m)) by {
                assert forall|b: (int, int)| #[trigger] touching(a, b) && kept(c, gw, gh, b) implies m.contains(b) by {
                    lemma_touching_is_around8(a, b);
                    let e = choose|e: int| 0 <= e < 8 && #[trigger] around8(a.0, a.1, e) == b;
                    assert(kept(c, gw, gh, around8(a.0, a.1, e)));
                }
            }
            assert forall|q: (int, int)| #[trigger] m.contains(q) implies stacked(stack@, q) || closed8(c, gw, gh, q, m) by {
                if !m0.contains(q) {
                } else if q == a {
                } else if stacked(stack0, q) {
                    let j = choose|j: int| 0 <= j < stack0.len() && (#[trigger] stack0[j]).0 as int == q.0 && stack0[j].1 as int == q.1;
                    assert(j < stack0.len() - 1);
                    assert(popped[j] == stack0[j]);
                    assert(stack@.take(popped.len() as int)[j] == popped[j]);
                    assert(stack@[j] == stack0[j]);
                } else {
                    assert(closed8(c, gw, gh, q, m0));
                    assert forall|b: (int, int)| #[trigger] touching(q, b) && kept(c, gw, gh, b) implies m.contains(b) by {
                        assert(m0.contains(b));
                    }
                }
            }
        }
    }
    proof {
        assert forall|a: (int, int)| #[trigger] m.contains(a) implies closed8(c, gw, gh, a, m) by {
            assert(!stacked(stack@, a));
        }
        assert forall|q: (int, int)| m.contains(q) <==> linked(c, gw, gh, seed, q) by {
            if linked(c, gw, gh, seed, q) {
                lemma_closed_holds_island(c, gw, gh, m, seed, q);
            }
        }
        let seeds2 = seeds.push(seed);
        let fin = labels@;
        assert forall|j: int| 0 <= j < gw * gh && #[trigger] fin[j] > 0 implies fin[j] <= seeds2.len() && linked(
            c,
            gw,
            gh,
            seeds2[fin[j] - 1],
            pixel_of(gw, j),
        ) by {
            lemma_pixel_of(gw, gh, j);
            let p = pixel_of(gw, j);
            if m.contains(p) {
                assert(seeds2[tag - 1] == seed);
            } else {
                assert(before[j] > 0);
                assert(seeds2[before[j] - 1] == seeds[before[j] - 1]);
            }
        }
        assert forall|l: int, q: (int, int)| 0 <= l < seeds2.len() && #[trigger] linked(c, gw, gh, seeds2[l], q) implies fin[cell(
            gw,
            q.0,
            q.1,
        )] == l + 1 by {
            lemma_linked_kept(c, gw, gh, seeds2[l], q);
            if l == seeds.len() {
                assert(seeds2[l] == seed);
            } else {
                assert(seeds2[l] == seeds[l]);
                assert(before[cell(gw, q.0, q.1)] == l + 1);
                if m.contains(q) {
                    lemma_linked_symmetric(c, gw, gh, seed, q);
                    lemma_linked_transitive(c, gw, gh, seeds[l], q, seed);
                    assert(before[cell(gw, seed.0, seed.1)] == l + 1);
                }
            }
        }
        assert forall|j: int| 0 <= j < gw * gh && #[trigger] before[j] > 0 implies fin[j] == before[j] by {
            lemma_pixel_of(gw, gh, j);
            let p = pixel_of(gw, j);
            if m.contains(p) {
                lemma_linked_symmetric(c, gw, gh, seed, p);
                lemma_linked_transitive(c, gw, gh, seeds[before[j] - 1], p, seed);
                assert(before[cell(gw, seed.0, seed.1)] == before[j]);
            }
        }
    }
}

/// Labels every island of kept pixels 1, 2, and so on, in the order their
/// first pixels come in reading order; cleared pixels are labelled 0. Two
/// kept pixels carry one label exactly when they lie on one island.
fn label_islands(cleared: &Vec<bool>, w: u32, h: u32) -> (out: (Vec<usize>, usize))
    requires
        cleared@.len() == w * h,
    ensures
        out.0@.len() == w * h,
        forall|j: int| 0 <= j < w * h ==> (#[trigger] out.0@[j] > 0) == !cleared@[j],
        forall|j: int| 0 <= j < w * h ==> #[trigger] out.0@[j] <= out.1,
        forall|j: int, k: int|
            #![trigger out.0@[j], out.0@[k]]
            0 <= j < w * h && 0 <= k < w * h && out.0@[j] > 0 ==> ((out.0@[k] == out.0@[j]) == linked(
                cleared@,
                w as int,
                h as int,
                pixel_of(w as int, j),
                pixel_of(w as int, k),
            )),
{
    let ghost c = cleared@;
    let ghost gw = w as int;
    let ghost gh = h as int;
    let n = cleared.len();
    let mut labels: Vec<usize> = vec![0usize; n];
    let mut count: usize = 0;
    let ghost mut seeds: Seq<(int, int)> = Seq::empty();
    let mut i: usize = 0;
    while i < n
        invariant
            c == cleared@,
            gw == w,
            gh == h,
            n == gw * gh,
            c.len() == n,
            i <= n,
            labelled_well(c, gw, gh, labels@, seeds),
            count == seeds.len(),
            count <= i,
            forall|j: int| 0 <= j < i && !c[j] ==> #[trigger] labels@[j] > 0,
        decreases n - i,
    {
        let (x, y) = locate(i, w, h);
        if !cleared[i] && labels[i] == 0 {
            let ghost before = labels@;
            fill_island(cleared, w, h, &mut labels, x, y, count + 1, Ghost(seeds));
            proof {
                seeds = seeds.push((x as int, y as int));
                assert forall|j: int| 0 <= j < i + 1 && !c[j] implies #[trigger] labels@[j] > 0 by {
                    if j < i {
                        assert(before[j] > 0);
                    }
                }
            }
            count = count + 1;
        }
        i = i + 1;
    }
    proof {
        assert forall|j: int| 0 <= j < gw * gh implies (#[trigger] labels@[j] > 0) == !c[j] by {
            if labels@[j] > 0 {
                lemma_pixel_of(gw, gh, j);
                lemma_linked_kept(c, gw, gh, seeds[labels@[j] - 1], pixel_of(gw, j));
            }
        }
        assert forall|j: int, k: int|
            #![trigger labels@[j], labels@[k]]
            0 <= j < gw * gh && 0 <= k < gw * gh && labels@[j] > 0 implies ((labels@[k] == labels@[j]) == linked(
                c,
                gw,
                gh,
                pixel_of(gw, j),
                pixel_of(gw, k),
            )) by {
            lemma_pixel_of(gw, gh, j);
            lemma_pixel_of(gw, gh, k);
            let l = labels@[j] - 1;
            let pj = pixel_of(gw, j);
            let pk = pixel_of(gw, k);
            assert(linked(c, gw, gh, seeds[l], pj));
            if labels@[k] == labels@[j] {
                assert(linked(c, gw, gh, seeds[l], pk));
                lemma_linked_symmetric(c, gw, gh, seeds[l], pj);
                lemma_linked_transitive(c, gw, gh, pj, seeds[l], pk);
            }
            if linked(c, gw, gh, pj, pk) {
                lemma_linked_transitive(c, gw, gh, seeds[l], pj, pk);
                assert(labels@[cell(gw, pk.0, pk.1)] == l + 1);
            }
        }
    }
    (labels, count)
}

/// How many of the first `k` labels are `t`.
pub open spec fn label_count(labels: Seq<usize>, t: int, k: int) -> int
    decreases k,
{
    if k <= 0 {
        0
    } else {
        label_count(labels, t, k - 1) + if labels[k - 1] == t { 1int } else { 0int }
    }
}

/// The summed distance from the background over the first `k` pixels
/// labelled `t`.
pub open spec fn label_drift(r: Raster, bg: Seq<u8>, labels: Seq<usize>, t: int, k: int) -> int
    decreases k,
{
    if k <= 0 {
        0
    } else {
        let q = pixel_of(r.width as int, k - 1);
        label_drift(r, bg, labels, t, k - 1) + if labels[k - 1] == t { colour_distance(r.pixel(q.0, q.1), bg) } else { 0int }
    }
}

proof fn lemma_label_bounds(r: Raster, bg: Seq<u8>, labels: Seq<usize>, t: int, k: int)
    requires
        k >= 0,
    ensures
        0 <= label_count(labels, t, k) <= k,
        0 <= label_drift(r, bg, labels, t, k) <= 255 * k,
    decreases k,
{
    if k > 0 {
        lemma_label_bounds(r, bg, labels, t, k - 1);
        let q = pixel_of(r.width as int, k - 1);
        assert(0 <= colour_distance(r.pixel(q.0, q.1), bg) <= 255);
    }
}

proof fn lemma_count_is_size(c: Seq<bool>, w: int, h: int, labels: Seq<usize>, t: int, p: (int, int), k: int)
    requires
        k >= 0,
        forall|i: int| 0 <= i < k ==> (#[trigger] labels[i] == t) == linked(c, w, h, p, pixel_of(w, i)),
    ensures
        label_count(labels, t, k) == size_upto(c, w, h, p, k),
    decreases k,
{
    if k > 0 {
        lemma_count_is_size(c, w, h, labels, t, p, k - 1);
        assert((labels[k - 1] == t) == linked(c, w, h, p, pixel_of(w, k - 1)));
    }
}

proof fn lemma_drift_is_island(r: Raster, bg: Seq<u8>, c: Seq<bool>, labels: Seq<usize>, t: int, p: (int, int), k: int)
    requires
        k >= 0,
        forall|i: int|
            0 <= i < k ==> (#[trigger] labels[i] == t) == linked(c, r.width as int, r.height as int, p, pixel_of(r.width as int, i)),
    ensures
        label_drift(r, bg, labels, t, k) == drift_upto(r, bg, c, p, k),
    decreases k,
{
    if k > 0 {
        lemma_drift_is_island(r, bg, c, labels, t, p, k - 1);
        assert((labels[k - 1] == t) == linked(c, r.width as int, r.height as int, p, pixel_of(r.width as int, k - 1)));
    }
}

/// How many pixels carry each label, and their summed distance from the
/// background: entry `t` is for label `t + 1`.
fn island_totals(bitmap: &Bitmap, background: [u8; 4], labels: &Vec<usize>, count: usize) -> (out: (Vec<usize>, Vec<u128>))
    requires
        bitmap@.wf(),
        labels@.len() == bitmap.width * bitmap.height,
        forall|j: int| 0 <= j < labels@.len() ==> #[trigger] labels@[j] <= count,
    ensures
        out.0@.len() == count,
        out.1@.len() == count,
        forall|t: int| 0 <= t < count ==> #[trigger] out.0@[t] == label_count(labels@, t + 1, labels@.len() as int),
        forall|t: int|
            0 <= t < count ==> #[trigger] out.1@[t] == label_drift(bitmap@, background@, labels@, t + 1, labels@.len() as int),
{
    let ghost r = bitmap@;
    let (w, h) = (bitmap.width, bitmap.height);
    let n = labels.len();
    let mut sizes: Vec<usize> = vec![0usize; count];
    let mut drifts: Vec<u128> = vec![0u128; count];
    let mut i: usize = 0;
    while i < n
        invariant
            r == bitmap@,
            r.wf(),
            w == bitmap.width,
            h == bitmap.height,
            n == labels@.len(),
            n == w * h,
            i <= n,
            forall|j: int| 0 <= j < labels@.len() ==> #[trigger] labels@[j] <= count,
            sizes@.len() == count,
            drifts@.len() == count,
            forall|t: int| 0 <= t < count ==> #[trigger] sizes@[t] == label_count(labels@, t + 1, i as int),
            forall|t: int| 0 <= t < count ==> #[trigger] drifts@[t] == label_drift(r, background@, labels@, t + 1, i as int),
        decreases n - i,
    {
        let l = labels[i];
        if l > 0 {
            let (x, y) = locate(i, w, h);
            let d = distance(bitmap.pixel(x, y), background);
            let t = l - 1;
            proof {
                lemma_label_bounds(r, background@, labels@, l as int, i as int);
                assert(i as int * 255 < 0x1_0000_0000_0000_0000 * 255) by (nonlinear_arith)
                    requires
                        i < 0x1_0000_0000_0000_0000,
                ;
            }
            let s = sizes[t];
            let dr = drifts[t];
            sizes.set(t, s + 1);
            drifts.set(t, dr + d as u128);
        }
        proof {
            assert forall|t: int| 0 <= t < count implies #[trigger] sizes@[t] == label_count(labels@, t + 1, i + 1) by {}
            assert forall|t: int| 0 <= t < count implies #[trigger] drifts@[t] == label_drift(
                r,
                background@,
                labels@,
                t + 1,
                i + 1,
            ) by {}
        }
        i = i + 1;
    }
    (sizes, drifts)
}

proof fn lemma_count_positive(labels: Seq<usize>, t: int, k: int, j: int)
    requires
        0 <= j < k,
        labels[j] == t,
    ensures
        label_count(labels, t, k) >= 1,
    decreases k,
{
    if j < k - 1 {
        lemma_count_positive(labels, t, k - 1, j);
    }
    lemma_label_bounds(Raster { width: 0, height: 0, bytes: Seq::empty() }, Seq::empty(), labels, t, k - 1);
}

/// Clears the small islands of kept pixels that are still the background:
/// each island smaller than the largest, no bigger than the crumb limit, and
/// on average within `soft` of the background colour. The largest island is
/// never touched, whatever it measures: on a small image with a small
/// subject it can pass both tests, and clearing the subject is worse than
/// leaving a speck.
pub fn remove_crumbs(bitmap: &Bitmap, cleared: &mut Vec<bool>, background: [u8; 4], soft: i32)
    requires
        bitmap@.wf(),
        old(cleared)@.len() == bitmap.width * bitmap.height,
    ensures
        final(cleared)@ == crumbs_swept(bitmap@, background@, soft as int, old(cleared)@),
{
    let ghost r = bitmap@;
    let ghost c = cleared@;
    let ghost bg = background@;
    let ghost gw = bitmap.width as int;
    let ghost gh = bitmap.height as int;
    let (w, h) = (bitmap.width, bitmap.height);
    let n = cleared.len();
    let (labels, count) = label_islands(cleared, w, h);
    let (sizes, drifts) = island_totals(bitmap, background, &labels, count);
    proof {
        assert forall|j: int| 0 <= j < n && #[trigger] labels@[j] > 0 implies sizes@[labels@[j] - 1] == island_size(
            c,
            gw,
            gh,
            pixel_of(gw, j),
        ) && drifts@[labels@[j] - 1] == island_drift(r, bg, c, pixel_of(gw, j)) && sizes@[labels@[j] - 1] >= 1
            && drifts@[labels@[j] - 1] >= 0 by {
            let t = labels@[j] as int;
            assert forall|k: int| 0 <= k < n implies (#[trigger] labels@[k] == t) == linked(
                c,
                gw,
                gh,
                pixel_of(gw, j),
                pixel_of(gw, k),
            ) by {
                assert(labels@[j] > 0);
            }
            lemma_count_is_size(c, gw, gh, labels@, t, pixel_of(gw, j), n as int);
            lemma_drift_is_island(r, bg, c, labels@, t, pixel_of(gw, j), n as int);
            lemma_count_positive(labels@, t, n as int, j);
        }
    }
    let mut largest: usize = 0;
    let mut i: usize = 0;
    while i < n
        invariant
            c == cleared@,
            gw == w,
            gh == h,
            n == gw * gh,
            c.len() == n,
            labels@.len() == n,
            sizes@.len() == count,
            i <= n,
            forall|j: int| 0 <= j < n ==> (#[trigger] labels@[j] > 0) == !c[j],
            forall|j: int| 0 <= j < n ==> #[trigger] labels@[j] <= count,
            forall|j: int|
                0 <= j < n && #[trigger] labels@[j] > 0 ==> sizes@[labels@[j] - 1] == island_size(c, gw, gh, pixel_of(gw, j)),
            largest == largest_upto(c, gw, gh, i as int),
        decreases n - i,
    {
        proof {
            lemma_pixel_of(gw, gh, i as int);
        }
        if labels[i] > 0 {
            let s = sizes[labels[i] - 1];
            if s > largest {
                largest = s;
            }
        }
        i = i + 1;
    }
    let limit = if n / CRUMB_FRACTION > MIN_CRUMB { n / CRUMB_FRACTION } else { MIN_CRUMB };
    let mut next: Vec<bool> = Vec::new();
    let mut k: usize = 0;
    while k < n
        invariant
            r == bitmap@,
            c == cleared@,
            bg == background@,
            gw == w,
            gh == h,
            gw == r.width,
            gh == r.height,
            n == gw * gh,
            c.len() == n,
            labels@.len() == n,
            sizes@.len() == count,
            drifts@.len() == count,
            k <= n,
            largest == largest_island(c, gw, gh),
            limit == crumb_limit(n as int),
            forall|j: int| 0 <= j < n ==> (#[trigger] labels@[j] > 0) == !c[j],
            forall|j: int| 0 <= j < n ==> #[trigger] labels@[j] <= count,
            forall|j: int|
                0 <= j < n && #[trigger] labels@[j] > 0 ==> sizes@[labels@[j] - 1] == island_size(c, gw, gh, pixel_of(gw, j))
                    && drifts@[labels@[j] - 1] == island_drift(r, bg, c, pixel_of(gw, j)) && sizes@[labels@[j] - 1] >= 1
                    && drifts@[labels@[j] - 1] >= 0,
            next@.len() == k,
            forall|j: int| 0 <= j < k ==> next@[j] == #[trigger] crumbs_swept(r, bg, soft as int, c)[j],
        decreases n - k,
    {
        proof {
            lemma_pixel_of(gw, gh, k as int);
        }
        let mut v = cleared[k];
        if !v {
            let t = labels[k] - 1;
            let s = sizes[t];
            let mean = drifts[t] / (s as u128);
            v = s < largest && s <= limit && soft >= 0 && mean <= soft as u128;
        }
        next.push(v);
        k = k + 1;
    }
    proof {
        assert(next@ =~= crumbs_swept(r, bg, soft as int, c));
    }
    *cleared = next;
}

/// The largest island is never swept, whatever it measures, and a pixel
/// already cleared stays cleared.
pub proof fn law_the_largest_island_stays(r: Raster, bg: Seq<u8>, soft: int, c: Seq<bool>, p: (int, int))
    requires
        kept(c, r.width as int, r.height as int, p),
        island_size(c, r.width as int, r.height as int, p) >= largest_island(c, r.width as int, r.height as int),
        c.len() == r.width * r.height,
    ensures
        !crumbs_swept(r, bg, soft, c)[cell(r.width as int, p.0, p.1)],
{
    let w = r.width as int;
    let h = r.height as int;
    lemma_cell(w, h, p.0, p.1);
    let i = cell(w, p.0, p.1);
    lemma_pixel_of(w, h, i);
    lemma_cell_injective(w, h, pixel_of(w, i).0, pixel_of(w, i).1, p.0, p.1);
}

} // verus!
