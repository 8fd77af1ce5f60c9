//! Tracing a flat drawing, such as a logo, so it can be redrawn as paths.
//!
//! The drawing's ink falls apart into edge-connected shapes: the mark and
//! each letter of a word come out separately. Each shape big enough to be
//! more than a stray speck is measured, and the outline of one of them is
//! walked pixel by pixel around its rim.

use vstd::prelude::*;
use crate::bitmap::{Bitmap, Raster, ink_layer};
use crate::keying::{lemma_pixel_of, pixel_of};
use crate::regions::{
    before, bounds, cell, flood, grid, leader, leaders_upto, lemma_advance, lemma_cell,
    lemma_cell_injective, lemma_connected_solid, lemma_grid_finite, lemma_marked_not_leader, lemma_row_end,
    lemma_scan_start, lemma_self, lemma_symmetric, lemma_unmarked_is_leader, lemma_upto_finite, marked_upto,
    mirrors, region, region_size, solid,
};

verus! {

/// A shape must hold more pixels than this to count: fewer is a speck of
/// noise or the dot of an anti-aliased corner.
pub const MIN_SHAPE: usize = 200;

/// The longest outline walked, in steps. A walk that has not come home by
/// then is cut off there.
pub const MOST_STEPS: usize = 200000;

/// One shape of a drawing's ink.
#[derive(Debug, Clone, Copy, PartialEq, Eq, Structural)]
pub struct Shape {
    /// The shape's number: shapes are numbered 1, 2, and so on in the order
    /// their first pixels come in reading order, specks included.
    pub id: usize,
    /// The smallest box holding the shape, inclusive: left, top, right,
    /// bottom.
    pub x0: u32,
    pub y0: u32,
    pub x1: u32,
    pub y1: u32,
    /// How many pixels the shape holds.
    pub count: usize,
    /// The shape's first pixel in reading order, where its outline starts.
    pub start_x: u32,
    pub start_y: u32,
}

/// `s` describes the shape whose first pixel in reading order is `p`, in
/// the ink layer `r`.
pub open spec fn describes(r: Raster, p: (int, int), s: Shape) -> bool {
    &&& s.start_x == p.0 && s.start_y == p.1
    &&& s.id == leaders_upto(r, p).len() + 1
    &&& s.count == region_size(r, p)
    &&& bounds(region(r, p), (s.x0 as int, s.y0 as int, s.x1 as int, s.y1 as int))
}

/// The first pixels, in reading order, of the shapes bigger than
/// [`MIN_SHAPE`] that start among the first `k` pixels of `r`.
pub open spec fn shape_starts(r: Raster, k: int) -> Seq<(int, int)>
    decreases k,
{
    if k <= 0 {
        Seq::empty()
    } else {
        let p = pixel_of(r.width as int, k - 1);
        let prev = shape_starts(r, k - 1);
        if leader(r, p) && region_size(r, p) > MIN_SHAPE {
            prev.push(p)
        } else {
            prev
        }
    }
}

/// Pixel `(x, y)` is the one reading order puts at its cell.
proof fn lemma_pixel_at_cell(w: int, h: int, x: int, y: int)
    requires
        0 <= x < w,
        0 <= y < h,
    ensures
        pixel_of(w, cell(w, x, y)) == (x, y),
{
    lemma_cell(w, h, x, y);
    lemma_pixel_of(w, h, cell(w, x, y));
    let q = pixel_of(w, cell(w, x, y));
    lemma_cell_injective(w, h, q.0, q.1, x, y);
}

/// A smaller cell comes first in reading order.
proof fn lemma_cell_order(w: int, h: int, a: (int, int), b: (int, int))
    requires
        0 <= a.0 < w,
        0 <= a.1 < h,
        0 <= b.0 < w,
        0 <= b.1 < h,
        cell(w, a.0, a.1) < cell(w, b.0, b.1),
    ensures
        before(a, b),
{
    if a.1 > b.1 {
        assert(a.1 * w + a.0 >= b.1 * w + b.0) by (nonlinear_arith)
            requires
                a.1 > b.1,
                0 <= a.0 < w,
                0 <= b.0 < w,
        ;
    }
}

/// The shape starts are leaders of big shapes, on the canvas, in strictly
/// increasing reading order.
proof fn lemma_starts(r: Raster, k: int)
    requires
        r.wf(),
        0 <= k <= r.width * r.height,
    ensures
        forall|i: int|
            #![trigger shape_starts(r, k)[i]]
            0 <= i < shape_starts(r, k).len() ==> {
                let p = shape_starts(r, k)[i];
                &&& leader(r, p)
                &&& region_size(r, p) > MIN_SHAPE
                &&& 0 <= p.0 < r.width
                &&& 0 <= p.1 < r.height
                &&& cell(r.width as int, p.0, p.1) < k
            },
        forall|i: int, j: int|
            #![trigger shape_starts(r, k)[i], shape_starts(r, k)[j]]
            0 <= i < j < shape_starts(r, k).len() ==> cell(r.width as int, shape_starts(r, k)[i].0, shape_starts(r, k)[i].1)
                < cell(r.width as int, shape_starts(r, k)[j].0, shape_starts(r, k)[j].1),
    decreases k,
{
    let w = r.width as int;
    let h = r.height as int;
    if k > 0 {
        lemma_starts(r, k - 1);
        lemma_pixel_of(w, h, k - 1);
        let prev = shape_starts(r, k - 1);
        let cur = shape_starts(r, k);
        let p = pixel_of(w, k - 1);
        if leader(r, p) && region_size(r, p) > MIN_SHAPE {
            assert(cur == prev.push(p));
            assert forall|i: int| 0 <= i < cur.len() - 1 implies #[trigger] cur[i] == prev[i] by {}
        } else {
            assert(cur == prev);
        }
    }
}

/// A shape's top row is the row of its first pixel.
proof fn lemma_top_is_start(r: Raster, p: (int, int), b: (int, int, int, int))
    requires
        leader(r, p),
        bounds(region(r, p), b),
    ensures
        b.1 == p.1,
{
    lemma_self(r, p);
    assert(region(r, p).contains(p));
    let q = choose|q: (int, int)| #[trigger] region(r, p).contains(q) && q.1 == b.1;
    lemma_symmetric(r, p, q);
    assert(!before(q, p));
}

/// A later leader has more leaders before it.
proof fn lemma_leaders_grow(r: Raster, p: (int, int), q: (int, int))
    requires
        r.wf(),
        leader(r, p),
        before(p, q),
    ensures
        leaders_upto(r, p).len() < leaders_upto(r, q).len(),
{
    lemma_upto_finite(r, p);
    lemma_upto_finite(r, q);
    let a = leaders_upto(r, p);
    let b = leaders_upto(r, q);
    assert(!a.contains(p));
    assert(a.insert(p).subset_of(b));
    vstd::set_lib::lemma_len_subset(a.insert(p), b);
}

/// The shapes of a drawing's ink bigger than [`MIN_SHAPE`] pixels, in the
/// order their first pixels come in reading order, which is top to bottom:
/// a shape's first pixel lies on its top row. Ink is a pixel both more than
/// half opaque and dark; shapes are edge-connected.
pub fn find_shapes(image: &Bitmap) -> (shapes: Vec<Shape>)
    requires
        image@.wf(),
    ensures
        shapes@.len() == shape_starts(ink_layer(image@), image.width * image.height).len(),
        forall|i: int|
            0 <= i < shapes@.len() ==> describes(
                ink_layer(image@),
                #[trigger] shape_starts(ink_layer(image@), image.width * image.height)[i],
                shapes@[i],
            ),
        forall|i: int| 0 <= i < shapes@.len() ==> #[trigger] shapes@[i].y0 == shapes@[i].start_y,
        forall|i: int, j: int|
            #![trigger shapes@[i], shapes@[j]]
            0 <= i < j < shapes@.len() ==> shapes@[i].y0 <= shapes@[j].y0 && shapes@[i].id < shapes@[j].id,
{
    let ink = image.ink_layer();
    let ghost r = ink@;
    let (w, h) = (ink.width, ink.height);
    let plen = ink.pixels.len();
    assert((w as int) * (h as int) <= plen) by (nonlinear_arith)
        requires
            plen == (w as int) * (h as int) * 4,
    ;
    let n: usize = (w as usize) * (h as usize);
    let mut seen: Vec<bool> = vec![false; n];
    let mut pieces: usize = 0;
    let mut shapes: Vec<Shape> = Vec::new();
    proof {
        lemma_scan_start(r);
        assert forall|px: int, py: int| 0 <= px < w && 0 <= py < h implies #[trigger] seen@[cell(w as int, px, py)]
            == marked_upto(r, (0, 0)).contains((px, py)) by {
            lemma_cell(w as int, h as int, px, py);
        }
    }
    let mut y: u32 = 0;
    while y < h
        invariant
            r == ink@,
            r == ink_layer(image@),
            r.wf(),
            w == ink.width,
            h == ink.height,
            w == image.width,
            h == image.height,
            y <= h,
            n == w * h,
            seen@.len() == n,
            mirrors(seen@, w as int, h as int, marked_upto(r, (0, y as int))),
            pieces == leaders_upto(r, (0, y as int)).len(),
            shapes@.len() == shape_starts(r, cell(w as int, 0, y as int)).len(),
            forall|i: int|
                0 <= i < shapes@.len() ==> describes(r, #[trigger] shape_starts(r, cell(w as int, 0, y as int))[i], shapes@[i]),
        decreases h - y,
    {
        let mut x: u32 = 0;
        while x < w
            invariant
                r == ink@,
                r == ink_layer(image@),
                r.wf(),
                w == ink.width,
                h == ink.height,
                y < h,
                x <= w,
                n == w * h,
                seen@.len() == n,
                mirrors(seen@, w as int, h as int, marked_upto(r, (x as int, y as int))),
                pieces == leaders_upto(r, (x as int, y as int)).len(),
                shapes@.len() == shape_starts(r, cell(w as int, x as int, y as int)).len(),
                forall|i: int|
                    0 <= i < shapes@.len() ==> describes(
                        r,
                        #[trigger] shape_starts(r, cell(w as int, x as int, y as int))[i],
                        shapes@[i],
                    ),
            decreases w - x,
        {
            let ghost p = (x as int, y as int);
            let ghost p2 = (x as int + 1, y as int);
            let ghost k = cell(w as int, x as int, y as int);
            let ghost starts0 = shape_starts(r, k);
            proof {
                lemma_advance(r, p.0, p.1);
                lemma_upto_finite(r, p);
                lemma_upto_finite(r, p2);
                lemma_cell(w as int, h as int, p.0, p.1);
                lemma_pixel_at_cell(w as int, h as int, p.0, p.1);
                assert(cell(w as int, p2.0, p2.1) == k + 1);
                vstd::set_lib::lemma_len_subset(leaders_upto(r, p2), crate::regions::solids_upto(r, p2));
            }
            let a = ink.alpha(x, y);
            if a > 128 {
                assert(solid(r, p));
                let i = (y as usize) * (w as usize) + (x as usize);
                if !seen[i] {
                    assert(!marked_upto(r, p).contains(p));
                    proof {
                        lemma_unmarked_is_leader(r, p);
                    }
                    let (size, b) = flood(&ink, &mut seen, x, y, Ghost(marked_upto(r, p)));
                    proof {
                        assert(leaders_upto(r, p2) == leaders_upto(r, p).insert(p));
                        assert(!leaders_upto(r, p).contains(p));
                        assert(leaders_upto(r, p2).len() == leaders_upto(r, p).len() + 1);
                    }
                    if size > MIN_SHAPE {
                        let shape = Shape {
                            id: pieces + 1,
                            x0: b.0,
                            y0: b.1,
                            x1: b.2,
                            y1: b.3,
                            count: size,
                            start_x: x,
                            start_y: y,
                        };
                        shapes.push(shape);
                        proof {
                            assert(shape_starts(r, k + 1) == starts0.push(p));
                            assert forall|j: int| 0 <= j < shapes@.len() implies describes(
                                r,
                                #[trigger] shape_starts(r, k + 1)[j],
                                shapes@[j],
                            ) by {
                                if j < shapes@.len() - 1 {
                                    assert(shape_starts(r, k + 1)[j] == starts0[j]);
                                }
                            }
                        }
                    } else {
                        proof {
                            assert(shape_starts(r, k + 1) == starts0);
                        }
                    }
                    pieces = pieces + 1;
                    proof {
                        assert(marked_upto(r, p).union(region(r, p)) == marked_upto(r, p2));
                    }
                } else {
                    proof {
                        lemma_marked_not_leader(r, p);
                        assert(shape_starts(r, k + 1) == starts0);
                    }
                }
            } else {
                assert(!solid(r, p));
                assert(shape_starts(r, k + 1) == starts0);
            }
            x = x + 1;
        }
        proof {
            lemma_row_end(r, y as int);
            assert(cell(w as int, w as int, y as int) == cell(w as int, 0, y as int + 1)) by (nonlinear_arith);
        }
        y = y + 1;
    }
    proof {
        let total = cell(w as int, 0, h as int);
        assert((h as int) * (w as int) + 0 == (w as int) * (h as int)) by (nonlinear_arith);
        assert(total == (w as int) * (h as int));
        lemma_starts(r, total);
        let starts = shape_starts(r, total);
        assert forall|i: int| 0 <= i < shapes@.len() implies #[trigger] shapes@[i].y0 == shapes@[i].start_y by {
            let s = shapes@[i];
            assert(describes(r, starts[i], s));
            lemma_top_is_start(r, starts[i], (s.x0 as int, s.y0 as int, s.x1 as int, s.y1 as int));
        }
        assert forall|i: int, j: int|
            #![trigger shapes@[i], shapes@[j]]
            0 <= i < j < shapes@.len() implies shapes@[i].y0 <= shapes@[j].y0 && shapes@[i].id < shapes@[j].id by {
            let si = shapes@[i];
            let sj = shapes@[j];
            assert(describes(r, starts[i], si));
            assert(describes(r, starts[j], sj));
            lemma_top_is_start(r, starts[i], (si.x0 as int, si.y0 as int, si.x1 as int, si.y1 as int));
            lemma_top_is_start(r, starts[j], (sj.x0 as int, sj.y0 as int, sj.x1 as int, sj.y1 as int));
            lemma_cell_order(w as int, h as int, starts[i], starts[j]);
            lemma_leaders_grow(r, starts[i], starts[j]);
        }
    }
    shapes
}

/// The eight compass directions, clockwise from east: east, south-east,
/// south, south-west, west, north-west, north, north-east (y grows down).
pub open spec fn compass(d: int) -> (int, int) {
    if d == 0 {
        (1, 0)
    } else if d == 1 {
        (1, 1)
    } else if d == 2 {
        (0, 1)
    } else if d == 3 {
        (-1, 1)
    } else if d == 4 {
        (-1, 0)
    } else if d == 5 {
        (-1, -1)
    } else if d == 6 {
        (0, -1)
    } else {
        (1, -1)
    }
}

/// The pixel one step from `c` in direction `d`.
pub open spec fn toward(c: (int, int), d: int) -> (int, int) {
    (c.0 + compass(d).0, c.1 + compass(d).1)
}

/// The direction a boundary walk heading `dir` turns to at `c`: the first,
/// trying clockwise from two steps left of `dir` and starting `k` tries in,
/// that leads onto the shape `m`.
pub open spec fn next_turn(m: Set<(int, int)>, c: (int, int), dir: int, k: int) -> Option<int>
    decreases 8 - k,
{
    if k >= 8 {
        None
    } else {
        let d = (dir + 6 + k) % 8;
        if m.contains(toward(c, d)) {
            Some(d)
        } else {
            next_turn(m, c, dir, k + 1)
        }
    }
}

/// The pixels a boundary walk around the shape `m` visits, from `c` on,
/// heading `dir`, at step `step`: it records where it stands, turns to the
/// next pixel of the shape, and stops when there is none, when it comes
/// back to `start` after more than eight steps, or after [`MOST_STEPS`].
pub open spec fn boundary_walk(m: Set<(int, int)>, start: (int, int), c: (int, int), dir: int, step: int) -> Seq<(int, int)>
    decreases MOST_STEPS - step,
{
    if step >= MOST_STEPS {
        Seq::empty()
    } else {
        seq![c] + match next_turn(m, c, dir, 0) {
            None => Seq::empty(),
            Some(d) => {
                let n = toward(c, d);
                if n == start && step > 8 {
                    Seq::empty()
                } else {
                    boundary_walk(m, start, n, d, step + 1)
                }
            },
        }
    }
}

/// The outline of the shape through `start` in the ink layer `r`: the
/// boundary walk that sets off from `start` heading east.
pub open spec fn outline(r: Raster, start: (int, int)) -> Seq<(int, int)> {
    boundary_walk(region(r, start), start, start, 0, 0)
}

/// Pixel positions as pairs of integers.
pub open spec fn points(s: Seq<(u32, u32)>) -> Seq<(int, int)> {
    Seq::new(s.len(), |i: int| (s[i].0 as int, s[i].1 as int))
}

fn compass_step(d: u32) -> (out: (i64, i64))
    requires
        d < 8,
    ensures
        out.0 == compass(d as int).0,
        out.1 == compass(d as int).1,
{
    if d == 0 {
        (1, 0)
    } else if d == 1 {
        (1, 1)
    } else if d == 2 {
        (0, 1)
    } else if d == 3 {
        (-1, 1)
    } else if d == 4 {
        (-1, 0)
    } else if d == 5 {
        (-1, -1)
    } else if d == 6 {
        (0, -1)
    } else {
        (1, -1)
    }
}

/// Whether `(x, y)` lies on the shape whose pixels `mask` marks.
fn on_shape(mask: &Vec<bool>, w: u32, h: u32, x: i64, y: i64, Ghost(m): Ghost<Set<(int, int)>>) -> (b: bool)
    requires
        mask@.len() == w * h,
        mirrors(mask@, w as int, h as int, m),
        m.subset_of(grid(w as int, h as int)),
    ensures
        b == m.contains((x as int, y as int)),
{
    if x < 0 || y < 0 || x >= w as i64 || y >= h as i64 {
        assert(!grid(w as int, h as int).contains((x as int, y as int)));
        false
    } else {
        proof {
            lemma_cell(w as int, h as int, x as int, y as int);
        }
        let n = mask.len();
        let (ux, uy) = (x as usize, y as usize);
        assert(ux == x && uy == y);
        assert((uy as int) * (w as int) <= cell(w as int, ux as int, uy as int));
        assert(cell(w as int, ux as int, uy as int) < n);
        mask[uy * (w as usize) + ux]
    }
}

/// The turn a boundary walk heading `dir` takes at `(x, y)`.
fn find_turn(mask: &Vec<bool>, w: u32, h: u32, x: u32, y: u32, dir: u32, Ghost(m): Ghost<Set<(int, int)>>) -> (out: Option<u32>)
    requires
        mask@.len() == w * h,
        mirrors(mask@, w as int, h as int, m),
        m.subset_of(grid(w as int, h as int)),
        dir < 8,
    ensures
        match out {
            Some(d) => d < 8 && next_turn(m, (x as int, y as int), dir as int, 0) == Some(d as int),
            None => next_turn(m, (x as int, y as int), dir as int, 0) == None::<int>,
        },
{
    let ghost c = (x as int, y as int);
    let mut k: u32 = 0;
    while k < 8
        invariant
            mask@.len() == w * h,
            mirrors(mask@, w as int, h as int, m),
            m.subset_of(grid(w as int, h as int)),
            dir < 8,
            k <= 8,
            c == (x as int, y as int),
            next_turn(m, c, dir as int, 0) == next_turn(m, c, dir as int, k as int),
        decreases 8 - k,
    {
        let d = (dir + 6 + k) % 8;
        let (dx, dy) = compass_step(d);
        let nx = x as i64 + dx;
        let ny = y as i64 + dy;
        if on_shape(mask, w, h, nx, ny, Ghost(m)) {
            return Some(d);
        }
        k = k + 1;
    }
    None
}

/// One step of a boundary walk: where it stands, then the rest of the walk
/// from the pixel it turns to, unless the turn ends it.
proof fn lemma_walk_step(m: Set<(int, int)>, s: (int, int), c: (int, int), dir: int, step: int)
    requires
        0 <= step < MOST_STEPS,
    ensures
        boundary_walk(m, s, c, dir, step) == seq![c] + match next_turn(m, c, dir, 0) {
            None => Seq::empty(),
            Some(d) => if toward(c, d) == s && step > 8 {
                Seq::empty()
            } else {
                boundary_walk(m, s, toward(c, d), d, step + 1)
            },
        },
{
}

/// The boundary walk round the shape `m`, marked in `mask`, from `(sx, sy)`.
fn walk_outline(mask: &Vec<bool>, w: u32, h: u32, sx: u32, sy: u32, Ghost(m): Ghost<Set<(int, int)>>) -> (path: Vec<(u32, u32)>)
    requires
        mask@.len() == w * h,
        mirrors(mask@, w as int, h as int, m),
        m.subset_of(grid(w as int, h as int)),
        sx < w,
        sy < h,
    ensures
        points(path@) == boundary_walk(m, (sx as int, sy as int), (sx as int, sy as int), 0, 0),
{
    let ghost s = (sx as int, sy as int);
    let ghost full = boundary_walk(m, s, s, 0, 0);
    let mut path: Vec<(u32, u32)> = Vec::new();
    let (mut cx, mut cy, mut dir) = (sx, sy, 0u32);
    let mut step: usize = 0;
    let mut done = false;
    while !done && step < MOST_STEPS
        invariant
            s == (sx as int, sy as int),
            mask@.len() == w * h,
            mirrors(mask@, w as int, h as int, m),
            m.subset_of(grid(w as int, h as int)),
            cx < w,
            cy < h,
            dir < 8,
            step <= MOST_STEPS,
            path@.len() == step,
            done ==> points(path@) == full,
            !done ==> points(path@) + boundary_walk(m, s, (cx as int, cy as int), dir as int, step as int) == full,
        decreases MOST_STEPS - step,
    {
        let ghost c = (cx as int, cy as int);
        let ghost before_path = points(path@);
        let ghost rest = boundary_walk(m, s, c, dir as int, step as int);
        proof {
            lemma_walk_step(m, s, c, dir as int, step as int);
        }
        path.push((cx, cy));
        proof {
            assert(points(path@) =~= before_path.push(c));
        }
        let turn = find_turn(mask, w, h, cx, cy, dir, Ghost(m));
        match turn {
            None => {
                proof {
                    assert(rest =~= seq![c]);
                    assert(before_path + rest =~= before_path.push(c));
                }
                done = true;
            },
            Some(d) => {
                let (dx, dy) = compass_step(d);
                let nx = cx as i64 + dx;
                let ny = cy as i64 + dy;
                let ghost nb = toward(c, d as int);
                proof {
                    lemma_turn_onto_shape(m, c, dir as int, 0);
                    assert(grid(w as int, h as int).contains(nb));
                }
                if nx == sx as i64 && ny == sy as i64 && step > 8 {
                    proof {
                        assert(rest =~= seq![c]);
                        assert(before_path + rest =~= before_path.push(c));
                    }
                    done = true;
                } else {
                    proof {
                        let later = boundary_walk(m, s, nb, d as int, step + 1);
                        assert(rest == seq![c] + later);
                        assert(before_path + rest =~= before_path.push(c) + later);
                    }
                    cx = nx as u32;
                    cy = ny as u32;
                    dir = d;
                }
            },
        }
        step = step + 1;
    }
    proof {
        if !done {
            assert(boundary_walk(m, s, (cx as int, cy as int), dir as int, step as int) == Seq::<(int, int)>::empty());
            assert(points(path@) + Seq::<(int, int)>::empty() =~= points(path@));
        }
    }
    path
}

/// The outline of the shape whose first pixel in reading order is
/// `(start_x, start_y)`, in the ink of `image`: the pixels a boundary walk
/// visits, setting off from there heading east and keeping the shape on its
/// right-hand side. An outline of a shape too small to close a loop in
/// eight steps goes round more than once.
pub fn trace_outline(image: &Bitmap, start_x: u32, start_y: u32) -> (out: Vec<(u32, u32)>)
    requires
        image@.wf(),
        start_x < image.width,
        start_y < image.height,
    ensures
        points(out@) == outline(ink_layer(image@), (start_x as int, start_y as int)),
{
    let ink = image.ink_layer();
    let ghost r = ink@;
    let ghost s = (start_x as int, start_y as int);
    let ghost m = region(r, s);
    let (w, h) = (ink.width, ink.height);
    let plen = ink.pixels.len();
    assert((w as int) * (h as int) <= plen) by (nonlinear_arith)
        requires
            plen == (w as int) * (h as int) * 4,
    ;
    let n: usize = (w as usize) * (h as usize);
    let mut mask: Vec<bool> = vec![false; n];
    proof {
        assert forall|q: (int, int)| #[trigger] m.contains(q) implies grid(w as int, h as int).contains(q) by {
            lemma_connected_solid(r, s, q);
        }
    }
    if ink.alpha(start_x, start_y) > 128 {
        proof {
            assert forall|px: int, py: int| 0 <= px < w && 0 <= py < h implies #[trigger] mask@[cell(w as int, px, py)]
                == Set::<(int, int)>::empty().contains((px, py)) by {
                lemma_cell(w as int, h as int, px, py);
            }
        }
        let _ = flood(&ink, &mut mask, start_x, start_y, Ghost(Set::empty()));
        assert(Set::<(int, int)>::empty().union(m) =~= m);
    } else {
        proof {
            assert forall|q: (int, int)| !m.contains(q) by {
                if m.contains(q) {
                    lemma_connected_solid(r, s, q);
                }
            }
            assert forall|px: int, py: int| 0 <= px < w && 0 <= py < h implies #[trigger] mask@[cell(w as int, px, py)]
                == m.contains((px, py)) by {
                lemma_cell(w as int, h as int, px, py);
            }
        }
    }
    walk_outline(&mask, w, h, start_x, start_y, Ghost(m))
}

proof fn lemma_turn_onto_shape(m: Set<(int, int)>, c: (int, int), dir: int, k: int)
    requires
        next_turn(m, c, dir, k) is Some,
    ensures
        m.contains(toward(c, next_turn(m, c, dir, k)->0)),
    decreases 8 - k,
{
    if k < 8 && !m.contains(toward(c, (dir + 6 + k) % 8)) {
        lemma_turn_onto_shape(m, c, dir, k + 1);
    }
}

proof fn lemma_walk_within(m: Set<(int, int)>, start: (int, int), c: (int, int), dir: int, step: int)
    requires
        m.contains(c),
    ensures
        forall|i: int|
            0 <= i < boundary_walk(m, start, c, dir, step).len() ==> m.contains(
                #[trigger] boundary_walk(m, start, c, dir, step)[i],
            ),
    decreases MOST_STEPS - step,
{
    let walk = boundary_walk(m, start, c, dir, step);
    if step < MOST_STEPS {
        match next_turn(m, c, dir, 0) {
            None => {
                assert(walk == seq![c]);
            },
            Some(d) => {
                let n = toward(c, d);
                lemma_turn_onto_shape(m, c, dir, 0);
                if n == start && step > 8 {
                    assert(walk == seq![c]);
                } else {
                    let later = boundary_walk(m, start, n, d, step + 1);
                    lemma_walk_within(m, start, n, d, step + 1);
                    assert(walk == seq![c] + later);
                    assert forall|i: int| 0 <= i < walk.len() implies m.contains(#[trigger] walk[i]) by {
                        if i > 0 {
                            assert(walk[i] == later[i - 1]);
                        }
                    }
                }
            },
        }
    }
}

/// An outline never leaves its shape: every pixel the walk visits, from a
/// pixel of ink, is a pixel of the shape it set off on.
pub proof fn law_the_outline_stays_on_the_shape(r: Raster, start: (int, int), i: int)
    requires
        solid(r, start),
        0 <= i < outline(r, start).len(),
    ensures
        region(r, start).contains(outline(r, start)[i]),
{
    lemma_self(r, start);
    lemma_walk_within(region(r, start), start, start, 0, 0);
}

} // verus!
