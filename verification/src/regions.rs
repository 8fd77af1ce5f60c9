//! What survived a background cut, measured: how many separate regions the
//! opaque pixels form, how big they are, and how much of their own bounding
//! box they fill. A shredded subject and a real one leave different answers.

use vstd::prelude::*;
use crate::bitmap::{Bitmap, Raster, fits, lemma_offset_bounds, lemma_offset_injective};

verus! {

/// A region smaller than this is a speck, whatever it belongs to.
pub const SUBSTANTIAL_PIECE: usize = 16;

/// More separate substantial pieces than this is not a drawing.
pub const MOST_PIECES: usize = 64;

/// A pixel that survived: on the canvas and more than half opaque.
pub open spec fn solid(r: Raster, p: (int, int)) -> bool {
    r.in_bounds(p.0, p.1) && r.alpha(p.0, p.1) > 128
}

/// Two pixels that share an edge.
pub open spec fn adjacent(p: (int, int), q: (int, int)) -> bool {
    (p.0 == q.0 && (p.1 == q.1 + 1 || q.1 == p.1 + 1)) || (p.1 == q.1 && (p.0 == q.0 + 1 || q.0 == p.0 + 1))
}

/// A walk between edge-sharing surviving pixels.
pub open spec fn is_walk(r: Raster, path: Seq<(int, int)>) -> bool {
    &&& path.len() >= 1
    &&& forall|i: int| 0 <= i < path.len() ==> solid(r, #[trigger] path[i])
    &&& forall|i: int| 0 <= i < path.len() - 1 ==> adjacent(#[trigger] path[i], path[i + 1])
}

/// A walk from `p` to `q`.
pub open spec fn walk_between(r: Raster, path: Seq<(int, int)>, p: (int, int), q: (int, int)) -> bool {
    is_walk(r, path) && path[0] == p && path.last() == q
}

/// `p` and `q` lie in one region.
pub open spec fn connected(r: Raster, p: (int, int), q: (int, int)) -> bool {
    exists|path: Seq<(int, int)>| #[trigger] walk_between(r, path, p, q)
}

/// `q` comes before `p` in reading order.
pub open spec fn before(q: (int, int), p: (int, int)) -> bool {
    q.1 < p.1 || (q.1 == p.1 && q.0 < p.0)
}

/// The first pixel of its region in reading order: one per region.
pub open spec fn leader(r: Raster, p: (int, int)) -> bool {
    solid(r, p) && forall|q: (int, int)| before(q, p) ==> !#[trigger] connected(r, q, p)
}

/// The region of `p`.
pub open spec fn region(r: Raster, p: (int, int)) -> Set<(int, int)> {
    Set::new(|q: (int, int)| connected(r, p, q))
}

/// How many pixels the region of `p` holds.
pub open spec fn region_size(r: Raster, p: (int, int)) -> nat {
    region(r, p).len()
}

/// Every surviving pixel.
pub open spec fn solids(r: Raster) -> Set<(int, int)> {
    Set::new(|p: (int, int)| solid(r, p))
}

/// One pixel for every region.
pub open spec fn leaders(r: Raster) -> Set<(int, int)> {
    Set::new(|p: (int, int)| leader(r, p))
}

/// One pixel for every region of at least [`SUBSTANTIAL_PIECE`] pixels.
pub open spec fn big_leaders(r: Raster) -> Set<(int, int)> {
    Set::new(|p: (int, int)| leader(r, p) && region_size(r, p) >= SUBSTANTIAL_PIECE)
}

/// The canvas.
pub open spec fn grid(w: int, h: int) -> Set<(int, int)> {
    Set::new(|p: (int, int)| 0 <= p.0 < w && 0 <= p.1 < h)
}

/// `b` is the smallest box `(left, top, right, bottom)`, inclusive, that
/// holds every pixel of `s`.
pub open spec fn bounds(s: Set<(int, int)>, b: (int, int, int, int)) -> bool {
    &&& forall|p: (int, int)| #[trigger] s.contains(p) ==> b.0 <= p.0 <= b.2 && b.1 <= p.1 <= b.3
    &&& exists|p: (int, int)| #[trigger] s.contains(p) && p.0 == b.0
    &&& exists|p: (int, int)| #[trigger] s.contains(p) && p.1 == b.1
    &&& exists|p: (int, int)| #[trigger] s.contains(p) && p.0 == b.2
    &&& exists|p: (int, int)| #[trigger] s.contains(p) && p.1 == b.3
}

pub proof fn lemma_grid_finite(w: int, h: int)
    requires
        w >= 0,
        h >= 0,
    ensures
        grid(w, h).finite(),
        grid(w, h).len() <= w * h,
{
    let n = w * h;
    assert(n >= 0) by (nonlinear_arith)
        requires
            w >= 0,
            h >= 0,
            n == w * h,
    ;
    vstd::set_lib::lemma_int_range(0, n);
    let f = |k: int| (k % w, k / w);
    let image = vstd::set_lib::set_int_range(0, n).map(f);
    vstd::set_lib::lemma_map_size_bound(vstd::set_lib::set_int_range(0, n), image, f);
    assert forall|p: (int, int)| grid(w, h).contains(p) implies image.contains(p) by {
        let k = p.1 * w + p.0;
        assert(0 <= k < n) by (nonlinear_arith)
            requires
                0 <= p.0 < w,
                0 <= p.1 < h,
                k == p.1 * w + p.0,
                n == w * h,
        ;
        vstd::arithmetic::div_mod::lemma_fundamental_div_mod_converse(k, w, p.1, p.0);
        assert(f(k) == p);
        assert(vstd::set_lib::set_int_range(0, n).contains(k));
    }
    vstd::set_lib::lemma_len_subset(grid(w, h), image);
}

pub proof fn lemma_connected_solid(r: Raster, p: (int, int), q: (int, int))
    requires
        connected(r, p, q),
    ensures
        solid(r, p),
        solid(r, q),
{
    let path = choose|path: Seq<(int, int)>| #[trigger] walk_between(r, path, p, q);
    assert(solid(r, path[0]));
    assert(solid(r, path[path.len() - 1]));
}

pub proof fn lemma_self(r: Raster, p: (int, int))
    requires
        solid(r, p),
    ensures
        connected(r, p, p),
{
    let path = seq![p];
    assert(walk_between(r, path, p, p));
}

pub proof fn lemma_step(r: Raster, p: (int, int), m: (int, int), q: (int, int))
    requires
        connected(r, p, m),
        adjacent(m, q),
        solid(r, q),
    ensures
        connected(r, p, q),
{
    let path = choose|path: Seq<(int, int)>| #[trigger] walk_between(r, path, p, m);
    let longer = path.push(q);
    assert forall|i: int| 0 <= i < longer.len() implies solid(r, #[trigger] longer[i]) by {
        if i < path.len() {
            assert(longer[i] == path[i]);
        }
    }
    assert forall|i: int| 0 <= i < longer.len() - 1 implies adjacent(#[trigger] longer[i], longer[i + 1]) by {
        assert(longer[i] == path[i]);
        if i + 1 < path.len() {
            assert(longer[i + 1] == path[i + 1]);
        }
    }
    assert(walk_between(r, longer, p, q));
}

/// Lying in one region is symmetric.
pub proof fn lemma_symmetric(r: Raster, p: (int, int), q: (int, int))
    requires
        connected(r, p, q),
    ensures
        connected(r, q, p),
{
    let path = choose|path: Seq<(int, int)>| #[trigger] walk_between(r, path, p, q);
    let n = path.len() as int;
    let back = Seq::new(n as nat, |i: int| path[n - 1 - i]);
    assert forall|i: int| 0 <= i < back.len() implies solid(r, #[trigger] back[i]) by {
        assert(back[i] == path[n - 1 - i]);
    }
    assert forall|i: int| 0 <= i < back.len() - 1 implies adjacent(#[trigger] back[i], back[i + 1]) by {
        assert(back[i] == path[n - 1 - i]);
        assert(back[i + 1] == path[n - 2 - i]);
        assert(adjacent(path[n - 2 - i], path[n - 1 - i]));
    }
    assert(walk_between(r, back, q, p));
}

/// Lying in one region is transitive.
pub proof fn lemma_transitive(r: Raster, p: (int, int), m: (int, int), q: (int, int))
    requires
        connected(r, p, m),
        connected(r, m, q),
    ensures
        connected(r, p, q),
{
    let a = choose|path: Seq<(int, int)>| #[trigger] walk_between(r, path, p, m);
    let b = choose|path: Seq<(int, int)>| #[trigger] walk_between(r, path, m, q);
    let joined = a + b.skip(1);
    assert forall|i: int| 0 <= i < joined.len() implies solid(r, #[trigger] joined[i]) by {
        if i < a.len() {
            assert(joined[i] == a[i]);
        } else {
            assert(joined[i] == b[i - a.len() + 1]);
        }
    }
    assert forall|i: int| 0 <= i < joined.len() - 1 implies adjacent(#[trigger] joined[i], joined[i + 1]) by {
        if i + 1 < a.len() {
            assert(joined[i] == a[i] && joined[i + 1] == a[i + 1]);
        } else if i + 1 == a.len() {
            assert(joined[i] == a[a.len() - 1]);
            assert(joined[i + 1] == b[1]);
            assert(b[0] == m);
            assert(adjacent(b[0], b[1]));
        } else {
            assert(joined[i] == b[i - a.len() + 1] && joined[i + 1] == b[i - a.len() + 2]);
        }
    }
    if b.len() == 1 {
        assert(joined =~= a);
    }
    assert(joined.last() == q);
    assert(walk_between(r, joined, p, q));
}

proof fn lemma_closed_prefix(r: Raster, s: Set<(int, int)>, path: Seq<(int, int)>, i: int)
    requires
        is_walk(r, path),
        s.contains(path[0]),
        forall|a: (int, int), b: (int, int)|
            #![trigger s.contains(a), adjacent(a, b)]
            s.contains(a) && adjacent(a, b) && solid(r, b) ==> s.contains(b),
        0 <= i < path.len(),
    ensures
        s.contains(path[i]),
    decreases i,
{
    if i > 0 {
        lemma_closed_prefix(r, s, path, i - 1);
        assert(adjacent(path[i - 1], path[i]));
        assert(solid(r, path[i]));
    }
}

/// A set holding `p` and closed under stepping to an adjacent surviving
/// pixel holds the whole region of `p`.
pub proof fn lemma_closed_holds_region(r: Raster, s: Set<(int, int)>, p: (int, int), q: (int, int))
    requires
        s.contains(p),
        forall|a: (int, int), b: (int, int)|
            #![trigger s.contains(a), adjacent(a, b)]
            s.contains(a) && adjacent(a, b) && solid(r, b) ==> s.contains(b),
        connected(r, p, q),
    ensures
        s.contains(q),
{
    let path = choose|path: Seq<(int, int)>| #[trigger] walk_between(r, path, p, q);
    lemma_closed_prefix(r, s, path, path.len() - 1);
}

/// Every surviving pixel lies in the region of some leader that is the pixel
/// itself or comes before it.
pub proof fn lemma_has_leader(r: Raster, q: (int, int))
    requires
        r.wf(),
        solid(r, q),
    ensures
        exists|l: (int, int)| #[trigger] leader(r, l) && connected(r, l, q) && (l == q || before(l, q)),
    decreases q.1 * r.width + q.0,
{
    if leader(r, q) {
        lemma_self(r, q);
        assert(leader(r, q) && connected(r, q, q));
    } else {
        let q2 = choose|q2: (int, int)| before(q2, q) && #[trigger] connected(r, q2, q);
        lemma_connected_solid(r, q2, q);
        let w = r.width as int;
        assert(0 <= q2.1 * w + q2.0 < q.1 * w + q.0) by (nonlinear_arith)
            requires
                0 <= q2.0 < w,
                0 <= q2.1,
                0 <= q.0 < w,
                before(q2, q),
        ;
        lemma_has_leader(r, q2);
        let l = choose|l: (int, int)| #[trigger] leader(r, l) && connected(r, l, q2) && (l == q2 || before(l, q2));
        lemma_transitive(r, l, q2, q);
        assert(leader(r, l) && connected(r, l, q) && (l == q || before(l, q)));
    }
}

/// A region lies on the canvas, so it is finite.
pub proof fn lemma_region_finite(r: Raster, p: (int, int))
    requires
        r.wf(),
        r.width > 0,
    ensures
        region(r, p).finite(),
{
    lemma_grid_finite(r.width as int, r.height as int);
    assert forall|q: (int, int)| region(r, p).contains(q) implies grid(r.width as int, r.height as int).contains(q) by {
        lemma_connected_solid(r, p, q);
    }
    vstd::set_lib::lemma_len_subset(region(r, p), grid(r.width as int, r.height as int));
}

} // verus!

verus! {

/// Where pixel `(x, y)` sits in a row-major buffer of one entry per pixel.
pub open spec fn cell(w: int, x: int, y: int) -> int {
    y * w + x
}

pub proof fn lemma_cell(w: int, h: int, x: int, y: int)
    requires
        0 <= x < w,
        0 <= y < h,
    ensures
        0 <= cell(w, x, y) < w * h,
        cell(w, x, y) / w == y,
        cell(w, x, y) % w == x,
{
    assert(0 <= cell(w, x, y) < w * h) by (nonlinear_arith)
        requires
            0 <= x < w,
            0 <= y < h,
    ;
    vstd::arithmetic::div_mod::lemma_fundamental_div_mod_converse(cell(w, x, y), w, y, x);
}

pub proof fn lemma_cell_injective(w: int, h: int, x1: int, y1: int, x2: int, y2: int)
    requires
        0 <= x1 < w,
        0 <= y1 < h,
        0 <= x2 < w,
        0 <= y2 < h,
        cell(w, x1, y1) == cell(w, x2, y2),
    ensures
        x1 == x2,
        y1 == y2,
{
    lemma_cell(w, h, x1, y1);
    lemma_cell(w, h, x2, y2);
}

/// The seen flags mirror a set of pixels.
pub open spec fn mirrors(seen: Seq<bool>, w: int, h: int, s: Set<(int, int)>) -> bool {
    forall|px: int, py: int|
        #![trigger seen[cell(w, px, py)]]
        #![trigger s.contains((px, py))]
        0 <= px < w && 0 <= py < h ==> seen[cell(w, px, py)] == s.contains((px, py))
}

/// Every surviving neighbour of `a` is in `m`.
pub open spec fn closed_at(r: Raster, a: (int, int), m: Set<(int, int)>) -> bool {
    forall|b: (int, int)| #[trigger] adjacent(a, b) && solid(r, b) ==> m.contains(b)
}

/// `a` is one of the pixels held on the stack.
pub open spec fn stacked(stack: Seq<(u32, u32)>, a: (int, int)) -> bool {
    exists|i: int| 0 <= i < stack.len() && (#[trigger] stack[i]).0 as int == a.0 && stack[i].1 as int == a.1
}

/// Marks `(x, y)` and pushes it when it survives and is not yet marked.
fn visit(bitmap: &Bitmap, seen: &mut Vec<bool>, stack: &mut Vec<(u32, u32)>, x: u32, y: u32) -> (added: bool)
    requires
        bitmap@.wf(),
        x < bitmap.width,
        y < bitmap.height,
        old(seen)@.len() == bitmap.width * bitmap.height,
    ensures
        added == (solid(bitmap@, (x as int, y as int)) && !old(seen)@[cell(bitmap.width as int, x as int, y as int)]),
        added ==> final(seen)@ == old(seen)@.update(cell(bitmap.width as int, x as int, y as int), true),
        added ==> final(stack)@ == old(stack)@.push((x, y)),
        !added ==> final(seen)@ == old(seen)@ && final(stack)@ == old(stack)@,
{
    proof {
        lemma_cell(bitmap.width as int, bitmap.height as int, x as int, y as int);
    }
    let n = seen.len();
    assert((y as int) * (bitmap.width as int) <= cell(bitmap.width as int, x as int, y as int));
    let i = (y as usize) * (bitmap.width as usize) + (x as usize);
    if bitmap.alpha(x, y) > 128 && !seen[i] {
        seen.set(i, true);
        stack.push((x, y));
        true
    } else {
        false
    }
}

} // verus!

verus! {

/// The `d`-th edge neighbour of `(x, y)` (right, left, down, up), and
/// whether it lies on a `w` by `h` canvas.
pub open spec fn neighbour(x: int, y: int, d: int) -> (int, int) {
    if d == 0 { (x + 1, y) } else if d == 1 { (x - 1, y) } else if d == 2 { (x, y + 1) } else { (x, y - 1) }
}

pub(crate) fn step_to(x: u32, y: u32, d: u32, w: u32, h: u32) -> (out: Option<(u32, u32)>)
    requires
        d < 4,
        x < w,
        y < h,
    ensures
        match out {
            Some(n) => (n.0 as int, n.1 as int) == neighbour(x as int, y as int, d as int) && n.0 < w && n.1 < h,
            None => {
                let n = neighbour(x as int, y as int, d as int);
                !(0 <= n.0 < w && 0 <= n.1 < h)
            },
        },
{
    if d == 0 {
        if x + 1 < w { Some((x + 1, y)) } else { None }
    } else if d == 1 {
        if x > 0 { Some((x - 1, y)) } else { None }
    } else if d == 2 {
        if y + 1 < h { Some((x, y + 1)) } else { None }
    } else {
        if y > 0 { Some((x, y - 1)) } else { None }
    }
}

pub proof fn lemma_mirror_insert(seen: Seq<bool>, w: int, h: int, m: Set<(int, int)>, x: int, y: int)
    requires
        seen.len() == w * h,
        mirrors(seen, w, h, m),
        0 <= x < w,
        0 <= y < h,
    ensures
        mirrors(seen.update(cell(w, x, y), true), w, h, m.insert((x, y))),
{
    lemma_cell(w, h, x, y);
    let s2 = seen.update(cell(w, x, y), true);
    assert forall|px: int, py: int| 0 <= px < w && 0 <= py < h implies #[trigger] s2[cell(w, px, py)] == m.insert(
        (x, y),
    ).contains((px, py)) by {
        lemma_cell(w, h, px, py);
        if (px, py) != (x, y) {
            if cell(w, px, py) == cell(w, x, y) {
                lemma_cell_injective(w, h, px, py, x, y);
            }
            assert(s2[cell(w, px, py)] == seen[cell(w, px, py)]);
        }
    }
}

/// Marks the whole region of `(x, y)`, a surviving pixel that is not yet
/// marked, and returns how many pixels it holds. The marked pixels `before`
/// lie in other regions. Iterative rather than recursive: a full-frame
/// region is a million pixels deep.
#[verifier::rlimit(40)]
#[verifier::spinoff_prover]
pub(crate) fn flood(
    bitmap: &Bitmap,
    seen: &mut Vec<bool>,
    x: u32,
    y: u32,
    Ghost(before): Ghost<Set<(int, int)>>,
) -> (out: (usize, (u32, u32, u32, u32)))
    requires
        bitmap@.wf(),
        x < bitmap.width,
        y < bitmap.height,
        old(seen)@.len() == bitmap.width * bitmap.height,
        solid(bitmap@, (x as int, y as int)),
        mirrors(old(seen)@, bitmap.width as int, bitmap.height as int, before),
        forall|q: (int, int)| #[trigger] before.contains(q) ==> !connected(bitmap@, (x as int, y as int), q),
    ensures
        final(seen)@.len() == old(seen)@.len(),
        mirrors(final(seen)@, bitmap.width as int, bitmap.height as int, before.union(region(bitmap@, (x as int, y as int)))),
        out.0 == region_size(bitmap@, (x as int, y as int)),
        region(bitmap@, (x as int, y as int)).finite(),
        bounds(region(bitmap@, (x as int, y as int)), (out.1.0 as int, out.1.1 as int, out.1.2 as int, out.1.3 as int)),
{
    let ghost r = bitmap@;
    let ghost w = bitmap.width as int;
    let ghost h = bitmap.height as int;
    let ghost seed = (x as int, y as int);
    let (bw, bh) = (bitmap.width, bitmap.height);
    proof {
        lemma_self(r, seed);
        lemma_grid_finite(w, h);
        lemma_cell(w, h, seed.0, seed.1);
        assert(!before.contains(seed));
        assert(!seen@[cell(w, seed.0, seed.1)]);
    }
    let mut stack: Vec<(u32, u32)> = Vec::new();
    let ghost s0 = seen@;
    let first = visit(bitmap, seen, &mut stack, x, y);
    assert(first);
    let ghost mut found: Set<(int, int)> = Set::empty().insert(seed);
    let (mut bx0, mut by0, mut bx1, mut by1) = (x, y, x, y);
    proof {
        lemma_bounds_first(Set::empty(), seed);
        lemma_mirror_insert(s0, w, h, before, seed.0, seed.1);
        assert(before.insert(seed) =~= before.union(found));
        assert(stack@[0] == (x, y));
        assert forall|a: (int, int)| #[trigger] found.contains(a) implies stacked(stack@, a) || closed_at(r, a, before.union(found)) by {
            assert(a == seed);
            assert(stack@[0].0 as int == a.0 && stack@[0].1 as int == a.1);
        }
    }
    let mut size: usize = 0;
    while stack.len() > 0
        invariant
            r == bitmap@,
            r.wf(),
            w == bitmap.width,
            h == bitmap.height,
            bw == bitmap.width,
            bh == bitmap.height,
            0 <= seed.0 < w,
            0 <= seed.1 < h,
            seed == (x as int, y as int),
            grid(w, h).finite(),
            grid(w, h).len() <= w * h,
            seen@.len() == w * h,
            mirrors(seen@, w, h, before.union(found)),
            found.finite(),
            found.subset_of(grid(w, h)),
            found.contains(seed),
            size + stack@.len() == found.len(),
            bounds(found, (bx0 as int, by0 as int, bx1 as int, by1 as int)),
            forall|q: (int, int)| #[trigger] found.contains(q) ==> connected(r, seed, q),
            forall|q: (int, int)| #[trigger] before.contains(q) ==> !connected(r, seed, q),
            forall|i: int|
                0 <= i < stack@.len() ==> (#[trigger] stack@[i]).0 < w && stack@[i].1 < h && found.contains(
                    (stack@[i].0 as int, stack@[i].1 as int),
                ),
            forall|a: (int, int)| #[trigger] found.contains(a) ==> stacked(stack@, a) || closed_at(r, a, before.union(found)),
        decreases stack@.len() + 5 * grid(w, h).difference(before.union(found)).len(),
    {
        let ghost stack0 = stack@;
        let ghost found0 = found;
        let ghost measure0 = stack@.len() + 5 * grid(w, h).difference(before.union(found)).len();
        let top = stack.pop();
        let (cx, cy) = match top {
            Some(t) => t,
            None => (0, 0),
        };
        let ghost a = (cx as int, cy as int);
        let ghost popped = stack@;
        proof {
            assert(stack0[stack0.len() - 1] == (cx, cy));
            assert(found.contains(a));
            vstd::set_lib::lemma_len_subset(found, grid(w, h));
        }
        let n = seen.len();
        assert(size + 1 <= n);
        size = size + 1;
        let mut d: u32 = 0;
        while d < 4
            invariant
                r == bitmap@,
                r.wf(),
                w == bitmap.width,
                h == bitmap.height,
                bw == bitmap.width,
                bh == bitmap.height,
                0 <= seed.0 < w,
                0 <= seed.1 < h,
                cx < w,
                cy < h,
                a == (cx as int, cy as int),
                d <= 4,
                grid(w, h).finite(),
                grid(w, h).len() <= w * h,
                seen@.len() == w * h,
                mirrors(seen@, w, h, before.union(found)),
                found.finite(),
                found.subset_of(grid(w, h)),
                found0.subset_of(found),
                found.contains(a),
                size + stack@.len() == found.len(),
                bounds(found, (bx0 as int, by0 as int, bx1 as int, by1 as int)),
                stack@.len() >= popped.len(),
                stack@.take(popped.len() as int) == popped,
                stack@.len() + 5 * grid(w, h).difference(before.union(found)).len() < measure0,
                forall|q: (int, int)| #[trigger] found.contains(q) ==> connected(r, seed, q),
                forall|q: (int, int)| #[trigger] before.contains(q) ==> !connected(r, seed, q),
                forall|i: int|
                    0 <= i < stack@.len() ==> (#[trigger] stack@[i]).0 < w && stack@[i].1 < h && found.contains(
                        (stack@[i].0 as int, stack@[i].1 as int),
                    ),
                forall|q: (int, int)| #[trigger] found.contains(q) && !found0.contains(q) ==> stacked(stack@, q),
                forall|e: int|
                    0 <= e < d ==> {
                        let n = neighbour(a.0, a.1, e);
                        (0 <= n.0 < w && 0 <= n.1 < h && solid(r, n)) ==> #[trigger] before.union(found).contains(neighbour(a.0, a.1, e))
                    },
            decreases 4 - d,
        {
            let next = step_to(cx, cy, d, bw, bh);
            match next {
                Some((nx, ny)) => {
                    let ghost seen1 = seen@;
                    let ghost stack1 = stack@;
                    let ghost found1 = found;
                    let ghost nb = (nx as int, ny as int);
                    let added = visit(bitmap, seen, &mut stack, nx, ny);
                    let ghost b1 = (bx0 as int, by0 as int, bx1 as int, by1 as int);
                    if added {
                        if nx < bx0 {
                            bx0 = nx;
                        }
                        if ny < by0 {
                            by0 = ny;
                        }
                        if nx > bx1 {
                            bx1 = nx;
                        }
                        if ny > by1 {
                            by1 = ny;
                        }
                    }
                    proof {
                        lemma_cell(w, h, nb.0, nb.1);
                        if added {
                            lemma_bounds_grow(found1, b1, nb, (bx0 as int, by0 as int, bx1 as int, by1 as int));
                            lemma_mirror_insert(seen1, w, h, before.union(found1), nb.0, nb.1);
                            found = found1.insert(nb);
                            assert(before.union(found1).insert(nb) =~= before.union(found));
                            assert(!before.union(found1).contains(nb));
                            assert(grid(w, h).contains(nb));
                            grid(w, h).lemma_set_insert_diff_decreases(before.union(found1), nb);
                            assert(adjacent(a, nb));
                            lemma_step(r, seed, a, nb);
                            assert(stack@[stack@.len() - 1] == (nx, ny));
                            assert forall|i: int| 0 <= i < stack@.len() implies (#[trigger] stack@[i]).0 < w && stack@[i].1 < h
                                && found.contains((stack@[i].0 as int, stack@[i].1 as int)) by {
                                if i < stack1.len() {
                                    assert(stack@[i] == stack1[i]);
                                }
                            }
                            assert forall|q: (int, int)| #[trigger] found.contains(q) && !found0.contains(q) implies stacked(stack@, q) by {
                                if q == nb {
                                    assert(stack@[stack@.len() - 1].0 as int == q.0 && stack@[stack@.len() - 1].1 as int == q.1);
                                } else {
                                    assert(stacked(stack1, q));
                                    let i = choose|i: int| 0 <= i < stack1.len() && (#[trigger] stack1[i]).0 as int == q.0 && stack1[i].1 as int == q.1;
                                    assert(stack@[i] == stack1[i]);
                                }
                            }
                            assert(stack@.take(popped.len() as int) =~= stack1.take(popped.len() as int));
                        } else {
                            assert(seen@[cell(w, nb.0, nb.1)] || !solid(r, nb));
                        }
                        assert forall|e: int| 0 <= e < d + 1 implies {
                            let n = neighbour(a.0, a.1, e);
                            (0 <= n.0 < w && 0 <= n.1 < h && solid(r, n)) ==> #[trigger] before.union(found).contains(neighbour(a.0, a.1, e))
                        } by {
                            let n = neighbour(a.0, a.1, e);
                            if e < d && 0 <= n.0 < w && 0 <= n.1 < h && solid(r, n) {
                                assert(before.union(found1).contains(n));
                            }
                        }
                    }
                }
                None => {}
            }
            d = d + 1;
        }
        proof {
            let m = before.union(found);
            assert(closed_at(r, a, m)) by {
                assert forall|b: (int, int)| #[trigger] adjacent(a, b) && solid(r, b) implies m.contains(b) by {
                    if b == neighbour(a.0, a.1, 0) {
                    } else if b == neighbour(a.0, a.1, 1) {
                    } else if b == neighbour(a.0, a.1, 2) {
                    } else {
                        assert(b == neighbour(a.0, a.1, 3));
                    }
                }
            }
            assert forall|c: (int, int)| #[trigger] found.contains(c) implies stacked(stack@, c) || closed_at(r, c, before.union(found)) by {
                if !found0.contains(c) {
                } else if c == a {
                } else if stacked(stack0, c) {
                    let i = choose|i: int| 0 <= i < stack0.len() && (#[trigger] stack0[i]).0 as int == c.0 && stack0[i].1 as int == c.1;
                    assert(i < stack0.len() - 1);
                    assert(popped[i] == stack0[i]);
                    assert(stack@.take(popped.len() as int)[i] == popped[i]);
                    assert(stack@[i] == stack0[i]);
                } else {
                    assert(closed_at(r, c, before.union(found0)));
                    assert forall|b: (int, int)| #[trigger] adjacent(c, b) && solid(r, b) implies before.union(found).contains(b) by {
                        assert(before.union(found0).contains(b));
                    }
                }
            }
        }
    }
    proof {
        assert forall|a: (int, int), b: (int, int)|
            #![trigger found.contains(a), adjacent(a, b)]
            found.contains(a) && adjacent(a, b) && solid(r, b) implies found.contains(b) by {
            assert(!stacked(stack@, a));
            assert(closed_at(r, a, before.union(found)));
            assert(before.union(found).contains(b));
            lemma_step(r, seed, a, b);
            if before.contains(b) {
                assert(!connected(r, seed, b));
            }
        }
        assert forall|q: (int, int)| region(r, seed).contains(q) <==> found.contains(q) by {
            if region(r, seed).contains(q) {
                lemma_closed_holds_region(r, found, seed, q);
            }
        }
        assert(region(r, seed) =~= found);
    }
    (size, (bx0, by0, bx1, by1))
}

} // verus!

verus! {

/// The pixels lying in the region of a leader that comes before `p`.
pub open spec fn marked_upto(r: Raster, p: (int, int)) -> Set<(int, int)> {
    Set::new(|q: (int, int)| exists|l: (int, int)| #![trigger connected(r, l, q)] leader(r, l) && before(l, p) && connected(r, l, q))
}

/// The surviving pixels before `p`.
pub open spec fn solids_upto(r: Raster, p: (int, int)) -> Set<(int, int)> {
    Set::new(|q: (int, int)| solid(r, q) && before(q, p))
}

/// The leaders before `p`.
pub open spec fn leaders_upto(r: Raster, p: (int, int)) -> Set<(int, int)> {
    Set::new(|q: (int, int)| leader(r, q) && before(q, p))
}

/// The leaders of substantial regions before `p`.
pub open spec fn big_upto(r: Raster, p: (int, int)) -> Set<(int, int)> {
    Set::new(|q: (int, int)| leader(r, q) && before(q, p) && region_size(r, q) >= SUBSTANTIAL_PIECE)
}

/// `m` is the size of the largest region led from `l`, or zero when there
/// is none.
pub open spec fn largest_of(r: Raster, l: Set<(int, int)>, m: int) -> bool {
    &&& l.len() == 0 ==> m == 0
    &&& l.len() > 0 ==> (exists|q: (int, int)| #[trigger] l.contains(q) && region_size(r, q) == m)
    &&& forall|q: (int, int)| #[trigger] l.contains(q) ==> region_size(r, q) <= m
}

/// What survived a cut, measured in whole pixels.
#[derive(Debug, Clone, Copy, PartialEq, Eq, Structural)]
pub struct Survivors {
    /// Surviving pixels.
    pub total: usize,
    /// Separate regions, of any size.
    pub pieces: usize,
    /// Regions of at least [`SUBSTANTIAL_PIECE`] pixels.
    pub substantial: usize,
    /// The pixels of the largest region.
    pub largest: usize,
    /// The area of the smallest box holding every surviving pixel.
    pub box_area: usize,
}

/// `s` measures what survived in `r`.
pub open spec fn measures(r: Raster, s: Survivors) -> bool {
    &&& solids(r).finite() && s.total == solids(r).len()
    &&& leaders(r).finite() && s.pieces == leaders(r).len()
    &&& big_leaders(r).finite() && s.substantial == big_leaders(r).len()
    &&& largest_of(r, leaders(r), s.largest as int)
    &&& s.total == 0 ==> s.box_area == 0
    &&& s.total > 0 ==> exists|b: (int, int, int, int)| #[trigger] bounds(solids(r), b) && s.box_area == (b.2 - b.0 + 1) * (b.3 - b.1 + 1)
}

pub(crate) proof fn lemma_unmarked_is_leader(r: Raster, p: (int, int))
    requires
        r.wf(),
        solid(r, p),
        !marked_upto(r, p).contains(p),
    ensures
        leader(r, p),
        forall|q: (int, int)| #[trigger] marked_upto(r, p).contains(q) ==> !connected(r, p, q),
{
    assert forall|q: (int, int)| before(q, p) implies !#[trigger] connected(r, q, p) by {
        if connected(r, q, p) {
            lemma_connected_solid(r, q, p);
            lemma_has_leader(r, q);
            let l = choose|l: (int, int)| #[trigger] leader(r, l) && connected(r, l, q) && (l == q || before(l, q));
            lemma_transitive(r, l, q, p);
            assert(marked_upto(r, p).contains(p));
        }
    }
    assert forall|q: (int, int)| #[trigger] marked_upto(r, p).contains(q) implies !connected(r, p, q) by {
        if connected(r, p, q) {
            let l = choose|l: (int, int)| #![trigger connected(r, l, q)] leader(r, l) && before(l, p) && connected(r, l, q);
            lemma_symmetric(r, p, q);
            lemma_transitive(r, l, q, p);
            assert(marked_upto(r, p).contains(p));
        }
    }
}

pub(crate) proof fn lemma_marked_not_leader(r: Raster, p: (int, int))
    requires
        marked_upto(r, p).contains(p),
    ensures
        !leader(r, p),
{
    let l = choose|l: (int, int)| #![trigger connected(r, l, p)] leader(r, l) && before(l, p) && connected(r, l, p);
}

pub(crate) proof fn lemma_upto_finite(r: Raster, p: (int, int))
    requires
        r.wf(),
    ensures
        solids_upto(r, p).finite(),
        leaders_upto(r, p).finite(),
        big_upto(r, p).finite(),
        solids_upto(r, p).len() <= r.width * r.height,
        leaders_upto(r, p).subset_of(solids_upto(r, p)),
        big_upto(r, p).subset_of(leaders_upto(r, p)),
{
    lemma_grid_finite(r.width as int, r.height as int);
    assert(solids_upto(r, p).subset_of(grid(r.width as int, r.height as int)));
    vstd::set_lib::lemma_len_subset(solids_upto(r, p), grid(r.width as int, r.height as int));
    vstd::set_lib::lemma_len_subset(leaders_upto(r, p), solids_upto(r, p));
    vstd::set_lib::lemma_len_subset(big_upto(r, p), leaders_upto(r, p));
}

/// Moving one pixel on in reading order adds that pixel, and its region when
/// it leads one.
pub(crate) proof fn lemma_advance(r: Raster, x: int, y: int)
    ensures
        solids_upto(r, (x + 1, y)) == (if solid(r, (x, y)) { solids_upto(r, (x, y)).insert((x, y)) } else { solids_upto(r, (x, y)) }),
        leaders_upto(r, (x + 1, y)) == (if leader(r, (x, y)) { leaders_upto(r, (x, y)).insert((x, y)) } else { leaders_upto(r, (x, y)) }),
        big_upto(r, (x + 1, y)) == (if leader(r, (x, y)) && region_size(r, (x, y)) >= SUBSTANTIAL_PIECE {
            big_upto(r, (x, y)).insert((x, y))
        } else {
            big_upto(r, (x, y))
        }),
        marked_upto(r, (x + 1, y)) == (if leader(r, (x, y)) { marked_upto(r, (x, y)).union(region(r, (x, y))) } else { marked_upto(r, (x, y)) }),
        !solids_upto(r, (x, y)).contains((x, y)),
        !leaders_upto(r, (x, y)).contains((x, y)),
        !big_upto(r, (x, y)).contains((x, y)),
{
    let p = (x, y);
    let p2 = (x + 1, y);
    assert(solids_upto(r, p2) =~= (if solid(r, p) { solids_upto(r, p).insert(p) } else { solids_upto(r, p) }));
    assert(leaders_upto(r, p2) =~= (if leader(r, p) { leaders_upto(r, p).insert(p) } else { leaders_upto(r, p) }));
    assert(big_upto(r, p2) =~= (if leader(r, p) && region_size(r, p) >= SUBSTANTIAL_PIECE { big_upto(r, p).insert(p) } else { big_upto(r, p) }));
    let m2 = if leader(r, p) { marked_upto(r, p).union(region(r, p)) } else { marked_upto(r, p) };
    assert forall|q: (int, int)| marked_upto(r, p2).contains(q) <==> m2.contains(q) by {
        if marked_upto(r, p2).contains(q) {
            let l = choose|l: (int, int)| #![trigger connected(r, l, q)] leader(r, l) && before(l, p2) && connected(r, l, q);
            if l != p {
                assert(marked_upto(r, p).contains(q));
            }
        }
        if m2.contains(q) {
            if marked_upto(r, p).contains(q) {
                let l = choose|l: (int, int)| #![trigger connected(r, l, q)] leader(r, l) && before(l, p) && connected(r, l, q);
                assert(before(l, p2));
            } else {
                assert(leader(r, p) && connected(r, p, q));
                assert(before(p, p2));
            }
        }
    }
    assert(marked_upto(r, p2) =~= m2);
}

/// The end of a row and the start of the next are the same point of the
/// scan.
pub(crate) proof fn lemma_row_end(r: Raster, y: int)
    requires
        r.wf(),
    ensures
        solids_upto(r, (r.width as int, y)) == solids_upto(r, (0, y + 1)),
        leaders_upto(r, (r.width as int, y)) == leaders_upto(r, (0, y + 1)),
        big_upto(r, (r.width as int, y)) == big_upto(r, (0, y + 1)),
        marked_upto(r, (r.width as int, y)) == marked_upto(r, (0, y + 1)),
{
    let w = r.width as int;
    assert(solids_upto(r, (w, y)) =~= solids_upto(r, (0, y + 1)));
    assert(leaders_upto(r, (w, y)) =~= leaders_upto(r, (0, y + 1)));
    assert(big_upto(r, (w, y)) =~= big_upto(r, (0, y + 1)));
    assert forall|q: (int, int)| marked_upto(r, (w, y)).contains(q) <==> marked_upto(r, (0, y + 1)).contains(q) by {
        if marked_upto(r, (w, y)).contains(q) {
            let l = choose|l: (int, int)| #![trigger connected(r, l, q)] leader(r, l) && before(l, (w, y)) && connected(r, l, q);
            assert(before(l, (0, y + 1)));
        }
        if marked_upto(r, (0, y + 1)).contains(q) {
            let l = choose|l: (int, int)| #![trigger connected(r, l, q)] leader(r, l) && before(l, (0, y + 1)) && connected(r, l, q);
            assert(before(l, (w, y)));
        }
    }
    assert(marked_upto(r, (w, y)) =~= marked_upto(r, (0, y + 1)));
}

pub(crate) proof fn lemma_scan_end(r: Raster)
    requires
        r.wf(),
    ensures
        solids_upto(r, (0, r.height as int)) == solids(r),
        leaders_upto(r, (0, r.height as int)) == leaders(r),
        big_upto(r, (0, r.height as int)) == big_leaders(r),
{
    let h = r.height as int;
    assert(solids_upto(r, (0, h)) =~= solids(r));
    assert(leaders_upto(r, (0, h)) =~= leaders(r));
    assert(big_upto(r, (0, h)) =~= big_leaders(r));
}

pub(crate) proof fn lemma_scan_start(r: Raster)
    ensures
        solids_upto(r, (0, 0)) == Set::<(int, int)>::empty(),
        leaders_upto(r, (0, 0)) == Set::<(int, int)>::empty(),
        big_upto(r, (0, 0)) == Set::<(int, int)>::empty(),
        marked_upto(r, (0, 0)) == Set::<(int, int)>::empty(),
{
    assert(solids_upto(r, (0, 0)) =~= Set::<(int, int)>::empty());
    assert(leaders_upto(r, (0, 0)) =~= Set::<(int, int)>::empty());
    assert(big_upto(r, (0, 0)) =~= Set::<(int, int)>::empty());
    assert forall|q: (int, int)| !marked_upto(r, (0, 0)).contains(q) by {
        if marked_upto(r, (0, 0)).contains(q) {
            let l = choose|l: (int, int)| #![trigger connected(r, l, q)] leader(r, l) && before(l, (0, 0)) && connected(r, l, q);
        }
    }
    assert(marked_upto(r, (0, 0)) =~= Set::<(int, int)>::empty());
}

} // verus!

verus! {

pub(crate) proof fn lemma_bounds_first(s: Set<(int, int)>, p: (int, int))
    requires
        s.finite(),
        s.len() == 0,
    ensures
        bounds(s.insert(p), (p.0, p.1, p.0, p.1)),
{
    assert(s =~= Set::<(int, int)>::empty()) by {
        if exists|q: (int, int)| s.contains(q) {
            let q = choose|q: (int, int)| s.contains(q);
            vstd::set_lib::lemma_len_subset(Set::<(int, int)>::empty().insert(q), s);
        }
    }
    assert(s.insert(p).contains(p));
}

pub(crate) proof fn lemma_bounds_grow(s: Set<(int, int)>, b: (int, int, int, int), p: (int, int), nb: (int, int, int, int))
    requires
        bounds(s, b),
        nb.0 == (if p.0 < b.0 { p.0 } else { b.0 }),
        nb.1 == (if p.1 < b.1 { p.1 } else { b.1 }),
        nb.2 == (if p.0 > b.2 { p.0 } else { b.2 }),
        nb.3 == (if p.1 > b.3 { p.1 } else { b.3 }),
    ensures
        bounds(s.insert(p), nb),
{
    let t = s.insert(p);
    assert(t.contains(p));
    let q0 = choose|q: (int, int)| #[trigger] s.contains(q) && q.0 == b.0;
    let q1 = choose|q: (int, int)| #[trigger] s.contains(q) && q.1 == b.1;
    let q2 = choose|q: (int, int)| #[trigger] s.contains(q) && q.0 == b.2;
    let q3 = choose|q: (int, int)| #[trigger] s.contains(q) && q.1 == b.3;
    assert(t.contains(q0) && t.contains(q1) && t.contains(q2) && t.contains(q3));
}

/// Measures what survived a cut: the surviving pixels (more than half
/// opaque), the separate edge-connected regions they form, how many of
/// those are substantial, the largest, and the box they all lie in.
pub fn survivors(bitmap: &Bitmap) -> (out: Survivors)
    requires
        bitmap@.wf(),
    ensures
        measures(bitmap@, out),
{
    let ghost r = bitmap@;
    let (w, h) = (bitmap.width, bitmap.height);
    let plen = bitmap.pixels.len();
    assert((w as int) * (h as int) <= plen) by (nonlinear_arith)
        requires
            plen == (w as int) * (h as int) * 4,
    ;
    let n: usize = (w as usize) * (h as usize);
    let mut seen: Vec<bool> = vec![false; n];
    let mut total: usize = 0;
    let mut pieces: usize = 0;
    let mut substantial: usize = 0;
    let mut largest: usize = 0;
    let mut x0: u32 = u32::MAX;
    let mut y0: u32 = u32::MAX;
    let mut x1: u32 = 0;
    let mut y1: u32 = 0;
    proof {
        lemma_scan_start(r);
        assert forall|px: int, py: int| 0 <= px < w && 0 <= py < h implies #[trigger] seen@[cell(w as int, px, py)]
            == marked_upto(r, (0, 0)).contains((px, py)) by {
            lemma_cell(w as int, h as int, px, py);
        }
        assert(largest_of(r, leaders_upto(r, (0, 0)), 0));
    }
    let mut y: u32 = 0;
    while y < h
        invariant
            r == bitmap@,
            r.wf(),
            w == bitmap.width,
            h == bitmap.height,
            y <= h,
            n == w * h,
            seen@.len() == n,
            mirrors(seen@, w as int, h as int, marked_upto(r, (0, y as int))),
            total == solids_upto(r, (0, y as int)).len(),
            pieces == leaders_upto(r, (0, y as int)).len(),
            substantial == big_upto(r, (0, y as int)).len(),
            largest_of(r, leaders_upto(r, (0, y as int)), largest as int),
            solids_upto(r, (0, y as int)).len() == 0 ==> x0 == u32::MAX && y0 == u32::MAX && x1 == 0 && y1 == 0,
            solids_upto(r, (0, y as int)).len() > 0 ==> bounds(solids_upto(r, (0, y as int)), (x0 as int, y0 as int, x1 as int, y1 as int)),
        decreases h - y,
    {
        let mut x: u32 = 0;
        while x < w
            invariant
                r == bitmap@,
                r.wf(),
                w == bitmap.width,
                h == bitmap.height,
                y < h,
                x <= w,
                n == w * h,
                seen@.len() == n,
                mirrors(seen@, w as int, h as int, marked_upto(r, (x as int, y as int))),
                total == solids_upto(r, (x as int, y as int)).len(),
                pieces == leaders_upto(r, (x as int, y as int)).len(),
                substantial == big_upto(r, (x as int, y as int)).len(),
                largest_of(r, leaders_upto(r, (x as int, y as int)), largest as int),
                solids_upto(r, (x as int, y as int)).len() == 0 ==> x0 == u32::MAX && y0 == u32::MAX && x1 == 0 && y1 == 0,
                solids_upto(r, (x as int, y as int)).len() > 0 ==> bounds(
                    solids_upto(r, (x as int, y as int)),
                    (x0 as int, y0 as int, x1 as int, y1 as int),
                ),
            decreases w - x,
        {
            let ghost p = (x as int, y as int);
            let ghost p2 = (x as int + 1, y as int);
            proof {
                lemma_advance(r, p.0, p.1);
                lemma_upto_finite(r, p);
                lemma_upto_finite(r, p2);
                lemma_cell(w as int, h as int, p.0, p.1);
            }
            let a = bitmap.alpha(x, y);
            if a > 128 {
                assert(solid(r, p));
                let ghost s_before = solids_upto(r, p);
                assert(total + 1 == solids_upto(r, p2).len());
                total = total + 1;
                proof {
                    if s_before.len() == 0 {
                        lemma_bounds_first(s_before, p);
                    } else {
                        lemma_bounds_grow(
                            s_before,
                            (x0 as int, y0 as int, x1 as int, y1 as int),
                            p,
                            (
                                if p.0 < x0 { p.0 } else { x0 as int },
                                if p.1 < y0 { p.1 } else { y0 as int },
                                if p.0 > x1 { p.0 } else { x1 as int },
                                if p.1 > y1 { p.1 } else { y1 as int },
                            ),
                        );
                    }
                }
                if x < x0 {
                    x0 = x;
                }
                if y < y0 {
                    y0 = y;
                }
                if x > x1 {
                    x1 = x;
                }
                if y > y1 {
                    y1 = y;
                }
                let i = (y as usize) * (w as usize) + (x as usize);
                if !seen[i] {
                    assert(!marked_upto(r, p).contains(p));
                    proof {
                        lemma_unmarked_is_leader(r, p);
                    }
                    let (size, _) = flood(bitmap, &mut seen, x, y, Ghost(marked_upto(r, p)));
                    proof {
                        vstd::set_lib::lemma_len_subset(leaders_upto(r, p2), solids_upto(r, p2));
                        vstd::set_lib::lemma_len_subset(big_upto(r, p2), leaders_upto(r, p2));
                    }
                    pieces = pieces + 1;
                    if size >= SUBSTANTIAL_PIECE {
                        substantial = substantial + 1;
                    }
                    proof {
                        let l0 = leaders_upto(r, p);
                        let l1 = leaders_upto(r, p2);
                        assert(l1 == l0.insert(p));
                        assert(l1.contains(p) && region_size(r, p) == size as int);
                        assert(l1.len() == l0.len() + 1);
                        if size as int > largest as int {
                            assert forall|q: (int, int)| #[trigger] l1.contains(q) implies region_size(r, q) <= size as int by {
                                if q != p {
                                    assert(l0.contains(q));
                                }
                            }
                            assert(largest_of(r, l1, size as int));
                        } else {
                            assert(l0.len() > 0) by {
                                if l0.len() == 0 {
                                    assert(largest == 0);
                                    assert(size as int > largest as int) by {
                                        lemma_self(r, p);
                                        lemma_region_finite(r, p);
                                        assert(region(r, p).contains(p));
                                        vstd::set_lib::lemma_len_subset(Set::<(int, int)>::empty().insert(p), region(r, p));
                                    }
                                }
                            }
                            let q0 = choose|q: (int, int)| #[trigger] l0.contains(q) && region_size(r, q) == largest as int;
                            assert(l1.contains(q0));
                            assert forall|q: (int, int)| #[trigger] l1.contains(q) implies region_size(r, q) <= largest as int by {
                                if q != p {
                                    assert(l0.contains(q));
                                }
                            }
                            assert(largest_of(r, l1, largest as int));
                        }
                    }
                    if size > largest {
                        largest = size;
                    }
                    proof {
                        assert(marked_upto(r, p).union(region(r, p)) == marked_upto(r, p2));
                    }
                } else {
                    proof {
                        lemma_marked_not_leader(r, p);
                    }
                }
            } else {
                assert(!solid(r, p));
            }
            x = x + 1;
        }
        proof {
            lemma_row_end(r, y as int);
        }
        y = y + 1;
    }
    proof {
        lemma_scan_end(r);
        lemma_upto_finite(r, (0, h as int));
    }
    let box_area: usize = if total == 0 {
        0
    } else {
        proof {
            let b = (x0 as int, y0 as int, x1 as int, y1 as int);
            let q2 = choose|q: (int, int)| #[trigger] solids(r).contains(q) && q.0 == b.2;
            let q3 = choose|q: (int, int)| #[trigger] solids(r).contains(q) && q.1 == b.3;
            assert(x1 < w && y1 < h);
            assert((x1 - x0 + 1) * (y1 - y0 + 1) <= (w as int) * (h as int)) by (nonlinear_arith)
                requires
                    x0 <= x1 < w,
                    y0 <= y1 < h,
            ;
        }
        ((x1 - x0 + 1) as usize) * ((y1 - y0 + 1) as usize)
    };
    Survivors { total, pieces, substantial, largest, box_area }
}

} // verus!

verus! {

pub(crate) proof fn lemma_bounds_unique(s: Set<(int, int)>, b: (int, int, int, int), c: (int, int, int, int))
    requires
        bounds(s, b),
        bounds(s, c),
    ensures
        b == c,
{
    let b0 = choose|p: (int, int)| #[trigger] s.contains(p) && p.0 == b.0;
    let b1 = choose|p: (int, int)| #[trigger] s.contains(p) && p.1 == b.1;
    let b2 = choose|p: (int, int)| #[trigger] s.contains(p) && p.0 == b.2;
    let b3 = choose|p: (int, int)| #[trigger] s.contains(p) && p.1 == b.3;
    let c0 = choose|p: (int, int)| #[trigger] s.contains(p) && p.0 == c.0;
    let c1 = choose|p: (int, int)| #[trigger] s.contains(p) && p.1 == c.1;
    let c2 = choose|p: (int, int)| #[trigger] s.contains(p) && p.0 == c.2;
    let c3 = choose|p: (int, int)| #[trigger] s.contains(p) && p.1 == c.3;
}

/// What survived a cut is measured one way only: two measurements of one
/// image agree in every count.
pub proof fn law_measurement_is_unique(r: Raster, s1: Survivors, s2: Survivors)
    requires
        measures(r, s1),
        measures(r, s2),
    ensures
        s1 == s2,
{
    let l = leaders(r);
    if l.len() > 0 {
        let q1 = choose|q: (int, int)| #[trigger] l.contains(q) && region_size(r, q) == s1.largest as int;
        let q2 = choose|q: (int, int)| #[trigger] l.contains(q) && region_size(r, q) == s2.largest as int;
        assert(region_size(r, q1) <= s2.largest);
        assert(region_size(r, q2) <= s1.largest);
    }
    if s1.total > 0 {
        let b1 = choose|b: (int, int, int, int)| #[trigger] bounds(solids(r), b) && s1.box_area == (b.2 - b.0 + 1) * (b.3 - b.1 + 1);
        let b2 = choose|b: (int, int, int, int)| #[trigger] bounds(solids(r), b) && s2.box_area == (b.2 - b.0 + 1) * (b.3 - b.1 + 1);
        lemma_bounds_unique(solids(r), b1, b2);
    }
}

/// A subject rather than debris: one region holding at least half of what
/// survived, or between one and [`MOST_PIECES`] substantial pieces that fill
/// at least a fifth of their own box. The ratios are compared exactly, in
/// whole pixels.
pub open spec fn coherent(s: Survivors) -> bool {
    s.total > 0 && (2 * s.largest >= s.total || (1 <= s.substantial <= MOST_PIECES && 5 * s.total >= s.box_area))
}

/// Whether what survived a cut is a subject rather than debris.
///
/// Judged from the output rather than predicted from the input. Artwork
/// legitimately takes two shapes, one dominant region or a few real pieces
/// filling their box (a wordmark); a shredded portrait is neither, many
/// pieces, none dominant, scattered around a hole.
pub fn survivor_is_coherent(bitmap: &Bitmap) -> (b: bool)
    requires
        bitmap@.wf(),
    ensures
        exists|s: Survivors| #[trigger] measures(bitmap@, s) && b == coherent(s),
{
    let s = survivors(bitmap);
    if s.total == 0 {
        return false;
    }
    if (s.largest as u128) * 2 >= s.total as u128 {
        return true;
    }
    1 <= s.substantial && s.substantial <= MOST_PIECES && (s.total as u128) * 5 >= s.box_area as u128
}

} // verus!
