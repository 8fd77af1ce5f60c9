//! An RGBA bitmap and the pixel operations the cursor pipeline needs.
//!
//! Straight (non-premultiplied) alpha, eight bits a channel, rows top-down.
//! The mathematical model of a bitmap is a [`Raster`]: a width, a height and
//! the byte sequence, read through [`Raster::at`].

use vstd::prelude::*;
use crate::error::AppError;

verus! {

/// Offset of channel `c` of pixel `(x, y)` in a row-major RGBA buffer.
pub open spec fn offset(width: int, x: int, y: int, c: int) -> int {
    (y * width + x) * 4 + c
}

/// The model of a bitmap: its dimensions and its RGBA bytes.
pub struct Raster {
    pub width: nat,
    pub height: nat,
    pub bytes: Seq<u8>,
}

impl Raster {
    /// The byte sequence holds exactly one RGBA quadruple per pixel.
    pub open spec fn wf(self) -> bool {
        self.bytes.len() == self.width * self.height * 4
    }

    pub open spec fn in_bounds(self, x: int, y: int) -> bool {
        0 <= x < self.width && 0 <= y < self.height
    }

    /// Channel `c` (0 red, 1 green, 2 blue, 3 alpha) of pixel `(x, y)`.
    pub open spec fn at(self, x: int, y: int, c: int) -> u8 {
        self.bytes[offset(self.width as int, x, y, c)]
    }

    pub open spec fn alpha(self, x: int, y: int) -> u8 {
        self.at(x, y, 3)
    }

    /// The four channels of one pixel, as a sequence.
    pub open spec fn pixel(self, x: int, y: int) -> Seq<u8> {
        seq![self.at(x, y, 0), self.at(x, y, 1), self.at(x, y, 2), self.at(x, y, 3)]
    }
}

/// The raster of the given size whose channel `(x, y, c)` is `f(x, y, c)`.
pub open spec fn raster_from(width: nat, height: nat, f: spec_fn(int, int, int) -> u8) -> Raster {
    Raster {
        width,
        height,
        bytes: Seq::new(
            width * height * 4,
            |k: int| f((k / 4) % (width as int), (k / 4) / (width as int), k % 4),
        ),
    }
}

pub proof fn lemma_offset_bounds(width: int, height: int, x: int, y: int, c: int)
    requires
        0 <= x < width,
        0 <= y < height,
        0 <= c < 4,
    ensures
        0 <= y * width,
        y * width + x < width * height,
        0 <= offset(width, x, y, c) < width * height * 4,
        offset(width, x, y, c) + (4 - c) <= width * height * 4,
{
    assert(0 <= y * width && y * width + x < width * height) by (nonlinear_arith)
        requires
            0 <= x < width,
            0 <= y < height,
    ;
}

/// Two pixels share no byte unless they are the same pixel.
pub proof fn lemma_offset_injective(
    width: int,
    x1: int,
    y1: int,
    c1: int,
    x2: int,
    y2: int,
    c2: int,
)
    requires
        0 <= x1 < width,
        0 <= x2 < width,
        0 <= y1,
        0 <= y2,
        0 <= c1 < 4,
        0 <= c2 < 4,
        offset(width, x1, y1, c1) == offset(width, x2, y2, c2),
    ensures
        x1 == x2,
        y1 == y2,
        c1 == c2,
{
    let p1 = y1 * width + x1;
    let p2 = y2 * width + x2;
    assert(p1 == p2 && c1 == c2);
    assert(y1 == y2) by (nonlinear_arith)
        requires
            0 <= x1 < width,
            0 <= x2 < width,
            0 <= y1,
            0 <= y2,
            y1 * width + x1 == y2 * width + x2,
    ;
}

/// Every byte of a well-formed raster belongs to exactly one pixel channel.
pub proof fn lemma_offset_decompose(width: int, height: int, k: int)
    requires
        width > 0,
        0 <= k < width * height * 4,
    ensures
        0 <= (k / 4) % width < width,
        0 <= (k / 4) / width < height,
        0 <= k % 4 < 4,
        offset(width, (k / 4) % width, (k / 4) / width, k % 4) == k,
{
    let p = k / 4;
    assert(k == p * 4 + k % 4);
    vstd::arithmetic::div_mod::lemma_fundamental_div_mod(p, width);
    assert(p == width * (p / width) + p % width);
    assert(0 <= p % width < width) by {
        vstd::arithmetic::div_mod::lemma_mod_bound(p, width);
    }
    assert(0 <= p < width * height);
    assert(0 <= p / width < height) by (nonlinear_arith)
        requires
            width > 0,
            0 <= p < width * height,
            p == width * (p / width) + p % width,
            0 <= p % width < width,
    ;
    assert((p / width) * width == width * (p / width)) by (nonlinear_arith);
}

/// Reading a constructed raster gives back the function it was built from.
pub proof fn lemma_raster_from_at(width: nat, height: nat, f: spec_fn(int, int, int) -> u8, x: int, y: int, c: int)
    requires
        0 <= x < width,
        0 <= y < height,
        0 <= c < 4,
    ensures
        raster_from(width, height, f).wf(),
        raster_from(width, height, f).at(x, y, c) == f(x, y, c),
{
    let r = raster_from(width, height, f);
    let k = offset(width as int, x, y, c);
    lemma_offset_bounds(width as int, height as int, x, y, c);
    lemma_offset_decompose(width as int, height as int, k);
    lemma_offset_injective(
        width as int,
        x,
        y,
        c,
        (k / 4) % (width as int),
        (k / 4) / (width as int),
        k % 4,
    );
}

/// Two well-formed rasters of one size that agree on every channel of every
/// pixel are the same raster.
pub proof fn lemma_raster_ext(a: Raster, b: Raster)
    requires
        a.wf(),
        b.wf(),
        a.width == b.width,
        a.height == b.height,
        forall|x: int, y: int, c: int|
            #![trigger a.at(x, y, c)]
            #![trigger b.at(x, y, c)]
            a.in_bounds(x, y) && 0 <= c < 4 ==> a.at(x, y, c) == b.at(x, y, c),
    ensures
        a == b,
{
    assert forall|k: int| 0 <= k < a.bytes.len() implies a.bytes[k] == b.bytes[k] by {
        let w = a.width as int;
        assert(w > 0) by (nonlinear_arith)
            requires
                a.bytes.len() == w * (a.height as int) * 4,
                0 <= k < a.bytes.len(),
                w >= 0,
                a.height >= 0,
        ;
        lemma_offset_decompose(w, a.height as int, k);
        let x = (k / 4) % w;
        let y = (k / 4) / w;
        let c = k % 4;
        assert(a.at(x, y, c) == b.at(x, y, c));
    }
    assert(a.bytes =~= b.bytes);
}

/// An RGBA8 bitmap, row-major and top-down.
#[derive(Debug, Clone, PartialEq, Eq)]
pub struct Bitmap {
    pub width: u32,
    pub height: u32,
    /// RGBA8, row-major, top-down.
    pub pixels: Vec<u8>,
}

impl View for Bitmap {
    type V = Raster;

    open spec fn view(&self) -> Raster {
        Raster { width: self.width as nat, height: self.height as nat, bytes: self.pixels@ }
    }
}

/// The byte count of a bitmap of the given size fits the address space.
pub open spec fn fits(width: int, height: int) -> bool {
    width * height * 4 <= usize::MAX
}

impl Bitmap {
    /// A fully transparent bitmap.
    pub fn new(width: u32, height: u32) -> (out: Bitmap)
        requires
            fits(width as int, height as int),
        ensures
            out@.wf(),
            out.width == width,
            out.height == height,
            forall|k: int| 0 <= k < out@.bytes.len() ==> #[trigger] out@.bytes[k] == 0,
    {
        assert(0 <= width as int * height as int) by (nonlinear_arith);
        let n = (width as usize) * (height as usize) * 4;
        let pixels: Vec<u8> = vec![0u8; n];
        Bitmap { width, height, pixels }
    }

    /// Wraps an RGBA buffer, refusing one whose length does not match.
    pub fn from_rgba(width: u32, height: u32, pixels: Vec<u8>) -> (out: Result<Bitmap, AppError>)
        ensures
            match out {
                Ok(b) => pixels@.len() == width as int * height as int * 4 && b.width == width
                    && b.height == height && b.pixels@ == pixels@,
                Err(e) => pixels@.len() != width as int * height as int * 4 && e
                    == AppError::PixelBufferLength,
            },
    {
        assert((width as int) * (height as int) <= 0xffff_ffff * 0xffff_ffff) by (nonlinear_arith)
            requires
                width <= 0xffff_ffff,
                height <= 0xffff_ffff,
        ;
        let expected = (width as u128) * (height as u128) * 4;
        if (pixels.len() as u128) != expected {
            return Err(AppError::PixelBufferLength);
        }
        Ok(Bitmap { width, height, pixels })
    }

    /// Byte offset of pixel `(x, y)`.
    fn index(&self, x: u32, y: u32) -> (i: usize)
        requires
            self@.wf(),
            self@.in_bounds(x as int, y as int),
        ensures
            i == offset(self.width as int, x as int, y as int, 0),
            i + 4 <= self.pixels@.len(),
    {
        let n = self.pixels.len();
        proof {
            lemma_offset_bounds(self.width as int, self.height as int, x as int, y as int, 0);
        }
        assert((y as int) * (self.width as int) + (x as int) < n);
        ((y as usize) * (self.width as usize) + (x as usize)) * 4
    }

    /// The RGBA value of one pixel.
    pub fn pixel(&self, x: u32, y: u32) -> (rgba: [u8; 4])
        requires
            self@.wf(),
            self@.in_bounds(x as int, y as int),
        ensures
            rgba@ == self@.pixel(x as int, y as int),
    {
        let i = self.index(x, y);
        let out = [self.pixels[i], self.pixels[i + 1], self.pixels[i + 2], self.pixels[i + 3]];
        assert(out@ =~= self@.pixel(x as int, y as int));
        out
    }

    /// Overwrites one pixel.
    pub fn set_pixel(&mut self, x: u32, y: u32, rgba: [u8; 4])
        requires
            old(self)@.wf(),
            old(self)@.in_bounds(x as int, y as int),
        ensures
            final(self)@.wf(),
            final(self).width == old(self).width,
            final(self).height == old(self).height,
            forall|c: int| 0 <= c < 4 ==> #[trigger] final(self)@.at(x as int, y as int, c) == rgba[c],
            forall|x2: int, y2: int, c: int|
                #![trigger final(self)@.at(x2, y2, c)]
                old(self)@.in_bounds(x2, y2) && 0 <= c < 4 && (x2 != x || y2 != y)
                    ==> final(self)@.at(x2, y2, c) == old(self)@.at(x2, y2, c),
    {
        let i = self.index(x, y);
        self.pixels.set(i, rgba[0]);
        self.pixels.set(i + 1, rgba[1]);
        self.pixels.set(i + 2, rgba[2]);
        self.pixels.set(i + 3, rgba[3]);
        proof {
            let w = self.width as int;
            assert forall|x2: int, y2: int, c: int|
                old(self)@.in_bounds(x2, y2) && 0 <= c < 4 && (x2 != x || y2 != y)
                implies #[trigger] self@.at(x2, y2, c) == old(self)@.at(x2, y2, c) by {
                let k = offset(w, x2, y2, c);
                lemma_offset_bounds(w, self.height as int, x2, y2, c);
                if i <= k < i + 4 {
                    lemma_offset_injective(w, x2, y2, c, x as int, y as int, k - i);
                }
            }
        }
    }

    /// The alpha channel of one pixel.
    pub fn alpha(&self, x: u32, y: u32) -> (a: u8)
        requires
            self@.wf(),
            self@.in_bounds(x as int, y as int),
        ensures
            a == self@.alpha(x as int, y as int),
    {
        let i = self.index(x, y);
        self.pixels[i + 3]
    }
}

/// A bijective rearrangement of pixels: a mirror or a rotation by right angles.
#[derive(Debug, Clone, Copy, PartialEq, Eq)]
pub enum Mapping {
    /// Left to right.
    FlipH,
    /// Top to bottom.
    FlipV,
    /// A quarter turn clockwise.
    Quarter,
    /// A half turn.
    Half,
    /// Three quarter turns clockwise.
    ThreeQuarter,
}

/// Whether a mapping exchanges the axes.
pub open spec fn swaps_axes(m: Mapping) -> bool {
    m == Mapping::Quarter || m == Mapping::ThreeQuarter
}

/// The source pixel that lands on `(x, y)` of the mapped image, for a source
/// that is `w` by `h`.
pub open spec fn source_of(m: Mapping, w: int, h: int, x: int, y: int) -> (int, int) {
    match m {
        Mapping::FlipH => (w - 1 - x, y),
        Mapping::FlipV => (x, h - 1 - y),
        Mapping::Quarter => (y, h - 1 - x),
        Mapping::Half => (w - 1 - x, h - 1 - y),
        Mapping::ThreeQuarter => (w - 1 - y, x),
    }
}

/// The raster after a mapping.
pub open spec fn remapped(r: Raster, m: Mapping) -> Raster {
    let (w2, h2) = if swaps_axes(m) { (r.height, r.width) } else { (r.width, r.height) };
    raster_from(
        w2,
        h2,
        |x: int, y: int, c: int|
            r.at(source_of(m, r.width as int, r.height as int, x, y).0, source_of(m, r.width as int, r.height as int, x, y).1, c),
    )
}

/// The `w` by `h` rectangle of `r` at `(left, top)`, copied onto a transparent
/// canvas of `cw` by `ch` with its top-left corner at `(ox, oy)`.
pub open spec fn window(
    r: Raster,
    left: int,
    top: int,
    w: nat,
    h: nat,
    cw: nat,
    ch: nat,
    ox: int,
    oy: int,
) -> Raster {
    raster_from(
        cw,
        ch,
        |x: int, y: int, c: int|
            if ox <= x < ox + w && oy <= y < oy + h {
                r.at(left + x - ox, top + y - oy, c)
            } else {
                0u8
            },
    )
}

/// The raster `r`, unscaled, on a transparent canvas of `cw` by `ch` with its
/// top-left corner at `(ox, oy)`.
pub open spec fn placed(r: Raster, cw: nat, ch: nat, ox: int, oy: int) -> Raster {
    window(r, 0, 0, r.width, r.height, cw, ch, ox, oy)
}

/// The `w` by `h` rectangle of `r` whose top-left corner is `(left, top)`.
pub open spec fn region(r: Raster, left: int, top: int, w: nat, h: nat) -> Raster {
    window(r, left, top, w, h, w, h, 0, 0)
}

/// Colour inverted, alpha untouched.
pub open spec fn inverted(r: Raster) -> Raster {
    pixel_mapped(r, PixelOp::Invert)
}

/// Whether a pixel carries any coverage at all.
pub open spec fn covered(r: Raster, x: int, y: int) -> bool {
    r.in_bounds(x, y) && r.alpha(x, y) > 0
}

/// `b` is the bounding box `(min_x, min_y, max_x, max_y)` of every pixel that is
/// not fully transparent: every such pixel lies inside it, and each of its four
/// edges touches one.
pub open spec fn is_opaque_bounds(r: Raster, b: (int, int, int, int)) -> bool {
    &&& forall|x: int, y: int| #[trigger] covered(r, x, y) ==> b.0 <= x <= b.2 && b.1 <= y <= b.3
    &&& exists|x: int, y: int| #[trigger] covered(r, x, y) && x == b.0
    &&& exists|x: int, y: int| #[trigger] covered(r, x, y) && y == b.1
    &&& exists|x: int, y: int| #[trigger] covered(r, x, y) && x == b.2
    &&& exists|x: int, y: int| #[trigger] covered(r, x, y) && y == b.3
}

/// Whether any pixel has coverage.
pub open spec fn has_coverage(r: Raster) -> bool {
    exists|x: int, y: int| #[trigger] covered(r, x, y)
}

/// Mirroring twice gives back the original, whichever way.
pub proof fn law_flip_twice(r: Raster, m: Mapping)
    requires
        r.wf(),
        m == Mapping::FlipH || m == Mapping::FlipV,
    ensures
        remapped(remapped(r, m), m) == r,
{
    let once = remapped(r, m);
    let twice = remapped(once, m);
    assert forall|x: int, y: int, c: int|
        #![trigger twice.at(x, y, c)]
        #![trigger r.at(x, y, c)]
        twice.in_bounds(x, y) && 0 <= c < 4 implies twice.at(x, y, c) == r.at(x, y, c) by {
        let (sx, sy) = source_of(m, r.width as int, r.height as int, x, y);
        lemma_raster_from_at(once.width, once.height,
            |x: int, y: int, c: int| r.at(source_of(m, r.width as int, r.height as int, x, y).0, source_of(m, r.width as int, r.height as int, x, y).1, c),
            sx, sy, c);
        lemma_raster_from_at(twice.width, twice.height,
            |x: int, y: int, c: int| once.at(source_of(m, once.width as int, once.height as int, x, y).0, source_of(m, once.width as int, once.height as int, x, y).1, c),
            x, y, c);
    }
    lemma_raster_ext(twice, r);
}


/// Reading a mapped raster reads its source pixel.
pub proof fn lemma_remapped_at(r: Raster, m: Mapping, x: int, y: int, c: int)
    requires
        remapped(r, m).in_bounds(x, y),
        0 <= c < 4,
    ensures
        remapped(r, m).wf(),
        remapped(r, m).at(x, y, c) == r.at(
            source_of(m, r.width as int, r.height as int, x, y).0,
            source_of(m, r.width as int, r.height as int, x, y).1,
            c,
        ),
        r.in_bounds(
            source_of(m, r.width as int, r.height as int, x, y).0,
            source_of(m, r.width as int, r.height as int, x, y).1,
        ),
{
    let out = remapped(r, m);
    lemma_raster_from_at(
        out.width,
        out.height,
        |x: int, y: int, c: int|
            r.at(source_of(m, r.width as int, r.height as int, x, y).0, source_of(m, r.width as int, r.height as int, x, y).1, c),
        x,
        y,
        c,
    );
}

/// Four quarter turns give back the original.
pub proof fn law_four_quarter_turns(r: Raster)
    requires
        r.wf(),
    ensures
        remapped(remapped(remapped(remapped(r, Mapping::Quarter), Mapping::Quarter), Mapping::Quarter), Mapping::Quarter) == r,
{
    let q = Mapping::Quarter;
    let r1 = remapped(r, q);
    let r2 = remapped(r1, q);
    let r3 = remapped(r2, q);
    let r4 = remapped(r3, q);
    assert forall|x: int, y: int, c: int|
        #![trigger r4.at(x, y, c)]
        #![trigger r.at(x, y, c)]
        r4.in_bounds(x, y) && 0 <= c < 4 implies r4.at(x, y, c) == r.at(x, y, c) by {
        lemma_remapped_at(r3, q, x, y, c);
        let (x3, y3) = source_of(q, r3.width as int, r3.height as int, x, y);
        lemma_remapped_at(r2, q, x3, y3, c);
        let (x2, y2) = source_of(q, r2.width as int, r2.height as int, x3, y3);
        lemma_remapped_at(r1, q, x2, y2, c);
        let (x1, y1) = source_of(q, r1.width as int, r1.height as int, x2, y2);
        lemma_remapped_at(r, q, x1, y1, c);
    }
    lemma_raster_ext(r4, r);
}


impl Bitmap {
    /// A copy with the same model.
    pub fn duplicate(&self) -> (out: Bitmap)
        ensures
            out@ == self@,
    {
        let pixels = self.pixels.clone();
        assert(pixels@ =~= self.pixels@);
        Bitmap { width: self.width, height: self.height, pixels }
    }

    /// Rearranges the pixels by `m`.
    fn remap(&self, m: Mapping) -> (out: Bitmap)
        requires
            self@.wf(),
        ensures
            out@ == remapped(self@, m),
    {
        let (w, h) = (self.width, self.height);
        let _len = self.pixels.len();
        let swap = match m {
            Mapping::Quarter | Mapping::ThreeQuarter => true,
            _ => false,
        };
        let (w2, h2) = if swap { (h, w) } else { (w, h) };
        assert((w2 as int) * (h2 as int) == (w as int) * (h as int)) by (nonlinear_arith)
            requires (w2 == w && h2 == h) || (w2 == h && h2 == w);
        let mut out = Bitmap::new(w2, h2);
        let ghost target = remapped(self@, m);
        let mut y: u32 = 0;
        while y < h2
            invariant
                self@.wf(),
                out@.wf(),
                out.width == w2,
                out.height == h2,
                w == self.width,
                h == self.height,
                swap == swaps_axes(m),
                (w2, h2) == (if swap { (h, w) } else { (w, h) }),
                target == remapped(self@, m),
                y <= h2,
                forall|xx: int, yy: int, c: int|
                    #![trigger out@.at(xx, yy, c)]
                    0 <= xx < w2 && 0 <= yy < y && 0 <= c < 4 ==> out@.at(xx, yy, c) == target.at(xx, yy, c),
            decreases h2 - y,
        {
            let mut x: u32 = 0;
            while x < w2
                invariant
                    self@.wf(),
                    out@.wf(),
                    out.width == w2,
                    out.height == h2,
                    w == self.width,
                    h == self.height,
                    swap == swaps_axes(m),
                    (w2, h2) == (if swap { (h, w) } else { (w, h) }),
                    target == remapped(self@, m),
                    y < h2,
                    x <= w2,
                    forall|xx: int, yy: int, c: int|
                        #![trigger out@.at(xx, yy, c)]
                        0 <= xx < w2 && 0 <= yy < h2 && 0 <= c < 4 && (yy < y || (yy == y && xx < x))
                            ==> out@.at(xx, yy, c) == target.at(xx, yy, c),
                decreases w2 - x,
            {
                let (sx, sy) = match m {
                    Mapping::FlipH => (w - 1 - x, y),
                    Mapping::FlipV => (x, h - 1 - y),
                    Mapping::Quarter => (y, h - 1 - x),
                    Mapping::Half => (w - 1 - x, h - 1 - y),
                    Mapping::ThreeQuarter => (w - 1 - y, x),
                };
                proof {
                    assert forall|c: int| 0 <= c < 4 implies target.at(x as int, y as int, c) == self@.at(sx as int, sy as int, c) by {
                        lemma_remapped_at(self@, m, x as int, y as int, c);
                    }
                }
                let rgba = self.pixel(sx, sy);
                out.set_pixel(x, y, rgba);
                x = x + 1;
            }
            y = y + 1;
        }
        proof {
            assert forall|xx: int, yy: int, c: int|
                #![trigger out@.at(xx, yy, c)]
                #![trigger target.at(xx, yy, c)]
                out@.in_bounds(xx, yy) && 0 <= c < 4 implies out@.at(xx, yy, c) == target.at(xx, yy, c) by {}
            lemma_raster_ext(out@, target);
        }
        out
    }

    /// Mirrors left to right.
    pub fn flipped_h(&self) -> (out: Bitmap)
        requires
            self@.wf(),
        ensures
            out@ == remapped(self@, Mapping::FlipH),
    {
        self.remap(Mapping::FlipH)
    }

    /// Mirrors top to bottom.
    pub fn flipped_v(&self) -> (out: Bitmap)
        requires
            self@.wf(),
        ensures
            out@ == remapped(self@, Mapping::FlipV),
    {
        self.remap(Mapping::FlipV)
    }

    /// Rotates clockwise by a quarter turn at a time. Only right angles: an
    /// arbitrary angle needs resampling, which softens every edge.
    pub fn rotated(&self, quarter_turns: u32) -> (out: Bitmap)
        requires
            self@.wf(),
        ensures
            quarter_turns % 4 == 0 ==> out@ == self@,
            quarter_turns % 4 == 1 ==> out@ == remapped(self@, Mapping::Quarter),
            quarter_turns % 4 == 2 ==> out@ == remapped(self@, Mapping::Half),
            quarter_turns % 4 == 3 ==> out@ == remapped(self@, Mapping::ThreeQuarter),
    {
        match quarter_turns % 4 {
            0 => self.duplicate(),
            1 => self.remap(Mapping::Quarter),
            2 => self.remap(Mapping::Half),
            _ => self.remap(Mapping::ThreeQuarter),
        }
    }
}

/// Reading a window reads the source it was copied from, or nothing.
pub proof fn lemma_window_at(
    r: Raster,
    left: int,
    top: int,
    w: nat,
    h: nat,
    cw: nat,
    ch: nat,
    ox: int,
    oy: int,
    x: int,
    y: int,
    c: int,
)
    requires
        0 <= x < cw,
        0 <= y < ch,
        0 <= c < 4,
    ensures
        window(r, left, top, w, h, cw, ch, ox, oy).wf(),
        window(r, left, top, w, h, cw, ch, ox, oy).at(x, y, c) == if ox <= x < ox + w && oy <= y < oy
            + h {
            r.at(left + x - ox, top + y - oy, c)
        } else {
            0u8
        },
{
    lemma_raster_from_at(
        cw,
        ch,
        |x: int, y: int, c: int|
            if ox <= x < ox + w && oy <= y < oy + h {
                r.at(left + x - ox, top + y - oy, c)
            } else {
                0u8
            },
        x,
        y,
        c,
    );
}

/// Inverting twice gives back the original.
pub proof fn law_invert_twice(r: Raster)
    requires
        r.wf(),
    ensures
        inverted(inverted(r)) == r,
{
    let once = inverted(r);
    let twice = inverted(once);
    assert forall|x: int, y: int, c: int|
        #![trigger twice.at(x, y, c)]
        #![trigger r.at(x, y, c)]
        twice.in_bounds(x, y) && 0 <= c < 4 implies twice.at(x, y, c) == r.at(x, y, c) by {
        lemma_pixel_mapped_at(r, PixelOp::Invert, x, y, c);
        lemma_pixel_mapped_at(once, PixelOp::Invert, x, y, c);
    }
    lemma_raster_ext(twice, r);
}

/// Inverting changes colour only: every pixel keeps its coverage.
pub proof fn law_invert_keeps_alpha(r: Raster, x: int, y: int)
    requires
        r.wf(),
        r.in_bounds(x, y),
    ensures
        inverted(r).alpha(x, y) == r.alpha(x, y),
{
    lemma_pixel_mapped_at(r, PixelOp::Invert, x, y, 3);
}

/// The contrast outline never overwrites artwork: a pixel with coverage of
/// at least [`OUTLINE_THRESHOLD`] comes out exactly as it went in.
pub proof fn law_outline_keeps_artwork(r: Raster, x: int, y: int, c: int)
    requires
        r.wf(),
        r.in_bounds(x, y),
        0 <= c < 4,
        r.alpha(x, y) >= OUTLINE_THRESHOLD,
    ensures
        outlined(r).at(x, y, c) == r.at(x, y, c),
{
    lemma_pixel_mapped_at(r, PixelOp::Outline, x, y, c);
}

/// Sweeping dust only clears: a pixel that has a visible neighbour, or is
/// itself fully transparent or more than faint, comes out exactly as it went
/// in, and a swept pixel comes out fully transparent.
pub proof fn law_sweep_only_clears_lone_faint_pixels(r: Raster, x: int, y: int, c: int)
    requires
        r.wf(),
        r.in_bounds(x, y),
        0 <= c < 4,
    ensures
        !is_dust(r, x, y) ==> dust_swept(r).at(x, y, c) == r.at(x, y, c),
        is_dust(r, x, y) ==> dust_swept(r).at(x, y, c) == 0,
{
    lemma_pixel_mapped_at(r, PixelOp::Dust, x, y, c);
}

impl Bitmap {
    /// Copies the `w` by `h` rectangle at `(left, top)` onto a transparent
    /// canvas of `cw` by `ch`, at `(ox, oy)`.
    fn window(&self, left: u32, top: u32, w: u32, h: u32, cw: u32, ch: u32, ox: u32, oy: u32) -> (out: Bitmap)
        requires
            self@.wf(),
            left + w <= self.width,
            top + h <= self.height,
            ox + w <= cw,
            oy + h <= ch,
            fits(cw as int, ch as int),
        ensures
            out@ == window(self@, left as int, top as int, w as nat, h as nat, cw as nat, ch as nat, ox as int, oy as int),
    {
        let mut out = Bitmap::new(cw, ch);
        proof {
            lemma_blank(out@);
        }
        let ghost target = window(self@, left as int, top as int, w as nat, h as nat, cw as nat, ch as nat, ox as int, oy as int);
        let mut y: u32 = 0;
        while y < h
            invariant
                self@.wf(),
                left + w <= self.width,
                top + h <= self.height,
                ox + w <= cw,
                oy + h <= ch,
                out@.wf(),
                out.width == cw,
                out.height == ch,
                target == window(self@, left as int, top as int, w as nat, h as nat, cw as nat, ch as nat, ox as int, oy as int),
                y <= h,
                forall|xx: int, yy: int, c: int|
                    #![trigger out@.at(xx, yy, c)]
                    0 <= xx < cw && 0 <= yy < ch && 0 <= c < 4 ==> out@.at(xx, yy, c) == (if ox <= xx < ox + w
                        && oy <= yy < oy + y {
                        target.at(xx, yy, c)
                    } else {
                        0u8
                    }),
            decreases h - y,
        {
            let mut x: u32 = 0;
            while x < w
                invariant
                    self@.wf(),
                    left + w <= self.width,
                    top + h <= self.height,
                    ox + w <= cw,
                    oy + h <= ch,
                    out@.wf(),
                    out.width == cw,
                    out.height == ch,
                    target == window(self@, left as int, top as int, w as nat, h as nat, cw as nat, ch as nat, ox as int, oy as int),
                    y < h,
                    x <= w,
                    forall|xx: int, yy: int, c: int|
                        #![trigger out@.at(xx, yy, c)]
                        0 <= xx < cw && 0 <= yy < ch && 0 <= c < 4 ==> out@.at(xx, yy, c) == (if ox <= xx
                            < ox + w && oy <= yy < oy + h && (yy < oy + y || (yy == oy + y && xx < ox + x)) {
                            target.at(xx, yy, c)
                        } else {
                            0u8
                        }),
                decreases w - x,
            {
                proof {
                    assert forall|c: int| 0 <= c < 4 implies #[trigger] target.at((ox + x) as int, (oy + y) as int, c)
                        == self@.at((left + x) as int, (top + y) as int, c) by {
                        lemma_window_at(self@, left as int, top as int, w as nat, h as nat, cw as nat, ch as nat,
                            ox as int, oy as int, (ox + x) as int, (oy + y) as int, c);
                    }
                }
                let rgba = self.pixel(left + x, top + y);
                out.set_pixel(ox + x, oy + y, rgba);
                x = x + 1;
            }
            y = y + 1;
        }
        proof {
            assert forall|xx: int, yy: int, c: int|
                #![trigger out@.at(xx, yy, c)]
                #![trigger target.at(xx, yy, c)]
                out@.in_bounds(xx, yy) && 0 <= c < 4 implies out@.at(xx, yy, c) == target.at(xx, yy, c) by {
                lemma_window_at(self@, left as int, top as int, w as nat, h as nat, cw as nat, ch as nat,
                    ox as int, oy as int, xx, yy, c);
            }
            lemma_raster_ext(out@, target);
        }
        out
    }
}

/// Every channel of a raster whose bytes are all zero is zero.
pub proof fn lemma_blank(r: Raster)
    requires
        r.wf(),
        forall|k: int| 0 <= k < r.bytes.len() ==> #[trigger] r.bytes[k] == 0,
    ensures
        forall|x: int, y: int, c: int|
            #![trigger r.at(x, y, c)]
            r.in_bounds(x, y) && 0 <= c < 4 ==> r.at(x, y, c) == 0,
{
    assert forall|x: int, y: int, c: int|
        #![trigger r.at(x, y, c)]
        r.in_bounds(x, y) && 0 <= c < 4 implies r.at(x, y, c) == 0 by {
        lemma_offset_bounds(r.width as int, r.height as int, x, y, c);
    }
}

/// Alpha at `(x, y)`, or zero off the canvas.
pub open spec fn alpha_or_zero(r: Raster, x: int, y: int) -> u8 {
    if r.in_bounds(x, y) { r.alpha(x, y) } else { 0u8 }
}

pub open spec fn max_u8(a: u8, b: u8) -> u8 {
    if a >= b { a } else { b }
}

/// The strongest coverage in the 3x3 neighbourhood of `(x, y)`, itself included.
pub open spec fn strongest_around(r: Raster, x: int, y: int) -> u8 {
    max_u8(max_u8(max_u8(alpha_or_zero(r, x - 1, y - 1), alpha_or_zero(r, x, y - 1)),
        max_u8(alpha_or_zero(r, x + 1, y - 1), alpha_or_zero(r, x - 1, y))),
        max_u8(max_u8(max_u8(alpha_or_zero(r, x, y), alpha_or_zero(r, x + 1, y)),
        max_u8(alpha_or_zero(r, x - 1, y + 1), alpha_or_zero(r, x, y + 1))), alpha_or_zero(r, x + 1, y + 1)))
}

/// Coverage from which a pixel counts as artwork.
pub const OUTLINE_THRESHOLD: u8 = 24;

/// The near-black of the contrast rim.
pub open spec fn outline_colour(c: int) -> u8 {
    if c == 0 { 4u8 } else if c == 1 { 5u8 } else { 8u8 }
}

/// One channel after the contrast outline: artwork is kept; a pixel beside
/// artwork becomes the dark rim at the strongest neighbouring coverage;
/// everything else is kept.
pub open spec fn outlined_at(r: Raster, x: int, y: int, c: int) -> u8 {
    if r.alpha(x, y) >= OUTLINE_THRESHOLD {
        r.at(x, y, c)
    } else if strongest_around(r, x, y) >= OUTLINE_THRESHOLD {
        if c < 3 { outline_colour(c) } else { strongest_around(r, x, y) }
    } else {
        r.at(x, y, c)
    }
}

/// A per-pixel operation.
#[derive(Debug, Clone, Copy, PartialEq, Eq)]
pub enum PixelOp {
    Invert,
    Outline,
    Dust,
    Ink,
}

pub open spec fn pixel_op_at(r: Raster, op: PixelOp, x: int, y: int, c: int) -> u8 {
    match op {
        PixelOp::Invert => if c < 3 { (255 - r.at(x, y, c)) as u8 } else { r.at(x, y, c) },
        PixelOp::Outline => outlined_at(r, x, y, c),
        PixelOp::Dust => if is_dust(r, x, y) { 0u8 } else { r.at(x, y, c) },
        PixelOp::Ink => if c < 3 {
            r.at(x, y, c)
        } else if is_ink(r.pixel(x, y)) {
            255u8
        } else {
            0u8
        },
    }
}

/// Brightness as the eye weighs it, in the channels' own 0 to 255 scale.
pub open spec fn luma(p: Seq<u8>) -> int {
    (p[0] * 299 + p[1] * 587 + p[2] * 114) / 1000
}

/// The alpha a pixel must exceed to count as ink.
pub const INK_ALPHA: u8 = 128;

/// The brightness a pixel must stay below to count as ink.
pub const INK_LUMA: u32 = 160;

/// Ink: both more than half opaque and dark. A cut-out drawing may stand on
/// a transparent or a white ground, and neither is ink.
pub open spec fn is_ink(p: Seq<u8>) -> bool {
    p[3] > INK_ALPHA && luma(p) < INK_LUMA
}

/// The drawing's ink as a layer: fully opaque where there is ink, fully
/// transparent elsewhere, colour kept.
pub open spec fn ink_layer(r: Raster) -> Raster {
    pixel_mapped(r, PixelOp::Ink)
}

/// The coverage below which a pixel standing entirely on its own is dust.
pub const DUST_ALPHA: u8 = 26;

/// All eight neighbours of `(x, y)` are fully transparent or off the canvas.
pub open spec fn alone(r: Raster, x: int, y: int) -> bool {
    &&& alpha_or_zero(r, x - 1, y - 1) == 0
    &&& alpha_or_zero(r, x, y - 1) == 0
    &&& alpha_or_zero(r, x + 1, y - 1) == 0
    &&& alpha_or_zero(r, x - 1, y) == 0
    &&& alpha_or_zero(r, x + 1, y) == 0
    &&& alpha_or_zero(r, x - 1, y + 1) == 0
    &&& alpha_or_zero(r, x, y + 1) == 0
    &&& alpha_or_zero(r, x + 1, y + 1) == 0
}

/// A faint pixel with nothing around it: visible coverage of at most
/// [`DUST_ALPHA`] and every neighbour fully transparent.
pub open spec fn is_dust(r: Raster, x: int, y: int) -> bool {
    0 < r.alpha(x, y) <= DUST_ALPHA && alone(r, x, y)
}

/// The raster with every dust pixel cleared to transparent black.
pub open spec fn dust_swept(r: Raster) -> Raster {
    pixel_mapped(r, PixelOp::Dust)
}

/// The raster after a per-pixel operation.
pub open spec fn pixel_mapped(r: Raster, op: PixelOp) -> Raster {
    raster_from(r.width, r.height, |x: int, y: int, c: int| pixel_op_at(r, op, x, y, c))
}

/// A dark rim one pixel wide just outside the artwork.
pub open spec fn outlined(r: Raster) -> Raster {
    pixel_mapped(r, PixelOp::Outline)
}

pub proof fn lemma_pixel_mapped_at(r: Raster, op: PixelOp, x: int, y: int, c: int)
    requires
        r.in_bounds(x, y),
        0 <= c < 4,
    ensures
        pixel_mapped(r, op).wf(),
        pixel_mapped(r, op).at(x, y, c) == pixel_op_at(r, op, x, y, c),
{
    lemma_raster_from_at(r.width, r.height, |x: int, y: int, c: int| pixel_op_at(r, op, x, y, c), x, y, c);
}

impl Bitmap {
    /// Alpha at `(x, y)`, or zero off the canvas.
    fn alpha_or_zero(&self, x: i64, y: i64) -> (a: u8)
        requires
            self@.wf(),
        ensures
            a == alpha_or_zero(self@, x as int, y as int),
    {
        if x < 0 || y < 0 || x >= self.width as i64 || y >= self.height as i64 {
            0
        } else {
            self.alpha(x as u32, y as u32)
        }
    }

    fn strongest_around(&self, x: u32, y: u32) -> (a: u8)
        requires
            self@.wf(),
        ensures
            a == strongest_around(self@, x as int, y as int),
    {
        let (x, y) = (x as i64, y as i64);
        let m1 = max8(self.alpha_or_zero(x - 1, y - 1), self.alpha_or_zero(x, y - 1));
        let m2 = max8(self.alpha_or_zero(x + 1, y - 1), self.alpha_or_zero(x - 1, y));
        let m3 = max8(self.alpha_or_zero(x, y), self.alpha_or_zero(x + 1, y));
        let m4 = max8(self.alpha_or_zero(x - 1, y + 1), self.alpha_or_zero(x, y + 1));
        max8(max8(m1, m2), max8(max8(m3, m4), self.alpha_or_zero(x + 1, y + 1)))
    }

    fn is_alone(&self, x: u32, y: u32) -> (b: bool)
        requires
            self@.wf(),
        ensures
            b == alone(self@, x as int, y as int),
    {
        let (x, y) = (x as i64, y as i64);
        self.alpha_or_zero(x - 1, y - 1) == 0 && self.alpha_or_zero(x, y - 1) == 0 && self.alpha_or_zero(x + 1, y - 1)
            == 0 && self.alpha_or_zero(x - 1, y) == 0 && self.alpha_or_zero(x + 1, y) == 0 && self.alpha_or_zero(
            x - 1,
            y + 1,
        ) == 0 && self.alpha_or_zero(x, y + 1) == 0 && self.alpha_or_zero(x + 1, y + 1) == 0
    }

    /// Applies a per-pixel operation to every pixel.
    fn map_pixels(&self, op: PixelOp) -> (out: Bitmap)
        requires
            self@.wf(),
        ensures
            out@ == pixel_mapped(self@, op),
    {
        let (w, h) = (self.width, self.height);
        let mut out = self.duplicate();
        let ghost target = pixel_mapped(self@, op);
        let mut y: u32 = 0;
        while y < h
            invariant
                self@.wf(),
                out@.wf(),
                out.width == w,
                out.height == h,
                w == self.width,
                h == self.height,
                target == pixel_mapped(self@, op),
                y <= h,
                forall|xx: int, yy: int, c: int|
                    #![trigger out@.at(xx, yy, c)]
                    0 <= xx < w && 0 <= yy < h && 0 <= c < 4 ==> out@.at(xx, yy, c) == (if yy < y {
                        target.at(xx, yy, c)
                    } else {
                        self@.at(xx, yy, c)
                    }),
            decreases h - y,
        {
            let mut x: u32 = 0;
            while x < w
                invariant
                    self@.wf(),
                    out@.wf(),
                    out.width == w,
                    out.height == h,
                    w == self.width,
                    h == self.height,
                    target == pixel_mapped(self@, op),
                    y < h,
                    x <= w,
                    forall|xx: int, yy: int, c: int|
                        #![trigger out@.at(xx, yy, c)]
                        0 <= xx < w && 0 <= yy < h && 0 <= c < 4 ==> out@.at(xx, yy, c) == (if yy < y || (yy
                            == y && xx < x) {
                            target.at(xx, yy, c)
                        } else {
                            self@.at(xx, yy, c)
                        }),
                decreases w - x,
            {
                let p = self.pixel(x, y);
                let rgba: [u8; 4] = match op {
                    PixelOp::Invert => [255 - p[0], 255 - p[1], 255 - p[2], p[3]],
                    PixelOp::Dust => {
                        if p[3] > 0 && p[3] <= DUST_ALPHA && self.is_alone(x, y) {
                            [0, 0, 0, 0]
                        } else {
                            p
                        }
                    },
                    PixelOp::Ink => {
                        let luma = (p[0] as u32 * 299 + p[1] as u32 * 587 + p[2] as u32 * 114) / 1000;
                        if p[3] > INK_ALPHA && luma < INK_LUMA {
                            [p[0], p[1], p[2], 255]
                        } else {
                            [p[0], p[1], p[2], 0]
                        }
                    },
                    PixelOp::Outline => {
                        if p[3] >= OUTLINE_THRESHOLD {
                            p
                        } else {
                            let strongest = self.strongest_around(x, y);
                            if strongest >= OUTLINE_THRESHOLD {
                                [4, 5, 8, strongest]
                            } else {
                                p
                            }
                        }
                    },
                };
                proof {
                    assert forall|c: int| 0 <= c < 4 implies #[trigger] target.at(x as int, y as int, c) == rgba[c] by {
                        lemma_pixel_mapped_at(self@, op, x as int, y as int, c);
                    }
                }
                out.set_pixel(x, y, rgba);
                x = x + 1;
            }
            y = y + 1;
        }
        proof {
            assert forall|xx: int, yy: int, c: int|
                #![trigger out@.at(xx, yy, c)]
                #![trigger target.at(xx, yy, c)]
                out@.in_bounds(xx, yy) && 0 <= c < 4 implies out@.at(xx, yy, c) == target.at(xx, yy, c) by {}
            lemma_raster_ext(out@, target);
        }
        out
    }

    /// Inverts colour, leaving alpha alone: inverting alpha would fill the
    /// transparent surround with solid colour.
    pub fn inverted(&self) -> (out: Bitmap)
        requires
            self@.wf(),
        ensures
            out@ == inverted(self@),
    {
        self.map_pixels(PixelOp::Invert)
    }

    /// Adds a 1 px dark rim just outside the artwork, so a dark cursor does
    /// not disappear on a white page. Artwork itself is never overwritten.
    pub fn with_contrast_outline(&self) -> (out: Bitmap)
        requires
            self@.wf(),
        ensures
            out@ == outlined(self@),
    {
        self.map_pixels(PixelOp::Outline)
    }

    /// Clears every faint pixel that has no visible neighbour at all.
    pub fn without_dust(&self) -> (out: Bitmap)
        requires
            self@.wf(),
        ensures
            out@ == dust_swept(self@),
    {
        self.map_pixels(PixelOp::Dust)
    }

    /// The ink of a flat drawing as its own layer: opaque where a pixel is
    /// both opaque and dark, transparent everywhere else.
    pub fn ink_layer(&self) -> (out: Bitmap)
        requires
            self@.wf(),
        ensures
            out@ == ink_layer(self@),
    {
        self.map_pixels(PixelOp::Ink)
    }
}

fn max8(a: u8, b: u8) -> (m: u8)
    ensures
        m == max_u8(a, b),
{
    if a >= b { a } else { b }
}

/// The bitmap grown by `pad` transparent pixels on every side.
pub open spec fn padded(r: Raster, pad: nat) -> Raster {
    if pad == 0 {
        r
    } else {
        placed(r, r.width + 2 * pad, r.height + 2 * pad, pad as int, pad as int)
    }
}

/// The longer side.
pub open spec fn side(r: Raster) -> nat {
    if r.width >= r.height { r.width } else { r.height }
}

/// The artwork centred on a square canvas, aspect ratio preserved.
pub open spec fn squared(r: Raster) -> Raster {
    if r.width == r.height {
        r
    } else {
        placed(r, side(r), side(r), (side(r) - r.width) / 2, (side(r) - r.height) / 2)
    }
}

/// Squaring centres the artwork: the result is a square as wide as the
/// picture's longer side, pixel `(x, y)` of the picture lands at
/// `(x + (side - width) / 2, y + (side - height) / 2)`, for tall pictures
/// as for wide ones, and every other pixel is fully transparent black.
pub proof fn law_squaring_centres_the_artwork(r: Raster)
    requires
        r.wf(),
    ensures
        ({
            let s = if r.width >= r.height { r.width as int } else { r.height as int };
            let dx = (s - r.width) / 2;
            let dy = (s - r.height) / 2;
            &&& squared(r).width == s && squared(r).height == s
            &&& squared(r).wf()
            &&& forall|x: int, y: int, c: int|
                0 <= x < r.width && 0 <= y < r.height && 0 <= c < 4 ==> #[trigger] squared(r).at(x + dx, y + dy, c)
                    == r.at(x, y, c)
            &&& forall|x: int, y: int, c: int|
                0 <= x < s && 0 <= y < s && 0 <= c < 4 && !(dx <= x < dx + r.width && dy <= y < dy + r.height)
                    ==> #[trigger] squared(r).at(x, y, c) == 0
        }),
{
    let s = if r.width >= r.height { r.width as int } else { r.height as int };
    let dx = (s - r.width) / 2;
    let dy = (s - r.height) / 2;
    if r.width != r.height {
        assert forall|x: int, y: int, c: int|
            0 <= x < r.width && 0 <= y < r.height && 0 <= c < 4 implies #[trigger] squared(r).at(x + dx, y + dy, c)
                == r.at(x, y, c) by {
            lemma_window_at(r, 0, 0, r.width, r.height, s as nat, s as nat, dx, dy, x + dx, y + dy, c);
        }
        assert forall|x: int, y: int, c: int|
            0 <= x < s && 0 <= y < s && 0 <= c < 4 && !(dx <= x < dx + r.width && dy <= y < dy + r.height)
                implies #[trigger] squared(r).at(x, y, c) == 0 by {
            lemma_window_at(r, 0, 0, r.width, r.height, s as nat, s as nat, dx, dy, x, y, c);
        }
        if s > 0 {
            lemma_window_at(r, 0, 0, r.width, r.height, s as nat, s as nat, dx, dy, 0, 0, 0);
        }
    }
}

/// The artwork, unscaled, in the middle of a larger square canvas; unchanged
/// when the canvas is not larger.
pub open spec fn centred_in(r: Raster, canvas: nat) -> Raster {
    if canvas <= r.width || canvas <= r.height {
        r
    } else {
        placed(r, canvas, canvas, (canvas - r.width) / 2, (canvas - r.height) / 2)
    }
}

/// Centring on a larger canvas puts pixel `(x, y)` of the artwork at
/// `(x + (canvas - width) / 2, y + (canvas - height) / 2)` of a canvas by
/// canvas square, and leaves every other pixel fully transparent black.
pub proof fn law_centring_places_the_artwork_in_the_middle(r: Raster, canvas: nat)
    requires
        r.wf(),
        canvas > r.width,
        canvas > r.height,
    ensures
        ({
            let dx = (canvas - r.width) / 2;
            let dy = (canvas - r.height) / 2;
            &&& centred_in(r, canvas).width == canvas && centred_in(r, canvas).height == canvas
            &&& forall|x: int, y: int, c: int|
                0 <= x < r.width && 0 <= y < r.height && 0 <= c < 4 ==> #[trigger] centred_in(r, canvas).at(
                    x + dx,
                    y + dy,
                    c,
                ) == r.at(x, y, c)
            &&& forall|x: int, y: int, c: int|
                0 <= x < canvas && 0 <= y < canvas && 0 <= c < 4 && !(dx <= x < dx + r.width && dy <= y < dy
                    + r.height) ==> #[trigger] centred_in(r, canvas).at(x, y, c) == 0
        }),
{
    let dx = (canvas - r.width) / 2;
    let dy = (canvas - r.height) / 2;
    assert forall|x: int, y: int, c: int|
        0 <= x < r.width && 0 <= y < r.height && 0 <= c < 4 implies #[trigger] centred_in(r, canvas).at(x + dx, y + dy, c)
            == r.at(x, y, c) by {
        lemma_window_at(r, 0, 0, r.width, r.height, canvas, canvas, dx, dy, x + dx, y + dy, c);
    }
    assert forall|x: int, y: int, c: int|
        0 <= x < canvas && 0 <= y < canvas && 0 <= c < 4 && !(dx <= x < dx + r.width && dy <= y < dy + r.height)
            implies #[trigger] centred_in(r, canvas).at(x, y, c) == 0 by {
        lemma_window_at(r, 0, 0, r.width, r.height, canvas, canvas, dx, dy, x, y, c);
    }
}

/// The pixel rectangle `[left, right) x [top, bottom)`, or the whole bitmap
/// when that rectangle is less than 2 px on either side.
pub open spec fn cropped_box(r: Raster, left: int, top: int, right: int, bottom: int) -> Raster {
    if right - left < 2 || bottom - top < 2 {
        r
    } else {
        region(r, left, top, (right - left) as nat, (bottom - top) as nat)
    }
}

/// Fully transparent borders dropped; unchanged when there is nothing to
/// trim towards or nothing to trim.
pub open spec fn trimmed(r: Raster, bounds: Option<(int, int, int, int)>) -> Raster {
    match bounds {
        None => r,
        Some(b) => if b == (0int, 0int, r.width - 1, r.height - 1) {
            r
        } else {
            region(r, b.0, b.1, (b.2 - b.0 + 1) as nat, (b.3 - b.1 + 1) as nat)
        },
    }
}

impl Bitmap {
    /// Grows the canvas by `pad` on every side so an outline drawn at the very
    /// edge of the artwork is not clipped.
    pub fn padded(&self, pad: u32) -> (out: Bitmap)
        requires
            self@.wf(),
            self.width + 2 * pad <= u32::MAX,
            self.height + 2 * pad <= u32::MAX,
            fits(self.width + 2 * pad, self.height + 2 * pad),
        ensures
            out@ == padded(self@, pad as nat),
    {
        if pad == 0 {
            return self.duplicate();
        }
        self.window(0, 0, self.width, self.height, self.width + pad * 2, self.height + pad * 2, pad, pad)
    }

    /// Centres the artwork on a square canvas, preserving aspect ratio.
    pub fn squared(&self) -> (out: Bitmap)
        requires
            self@.wf(),
            fits(side(self@) as int, side(self@) as int),
        ensures
            out@ == squared(self@),
    {
        if self.width == self.height {
            return self.duplicate();
        }
        let side = if self.width >= self.height { self.width } else { self.height };
        let dx = (side - self.width) / 2;
        let dy = (side - self.height) / 2;
        self.window(0, 0, self.width, self.height, side, side, dx, dy)
    }

    /// Places this bitmap, unscaled, in the middle of a larger square canvas,
    /// so a role keeps its own size while Windows scales the canvas. Returns
    /// the bitmap unchanged if the canvas is not larger.
    pub fn centred_in(&self, canvas: u32) -> (out: Bitmap)
        requires
            self@.wf(),
            fits(canvas as int, canvas as int),
        ensures
            out@ == centred_in(self@, canvas as nat),
    {
        if canvas <= self.width || canvas <= self.height {
            return self.duplicate();
        }
        let ox = (canvas - self.width) / 2;
        let oy = (canvas - self.height) / 2;
        self.window(0, 0, self.width, self.height, canvas, canvas, ox, oy)
    }

    /// Takes the pixel rectangle `[left, right) x [top, bottom)`. A rectangle
    /// under 2 px on a side is refused by returning the bitmap unchanged, so
    /// no downstream step ever sees a zero-sized image.
    pub fn cropped_box(&self, left: u32, top: u32, right: u32, bottom: u32) -> (out: Bitmap)
        requires
            self@.wf(),
            left <= right <= self.width,
            top <= bottom <= self.height,
        ensures
            out@ == cropped_box(self@, left as int, top as int, right as int, bottom as int),
    {
        if right - left < 2 || bottom - top < 2 {
            return self.duplicate();
        }
        let (w, h) = (right - left, bottom - top);
        let _len = self.pixels.len();
        assert((w as int) * (h as int) <= (self.width as int) * (self.height as int)) by (nonlinear_arith)
            requires
                w <= self.width,
                h <= self.height,
        ;
        self.window(left, top, w, h, w, h, 0, 0)
    }

    /// Bounding box `(min_x, min_y, max_x, max_y)` of everything not fully
    /// transparent.
    pub fn opaque_bounds(&self) -> (out: Option<(u32, u32, u32, u32)>)
        requires
            self@.wf(),
        ensures
            match out {
                None => !has_coverage(self@),
                Some(b) => is_opaque_bounds(self@, (b.0 as int, b.1 as int, b.2 as int, b.3 as int)),
            },
    {
        let (w, h) = (self.width, self.height);
        let (mut min_x, mut min_y, mut max_x, mut max_y) = (u32::MAX, u32::MAX, 0u32, 0u32);
        let mut found = false;
        let ghost mut wx0: (int, int) = (0, 0);
        let ghost mut wy0: (int, int) = (0, 0);
        let ghost mut wx1: (int, int) = (0, 0);
        let ghost mut wy1: (int, int) = (0, 0);
        let ghost r = self@;
        let mut y: u32 = 0;
        while y < h
            invariant
                self@.wf(),
                r == self@,
                w == self.width,
                h == self.height,
                y <= h,
                !found ==> forall|xx: int, yy: int| 0 <= yy < y ==> !#[trigger] covered(r, xx, yy),
                found ==> {
                    &&& forall|xx: int, yy: int| #[trigger] covered(r, xx, yy) && yy < y ==> min_x <= xx
                        <= max_x && min_y <= yy <= max_y
                    &&& covered(r, wx0.0, wx0.1) && wx0.0 == min_x
                    &&& covered(r, wy0.0, wy0.1) && wy0.1 == min_y
                    &&& covered(r, wx1.0, wx1.1) && wx1.0 == max_x
                    &&& covered(r, wy1.0, wy1.1) && wy1.1 == max_y
                },
            decreases h - y,
        {
            let mut x: u32 = 0;
            while x < w
                invariant
                    self@.wf(),
                    r == self@,
                    w == self.width,
                    h == self.height,
                    y < h,
                    x <= w,
                    !found ==> forall|xx: int, yy: int| (0 <= yy < y || (yy == y && 0 <= xx < x)) ==> !#[trigger] covered(r, xx, yy),
                    found ==> {
                        &&& forall|xx: int, yy: int| #[trigger] covered(r, xx, yy) && (yy < y || (yy == y && xx < x))
                            ==> min_x <= xx <= max_x && min_y <= yy <= max_y
                        &&& covered(r, wx0.0, wx0.1) && wx0.0 == min_x
                        &&& covered(r, wy0.0, wy0.1) && wy0.1 == min_y
                        &&& covered(r, wx1.0, wx1.1) && wx1.0 == max_x
                        &&& covered(r, wy1.0, wy1.1) && wy1.1 == max_y
                    },
                decreases w - x,
            {
                if self.alpha(x, y) > 0 {
                    if !found || x < min_x {
                        min_x = x;
                        proof { wx0 = (x as int, y as int); }
                    }
                    if !found || y < min_y {
                        min_y = y;
                        proof { wy0 = (x as int, y as int); }
                    }
                    if !found || x > max_x {
                        max_x = x;
                        proof { wx1 = (x as int, y as int); }
                    }
                    if !found || y > max_y {
                        max_y = y;
                        proof { wy1 = (x as int, y as int); }
                    }
                    found = true;
                }
                x = x + 1;
            }
            y = y + 1;
        }
        if found {
            proof {
                assert forall|xx: int, yy: int| #[trigger] covered(r, xx, yy) implies min_x <= xx <= max_x
                    && min_y <= yy <= max_y by {}
                assert(covered(r, wx0.0, wx0.1));
                assert(covered(r, wy0.0, wy0.1));
                assert(covered(r, wx1.0, wx1.1));
                assert(covered(r, wy1.0, wy1.1));
            }
            Some((min_x, min_y, max_x, max_y))
        } else {
            proof {
                assert forall|xx: int, yy: int| !#[trigger] covered(r, xx, yy) by {
                    if covered(r, xx, yy) {
                        assert(0 <= yy < y);
                    }
                }
            }
            None
        }
    }

    /// Drops fully transparent border rows and columns.
    pub fn trimmed(&self) -> (out: Bitmap)
        requires
            self@.wf(),
        ensures
            exists|b: Option<(int, int, int, int)>| {
                &&& (match b {
                    None => !has_coverage(self@),
                    Some(bb) => is_opaque_bounds(self@, bb),
                })
                &&& out@ == #[trigger] trimmed(self@, b)
            },
    {
        let bounds = self.opaque_bounds();
        let ghost b = match bounds {
            None => None::<(int, int, int, int)>,
            Some(t) => Some((t.0 as int, t.1 as int, t.2 as int, t.3 as int)),
        };
        match bounds {
            None => {
                let out = self.duplicate();
                assert(out@ == trimmed(self@, b));
                out
            },
            Some((min_x, min_y, max_x, max_y)) => {
                proof {
                    let (x0, y0) = choose|x: int, y: int| #[trigger] covered(self@, x, y) && x == min_x;
                    assert(covered(self@, x0, y0));
                }
                if min_x == 0 && min_y == 0 && max_x == self.width - 1 && max_y == self.height - 1 {
                    let out = self.duplicate();
                    assert(out@ == trimmed(self@, b));
                    return out;
                }
                let w = max_x - min_x + 1;
                let h = max_y - min_y + 1;
                let out = self.cropped_region(min_x, min_y, w, h);
                assert(out@ == trimmed(self@, b));
                out
            },
        }
    }

    /// The `w` by `h` rectangle at `(left, top)`.
    pub(crate) fn cropped_region(&self, left: u32, top: u32, w: u32, h: u32) -> (out: Bitmap)
        requires
            self@.wf(),
            left + w <= self.width,
            top + h <= self.height,
        ensures
            out@ == region(self@, left as int, top as int, w as nat, h as nat),
    {
        let _len = self.pixels.len();
        assert((w as int) * (h as int) <= (self.width as int) * (self.height as int)) by (nonlinear_arith)
            requires
                w <= self.width,
                h <= self.height,
        ;
        self.window(left, top, w, h, w, h, 0, 0)
    }

    /// True when there is nothing visible: no pixels, or no coverage at all.
    pub fn is_empty(&self) -> (out: bool)
        requires
            self@.wf(),
        ensures
            out == (self.width == 0 || self.height == 0 || !has_coverage(self@)),
    {
        if self.width == 0 || self.height == 0 {
            return true;
        }
        self.opaque_bounds().is_none()
    }
}

} // verus!

verus! {

/// The standard base64 alphabet: `A-Z`, `a-z`, `0-9`, `+`, `/`.
pub open spec fn b64_digit(v: int) -> char {
    if v < 26 {
        (65 + v) as char
    } else if v < 52 {
        (97 + v - 26) as char
    } else if v < 62 {
        (48 + v - 52) as char
    } else if v == 62 {
        '+'
    } else {
        '/'
    }
}

/// Byte `k` of `bytes`, or zero past the end.
pub open spec fn byte_or_zero(bytes: Seq<u8>, k: int) -> int {
    if 0 <= k < bytes.len() { bytes[k] as int } else { 0 }
}

/// Character `i` of the base64 text of `bytes`: four characters for each
/// group of three bytes, the last group padded with `=`.
pub open spec fn b64_char(bytes: Seq<u8>, i: int) -> char {
    let c = i / 4;
    let p = i % 4;
    let n = bytes.len() - 3 * c;
    let triple = byte_or_zero(bytes, 3 * c) * 65536 + byte_or_zero(bytes, 3 * c + 1) * 256 + byte_or_zero(bytes, 3 * c + 2);
    let sextet = if p == 0 { triple / 262144 } else if p == 1 { (triple / 4096) % 64 } else if p == 2 { (triple / 64) % 64 } else { triple % 64 };
    if (p == 2 && n < 2) || (p == 3 && n < 3) { '=' } else { b64_digit(sextet) }
}

/// The base64 text of `bytes` (RFC 4648, with padding).
pub open spec fn base64_text(bytes: Seq<u8>) -> Seq<char> {
    Seq::new((4 * ((bytes.len() + 2) / 3)) as nat, |i: int| b64_char(bytes, i))
}

fn digit(v: u32) -> (c: char)
    requires
        v < 64,
    ensures
        c == b64_digit(v as int),
{
    if v < 26 {
        ((65 + v) as u8) as char
    } else if v < 52 {
        ((97 + v - 26) as u8) as char
    } else if v < 62 {
        ((48 + v - 52) as u8) as char
    } else if v == 62 {
        '+'
    } else {
        '/'
    }
}

/// Encodes bytes as standard base64, padded with `=`.
pub fn base64(bytes: &[u8]) -> (out: String)
    requires
        4 * ((bytes@.len() + 2) / 3) <= isize::MAX,
    ensures
        out@ == base64_text(bytes@),
{
    let n = bytes.len();
    let groups = (n + 2) / 3;
    let mut out = String::new();
    let mut g: usize = 0;
    while g < groups
        invariant
            g <= groups,
            n == bytes@.len(),
            groups == (n + 2) / 3,
            4 * groups <= isize::MAX,
            out@ == Seq::new((4 * g) as nat, |i: int| b64_char(bytes@, i)),
        decreases groups - g,
    {
        let start = 3 * g;
        assert(start < n) by (nonlinear_arith)
            requires
                g < groups,
                groups == (n + 2) / 3,
                start == 3 * g,
        ;
        let b0 = bytes[start] as u32;
        let b1 = if start + 1 < n { bytes[start + 1] as u32 } else { 0 };
        let b2 = if start + 2 < n { bytes[start + 2] as u32 } else { 0 };
        let triple = b0 * 65536 + b1 * 256 + b2;
        let left = n - start;
        let c0 = digit(triple / 262144);
        let c1 = digit((triple / 4096) % 64);
        let c2 = if left < 2 { '=' } else { digit((triple / 64) % 64) };
        let c3 = if left < 3 { '=' } else { digit(triple % 64) };
        let ghost before = out@;
        crate::text::push_char(&mut out, c0);
        crate::text::push_char(&mut out, c1);
        crate::text::push_char(&mut out, c2);
        crate::text::push_char(&mut out, c3);
        proof {
            let bs = bytes@;
            assert forall|i: int| 4 * g <= i < 4 * g + 4 implies i / 4 == g && #[trigger] (i % 4) == i - 4 * g by {
                assert(i / 4 == g && i % 4 == i - 4 * g) by (nonlinear_arith)
                    requires
                        4 * g <= i < 4 * g + 4,
                ;
            }
            assert(byte_or_zero(bs, 3 * g) == b0);
            assert(byte_or_zero(bs, 3 * g + 1) == b1);
            assert(byte_or_zero(bs, 3 * g + 2) == b2);
            let k0 = 4 * g as int;
            assert(k0 % 4 == 0 && (k0 + 1) % 4 == 1 && (k0 + 2) % 4 == 2 && (k0 + 3) % 4 == 3);
            assert(b64_char(bs, k0) == c0);
            assert(b64_char(bs, k0 + 1) == c1);
            assert(b64_char(bs, k0 + 2) == c2);
            assert(b64_char(bs, k0 + 3) == c3);
            assert(out@ =~= Seq::new((4 * (g + 1)) as nat, |i: int| b64_char(bs, i)));
        }
        g = g + 1;
    }
    out
}

} // verus!
