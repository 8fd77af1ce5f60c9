//! What an imported image goes through before it becomes a cursor: format
//! sniffing and size limits for untrusted input, the size ladder, sprite
//! sheets, and the last steps of preparing a master.

use vstd::prelude::*;
use crate::bitmap::{
    Bitmap, Raster, fits, has_coverage, is_opaque_bounds, trimmed, squared, padded, side, region,
    cropped_box, covered, window, lemma_window_at,
};
use crate::cur_writer::TARGET_SIZES;
use crate::error::AppError;
use image::{AnimationDecoder, ImageDecoder, ImageFormat};

verus! {

/// 20 MB in. Comfortably more than any real cursor source.
pub const MAX_INPUT_BYTES: usize = 20971520;

/// The longest side an imported image may have.
pub const MAX_DIMENSION: u32 = 4096;

/// The real defence against a decompression bomb: a 4096 x 4096 RGBA image
/// is 64 MB decoded, whatever the compressed file claimed.
pub const MAX_PIXELS: u64 = 16777216;

/// Frames beyond this are dropped before decode.
pub const MAX_SOURCE_FRAMES: usize = 240;

/// How many times a source may be enlarged for the ladder.
pub const MAX_UPSCALE: u32 = 4;

/// A decoded image: one picture, or frames with their delays in milliseconds.
#[derive(Debug)]
pub enum Source {
    Static(Bitmap),
    Animated(Vec<(Bitmap, u32)>),
}

impl Source {
    /// The first picture.
    pub fn first(&self) -> (out: Result<&Bitmap, AppError>)
        ensures
            match self {
                Source::Static(b) => out == Ok::<&Bitmap, AppError>(b),
                Source::Animated(frames) => if frames@.len() > 0 {
                    out == Ok::<&Bitmap, AppError>(&frames@[0].0)
                } else {
                    out == Err::<&Bitmap, AppError>(AppError::NoFrames)
                },
            },
    {
        match self {
            Source::Static(bitmap) => Ok(bitmap),
            Source::Animated(frames) => {
                if frames.len() > 0 {
                    Ok(&frames[0].0)
                } else {
                    Err(AppError::NoFrames)
                }
            },
        }
    }

    /// How many pictures there are.
    pub fn frame_count(&self) -> (n: usize)
        ensures
            n == match self {
                Source::Static(_) => 1,
                Source::Animated(frames) => frames@.len(),
            },
    {
        match self {
            Source::Static(_) => 1,
            Source::Animated(frames) => frames.len(),
        }
    }

    pub fn is_animated(&self) -> (b: bool)
        ensures
            b == self is Animated,
    {
        match self {
            Source::Static(_) => false,
            Source::Animated(_) => true,
        }
    }
}

/// The formats an image can be imported from.
#[derive(Debug, Clone, Copy, PartialEq, Eq, Structural)]
pub enum ImageKind {
    Png,
    Jpeg,
    Gif,
    Bmp,
    WebP,
}

/// The format the leading bytes name, if any.
pub open spec fn sniffed(b: Seq<u8>) -> Result<ImageKind, AppError> {
    if b.len() < 12 {
        Err(AppError::TooShort)
    } else if b[0] == 0x89 && b[1] == 0x50 && b[2] == 0x4e && b[3] == 0x47 && b[4] == 0x0d && b[5] == 0x0a
        && b[6] == 0x1a && b[7] == 0x0a {
        Ok(ImageKind::Png)
    } else if b[0] == 0xff && b[1] == 0xd8 && b[2] == 0xff {
        Ok(ImageKind::Jpeg)
    } else if b[0] == 0x47 && b[1] == 0x49 && b[2] == 0x46 && b[3] == 0x38 {
        Ok(ImageKind::Gif)
    } else if b[0] == 0x42 && b[1] == 0x4d {
        Ok(ImageKind::Bmp)
    } else if b[0] == 0x52 && b[1] == 0x49 && b[2] == 0x46 && b[3] == 0x46 && b[8] == 0x57 && b[9] == 0x45
        && b[10] == 0x42 && b[11] == 0x50 {
        Ok(ImageKind::WebP)
    } else {
        Err(AppError::UnsupportedFormat)
    }
}

/// Identifies a format from its leading bytes. Extensions are a claim made
/// by whoever named the file; magic bytes are a property of the file itself.
pub fn sniff(bytes: &[u8]) -> (out: Result<ImageKind, AppError>)
    ensures
        out == sniffed(bytes@),
{
    if bytes.len() < 12 {
        return Err(AppError::TooShort);
    }
    if bytes[0] == 0x89 && bytes[1] == 0x50 && bytes[2] == 0x4e && bytes[3] == 0x47 && bytes[4] == 0x0d
        && bytes[5] == 0x0a && bytes[6] == 0x1a && bytes[7] == 0x0a {
        Ok(ImageKind::Png)
    } else if bytes[0] == 0xff && bytes[1] == 0xd8 && bytes[2] == 0xff {
        Ok(ImageKind::Jpeg)
    } else if bytes[0] == 0x47 && bytes[1] == 0x49 && bytes[2] == 0x46 && bytes[3] == 0x38 {
        Ok(ImageKind::Gif)
    } else if bytes[0] == 0x42 && bytes[1] == 0x4d {
        Ok(ImageKind::Bmp)
    } else if bytes[0] == 0x52 && bytes[1] == 0x49 && bytes[2] == 0x46 && bytes[3] == 0x46 && bytes[8]
        == 0x57 && bytes[9] == 0x45 && bytes[10] == 0x42 && bytes[11] == 0x50 {
        Ok(ImageKind::WebP)
    } else {
        Err(AppError::UnsupportedFormat)
    }
}

/// What is checked of the bytes before any decoder runs: the size cap, then
/// the format.
pub fn screen_input(bytes: &[u8]) -> (out: Result<ImageKind, AppError>)
    ensures
        out == if bytes@.len() > MAX_INPUT_BYTES {
            Err(AppError::ImageTooLarge)
        } else {
            sniffed(bytes@)
        },
{
    if bytes.len() > MAX_INPUT_BYTES {
        return Err(AppError::ImageTooLarge);
    }
    sniff(bytes)
}

/// The dimension and pixel budget every decoded image must be inside.
pub open spec fn dimensions_ok(width: int, height: int) -> Result<(), AppError> {
    if width == 0 || height == 0 {
        Err(AppError::NoPixels)
    } else if width > 4096 || height > 4096 || width * height > 16777216 {
        Err(AppError::ImageTooLarge)
    } else {
        Ok(())
    }
}

pub fn guard_dimensions(width: u32, height: u32) -> (out: Result<(), AppError>)
    ensures
        out == dimensions_ok(width as int, height as int),
{
    if width == 0 || height == 0 {
        return Err(AppError::NoPixels);
    }
    if width > MAX_DIMENSION || height > MAX_DIMENSION {
        return Err(AppError::ImageTooLarge);
    }
    assert((width as int) * (height as int) <= 4096 * 4096) by (nonlinear_arith)
        requires
            width <= 4096,
            height <= 4096,
    ;
    if (width as u64) * (height as u64) > MAX_PIXELS {
        return Err(AppError::ImageTooLarge);
    }
    Ok(())
}

/// The delay of an animation frame given as a fraction of milliseconds. A
/// zero delay means "as fast as possible", which every browser and shell
/// shows at about 100 ms; everything else is held to 10-2000 ms.
pub fn frame_delay_ms(numerator: u32, denominator: u32) -> (ms: u32)
    ensures
        ms == if denominator == 0 {
            100
        } else {
            let q = numerator / denominator;
            if q < 10 { 10 } else if q > 2000 { 2000 } else { q }
        },
{
    if denominator == 0 {
        return 100;
    }
    let q = numerator / denominator;
    if q < 10 {
        10
    } else if q > 2000 {
        2000
    } else {
        q
    }
}

/// Decoded frames as a source: one frame is a still picture.
pub fn collect_frames(frames: Vec<(Bitmap, u32)>) -> (out: Result<Source, AppError>)
    ensures
        frames@.len() == 0 ==> out == Err::<Source, AppError>(AppError::NoFrames),
        frames@.len() == 1 ==> (out matches Ok(Source::Static(b)) && b == frames@[0].0),
        frames@.len() > 1 ==> (out matches Ok(Source::Animated(f)) && f@ == frames@),
{
    if frames.len() == 0 {
        return Err(AppError::NoFrames);
    }
    if frames.len() == 1 {
        let mut frames = frames;
        let ghost first = frames@[0].0;
        match frames.pop() {
            Some((bitmap, _)) => {
                return Ok(Source::Static(bitmap));
            },
            None => {
                return Err(AppError::NoFrames);
            },
        }
    }
    Ok(Source::Animated(frames))
}

/// What to do about the background of a user's image.
#[derive(Debug, Clone, Copy, PartialEq, Eq, Structural)]
pub enum Cut {
    /// Cut it out, unless the image already carries transparency.
    Auto,
    /// Cut it out regardless.
    Force,
    /// Leave the image exactly as it arrived.
    Keep,
}

impl Default for Cut {
    fn default() -> (out: Self)
        ensures
            out == Cut::Auto,
    {
        Cut::Auto
    }
}

/// A master prepared from a trimmed image: squared on a transparent canvas
/// and padded by one pixel so a contrast outline has room.
pub open spec fn finished_master(r: Raster, bounds: Option<(int, int, int, int)>) -> Raster {
    padded(squared(trimmed(r, bounds)), 1)
}

/// The last steps of preparing a master: trim, refuse an image with nothing
/// visible, square, pad by one pixel.
pub fn finish_master(source: &Bitmap) -> (out: Result<Bitmap, AppError>)
    requires
        source@.wf(),
        side(source@) + 2 <= u32::MAX,
        fits(side(source@) as int + 2, side(source@) as int + 2),
    ensures
        match out {
            Ok(m) => has_coverage(source@) && exists|b: (int, int, int, int)|
                is_opaque_bounds(source@, b) && m@ == #[trigger] finished_master(source@, Some(b)),
            Err(e) => !has_coverage(source@) && e == AppError::CompletelyTransparent,
        },
{
    let t = source.trimmed();
    if t.is_empty() {
        proof {
            let b = choose|b: Option<(int, int, int, int)>|
                {
                    &&& (match b {
                        None => !has_coverage(source@),
                        Some(bb) => is_opaque_bounds(source@, bb),
                    })
                    &&& t@ == #[trigger] trimmed(source@, b)
                };
            lemma_trimmed_keeps_coverage(source@, b);
        }
        return Err(AppError::CompletelyTransparent);
    }
    let ghost b = choose|b: Option<(int, int, int, int)>|
        {
            &&& (match b {
                None => !has_coverage(source@),
                Some(bb) => is_opaque_bounds(source@, bb),
            })
            &&& t@ == #[trigger] trimmed(source@, b)
        };
    proof {
        lemma_trimmed_keeps_coverage(source@, b);
        lemma_trimmed_size(source@, b);
    }
    proof {
        lemma_fits_mono(side(t@) as int, side(source@) as int + 2);
        lemma_fits_mono(side(t@) as int + 2, side(source@) as int + 2);
    }
    let s = t.squared();
    let out = s.padded(1);
    assert(out@ == finished_master(source@, b));
    Ok(out)
}

/// A smaller square needs no more bytes.
pub proof fn lemma_fits_mono(a: int, b: int)
    requires
        0 <= a <= b,
        fits(b, b),
    ensures
        fits(a, a),
{
    assert(a * a <= b * b) by (nonlinear_arith)
        requires
            0 <= a <= b,
    ;
}

/// Trimming keeps what is visible: nothing when there was nothing, and a
/// non-empty picture with coverage when there was coverage.
pub proof fn lemma_trimmed_keeps_coverage(r: Raster, b: Option<(int, int, int, int)>)
    requires
        r.wf(),
        match b {
            None => !has_coverage(r),
            Some(bb) => is_opaque_bounds(r, bb),
        },
    ensures
        b is None ==> trimmed(r, b) == r,
        b is Some ==> has_coverage(r) && has_coverage(trimmed(r, b)) && trimmed(r, b).width > 0
            && trimmed(r, b).height > 0,
{
    if let Some(bb) = b {
        let (x0, y0) = choose|x: int, y: int| #[trigger] covered(r, x, y) && x == bb.0;
        assert(covered(r, x0, y0));
        if bb == (0int, 0int, r.width - 1, r.height - 1) {
        } else {
            let (w, h) = ((bb.2 - bb.0 + 1) as nat, (bb.3 - bb.1 + 1) as nat);
            let t = trimmed(r, b);
            assert(t == window(r, bb.0, bb.1, w, h, w, h, 0, 0));
            lemma_window_at(r, bb.0, bb.1, w, h, w, h, 0, 0, x0 - bb.0, y0 - bb.1, 3);
            assert(covered(t, x0 - bb.0, y0 - bb.1));
        }
    }
}

/// Trimming never grows a picture.
pub proof fn lemma_trimmed_size(r: Raster, b: Option<(int, int, int, int)>)
    requires
        r.wf(),
        match b {
            None => !has_coverage(r),
            Some(bb) => is_opaque_bounds(r, bb),
        },
    ensures
        trimmed(r, b).width <= r.width,
        trimmed(r, b).height <= r.height,
        side(trimmed(r, b)) <= side(r),
        trimmed(r, b).wf(),
{
    if let Some(bb) = b {
        let (x0, y0) = choose|x: int, y: int| #[trigger] covered(r, x, y) && x == bb.0;
        let (x1, y1) = choose|x: int, y: int| #[trigger] covered(r, x, y) && y == bb.1;
        let (x2, y2) = choose|x: int, y: int| #[trigger] covered(r, x, y) && x == bb.2;
        let (x3, y3) = choose|x: int, y: int| #[trigger] covered(r, x, y) && y == bb.3;
        assert(covered(r, x0, y0) && covered(r, x1, y1) && covered(r, x2, y2) && covered(r, x3, y3));
        if bb != (0int, 0int, r.width - 1, r.height - 1) {
            let (w, h) = ((bb.2 - bb.0 + 1) as nat, (bb.3 - bb.1 + 1) as nat);
            lemma_window_at(r, bb.0, bb.1, w, h, w, h, 0, 0, 0, 0, 0);
        }
    }
}

/// Cell `k` of a sheet cut into `columns` by `rows` cells, in reading order.
pub open spec fn sheet_cell(sheet: Raster, columns: int, rows: int, k: int) -> Raster {
    let cw = (sheet.width as int) / columns;
    let ch = (sheet.height as int) / rows;
    region(sheet, (k % columns) * cw, (k / columns) * ch, cw as nat, ch as nat)
}

/// Why a sheet cannot be cut into `columns` by `rows` cells, if it cannot.
pub open spec fn sheet_refusal(width: int, height: int, columns: int, rows: int) -> Option<AppError> {
    if columns == 0 || rows == 0 {
        Some(AppError::EmptyGrid)
    } else if columns > 64 || rows > 64 {
        Some(AppError::TooManyCells)
    } else if width % columns != 0 || height % rows != 0 {
        Some(AppError::UnevenGrid)
    } else {
        None
    }
}

/// Slices a sprite sheet into frames, left to right, top to bottom.
pub fn slice_sprite_sheet(sheet: &Bitmap, columns: u32, rows: u32) -> (out: Result<Vec<Bitmap>, AppError>)
    requires
        sheet@.wf(),
    ensures
        match out {
            Ok(cells) => sheet_refusal(sheet.width as int, sheet.height as int, columns as int, rows as int)
                is None && cells@.len() == columns * rows && forall|k: int|
                0 <= k < cells@.len() ==> (#[trigger] cells@[k])@ == sheet_cell(
                    sheet@,
                    columns as int,
                    rows as int,
                    k,
                ),
            Err(e) => sheet_refusal(sheet.width as int, sheet.height as int, columns as int, rows as int)
                == Some(e),
        },
{
    if columns == 0 || rows == 0 {
        return Err(AppError::EmptyGrid);
    }
    if columns > 64 || rows > 64 {
        return Err(AppError::TooManyCells);
    }
    if sheet.width % columns != 0 || sheet.height % rows != 0 {
        return Err(AppError::UnevenGrid);
    }
    let cell_width = sheet.width / columns;
    let cell_height = sheet.height / rows;
    let ghost cols = columns as int;
    let mut out: Vec<Bitmap> = Vec::new();
    let mut row: u32 = 0;
    while row < rows
        invariant
            sheet@.wf(),
            1 <= columns <= 64,
            1 <= rows <= 64,
            cell_width == sheet.width / columns,
            cell_height == sheet.height / rows,
            sheet.width % columns == 0,
            sheet.height % rows == 0,
            row <= rows,
            out@.len() == row * columns,
            forall|k: int| 0 <= k < out@.len() ==> (#[trigger] out@[k])@ == sheet_cell(
                sheet@,
                columns as int,
                rows as int,
                k,
            ),
        decreases rows - row,
    {
        let mut column: u32 = 0;
        while column < columns
            invariant
                sheet@.wf(),
                1 <= columns <= 64,
                1 <= rows <= 64,
                cell_width == sheet.width / columns,
                cell_height == sheet.height / rows,
                sheet.width % columns == 0,
                sheet.height % rows == 0,
                row < rows,
                column <= columns,
                out@.len() == row * columns + column,
                forall|k: int| 0 <= k < out@.len() ==> (#[trigger] out@[k])@ == sheet_cell(
                    sheet@,
                    columns as int,
                    rows as int,
                    k,
                ),
            decreases columns - column,
        {
            proof {
                lemma_cell_inside(sheet.width as int, columns as int, column as int);
                lemma_cell_inside(sheet.height as int, rows as int, row as int);
            }
            let cell = sheet.cropped_region(column * cell_width, row * cell_height, cell_width, cell_height);
            proof {
                let k = row * columns + column;
                crate::cur_writer::lemma_row_col_pub(k as int, columns as int, row as int, column as int);
            }
            out.push(cell);
            column = column + 1;
        }
        assert(row * columns + columns == (row + 1) * columns) by (nonlinear_arith);
        row = row + 1;
    }
    assert(rows * columns == columns * rows) by (nonlinear_arith);
    Ok(out)
}

/// A cell of an evenly divided side lies inside it.
proof fn lemma_cell_inside(total: int, count: int, i: int)
    requires
        1 <= count,
        0 <= i < count,
        total >= 0,
        total % count == 0,
    ensures
        i * (total / count) + total / count <= total,
        0 <= i * (total / count),
{
    let c = total / count;
    vstd::arithmetic::div_mod::lemma_fundamental_div_mod(total, count);
    assert(i * c + c <= count * c) by (nonlinear_arith)
        requires
            0 <= i < count,
            c >= 0,
    ;
    assert(0 <= i * c) by (nonlinear_arith)
        requires
            i >= 0,
            c >= 0,
    ;
}

/// The sizes every static catalog cursor ships.
pub fn target_sizes() -> (sizes: &'static [u32])
    ensures
        sizes@ == TARGET_SIZES@,
{
    TARGET_SIZES.as_slice()
}

/// The sizes of the ladder at or below `ceiling`, in order, among the first
/// `k` rungs.
pub open spec fn rungs_upto(ceiling: int, k: int) -> Seq<u32>
    decreases k,
{
    if k <= 0 {
        Seq::empty()
    } else if TARGET_SIZES@[k - 1] <= ceiling {
        rungs_upto(ceiling, k - 1).push(TARGET_SIZES@[k - 1])
    } else {
        rungs_upto(ceiling, k - 1)
    }
}

/// How large a ladder a source of the longest side `source` earns: up to
/// [`MAX_UPSCALE`] times its own size, and never less than 32 px.
pub open spec fn ladder_ceiling(width: int, height: int) -> int {
    let longest = if width >= height { width } else { height };
    let source = if longest < 1 { 1 } else { longest };
    let up = if source * 4 > u32::MAX { u32::MAX as int } else { source * 4 };
    if up < 32 { 32 } else { up }
}

/// The sizes worth generating for a source image of a given resolution. A
/// bitmap enlarged past four times its size adds only bytes, so the ladder
/// stops there; a very small source still gets the rungs up to 32 px.
pub fn sizes_for_source(width: u32, height: u32) -> (sizes: Vec<u32>)
    ensures
        sizes@ == rungs_upto(ladder_ceiling(width as int, height as int), 8),
        sizes@.len() >= 4,
{
    let longest = if width >= height { width } else { height };
    let source = if longest < 1 { 1 } else { longest };
    let up: u32 = if source > u32::MAX / MAX_UPSCALE { u32::MAX } else { source * MAX_UPSCALE };
    let ceiling = if up < 32 { 32 } else { up };
    assert(ceiling == ladder_ceiling(width as int, height as int));
    let mut out: Vec<u32> = Vec::new();
    let mut i: usize = 0;
    while i < 8
        invariant
            i <= 8,
            ceiling == ladder_ceiling(width as int, height as int),
            out@ == rungs_upto(ceiling as int, i as int),
            ceiling >= 32,
            i <= 4 ==> out@.len() == i,
            i >= 4 ==> out@.len() >= 4,
        decreases 8 - i,
    {
        let s = TARGET_SIZES[i];
        if s <= ceiling {
            out.push(s);
        }
        i = i + 1;
    }
    out
}

/// The distance between two sizes.
pub open spec fn size_gap(a: int, b: int) -> int {
    if a >= b { a - b } else { b - a }
}

/// Picks the ladder size closest to what Windows is drawing; between two
/// equally close, the smaller.
pub fn nearest_size(requested: u32) -> (size: u32)
    ensures
        exists|i: int| 0 <= i < 8 && size == TARGET_SIZES@[i] && (forall|j: int|
            0 <= j < 8 ==> size_gap(size as int, requested as int) <= size_gap(
                #[trigger] TARGET_SIZES@[j] as int,
                requested as int,
            )) && (forall|j: int|
            0 <= j < i ==> size_gap(size as int, requested as int) < size_gap(
                #[trigger] TARGET_SIZES@[j] as int,
                requested as int,
            )),
{
    let mut best: u32 = TARGET_SIZES[0];
    let mut best_i: usize = 0;
    let mut best_gap: u32 = if best >= requested { best - requested } else { requested - best };
    let mut i: usize = 1;
    while i < 8
        invariant
            1 <= i <= 8,
            best_i < i,
            best == TARGET_SIZES@[best_i as int],
            best_gap == size_gap(best as int, requested as int),
            forall|j: int| 0 <= j < i ==> best_gap <= size_gap(#[trigger] TARGET_SIZES@[j] as int, requested as int),
            forall|j: int| 0 <= j < best_i ==> best_gap < size_gap(#[trigger] TARGET_SIZES@[j] as int, requested as int),
        decreases 8 - i,
    {
        let s = TARGET_SIZES[i];
        let gap = if s >= requested { s - requested } else { requested - s };
        if gap < best_gap {
            best = s;
            best_i = i;
            best_gap = gap;
        }
        i = i + 1;
    }
    best
}

} // verus!

verus! {

/// Some pixel of frame `j` among the first `k` frames is covered at `(x, y)`.
pub open spec fn covered_by(frames: Seq<(Bitmap, u32)>, k: int, j: int, x: int, y: int) -> bool {
    0 <= j < k && covered(frames[j].0@, x, y)
}

/// `b` is the bounding box of everything the first `k` frames cover: one
/// rectangle for the whole animation, each edge touching a covered pixel of
/// some frame.
pub open spec fn is_union_bounds(frames: Seq<(Bitmap, u32)>, k: int, b: (int, int, int, int)) -> bool {
    &&& forall|j: int, x: int, y: int| #[trigger] covered_by(frames, k, j, x, y) ==> b.0 <= x <= b.2 && b.1 <= y <= b.3
    &&& exists|j: int, x: int, y: int| #[trigger] covered_by(frames, k, j, x, y) && x == b.0
    &&& exists|j: int, x: int, y: int| #[trigger] covered_by(frames, k, j, x, y) && y == b.1
    &&& exists|j: int, x: int, y: int| #[trigger] covered_by(frames, k, j, x, y) && x == b.2
    &&& exists|j: int, x: int, y: int| #[trigger] covered_by(frames, k, j, x, y) && y == b.3
}

/// Some frame among the first `k` covers some pixel.
pub open spec fn any_covered(frames: Seq<(Bitmap, u32)>, k: int) -> bool {
    exists|j: int, x: int, y: int| #[trigger] covered_by(frames, k, j, x, y)
}

/// The one rectangle every frame of an animation is cropped to: the union
/// of every frame's content. Trimming each frame to its own content would
/// bring frames back at different sizes and shifted, and the cursor would
/// jitter.
pub fn animation_bounds(frames: &Vec<(Bitmap, u32)>) -> (out: Result<(u32, u32, u32, u32), AppError>)
    requires
        forall|j: int| 0 <= j < frames@.len() ==> (#[trigger] frames@[j]).0@.wf(),
    ensures
        match out {
            Ok(b) => is_union_bounds(frames@, frames@.len() as int, (b.0 as int, b.1 as int, b.2 as int, b.3 as int)),
            Err(e) => if frames@.len() == 0 {
                e == AppError::EmptyAnimation
            } else {
                e == AppError::TransparentAnimation && !any_covered(frames@, frames@.len() as int)
            },
        },
{
    if frames.len() == 0 {
        return Err(AppError::EmptyAnimation);
    }
    let ghost f = frames@;
    let mut bounds: Option<(u32, u32, u32, u32)> = None;
    let mut k: usize = 0;
    while k < frames.len()
        invariant
            f == frames@,
            forall|j: int| 0 <= j < f.len() ==> (#[trigger] f[j]).0@.wf(),
            k <= f.len(),
            match bounds {
                None => !any_covered(f, k as int),
                Some(b) => is_union_bounds(f, k as int, (b.0 as int, b.1 as int, b.2 as int, b.3 as int)),
            },
        decreases f.len() - k,
    {
        let ghost kk = k as int;
        assert(f[kk].0@.wf());
        let found = frames[k].0.opaque_bounds();
        match found {
            None => {
                proof {
                    assert forall|j: int, x: int, y: int| #[trigger] covered_by(f, kk + 1, j, x, y) implies covered_by(
                        f,
                        kk,
                        j,
                        x,
                        y,
                    ) by {
                        if j == kk {
                            assert(covered(f[kk].0@, x, y));
                        }
                    }
                    match bounds {
                        None => {},
                        Some(b) => {
                            let bb = (b.0 as int, b.1 as int, b.2 as int, b.3 as int);
                            let (j0, x0, y0) = choose|j: int, x: int, y: int| #[trigger] covered_by(f, kk, j, x, y) && x == bb.0;
                            assert(covered_by(f, kk + 1, j0, x0, y0));
                            let (j1, x1, y1) = choose|j: int, x: int, y: int| #[trigger] covered_by(f, kk, j, x, y) && y == bb.1;
                            assert(covered_by(f, kk + 1, j1, x1, y1));
                            let (j2, x2, y2) = choose|j: int, x: int, y: int| #[trigger] covered_by(f, kk, j, x, y) && x == bb.2;
                            assert(covered_by(f, kk + 1, j2, x2, y2));
                            let (j3, x3, y3) = choose|j: int, x: int, y: int| #[trigger] covered_by(f, kk, j, x, y) && y == bb.3;
                            assert(covered_by(f, kk + 1, j3, x3, y3));
                        },
                    }
                }
            },
            Some(fb) => {
                let ghost fr = f[kk].0@;
                let next = match bounds {
                    None => fb,
                    Some(b) => (
                        if b.0 <= fb.0 { b.0 } else { fb.0 },
                        if b.1 <= fb.1 { b.1 } else { fb.1 },
                        if b.2 >= fb.2 { b.2 } else { fb.2 },
                        if b.3 >= fb.3 { b.3 } else { fb.3 },
                    ),
                };
                proof {
                    let nb = (next.0 as int, next.1 as int, next.2 as int, next.3 as int);
                    assert forall|j: int, x: int, y: int| #[trigger] covered_by(f, kk + 1, j, x, y) implies nb.0 <= x <= nb.2
                        && nb.1 <= y <= nb.3 by {
                        if j == kk {
                            assert(covered(fr, x, y));
                        } else {
                            assert(covered_by(f, kk, j, x, y));
                        }
                    }
                    let (a0, b0) = choose|x: int, y: int| #[trigger] covered(fr, x, y) && x == fb.0;
                    let (a1, b1) = choose|x: int, y: int| #[trigger] covered(fr, x, y) && y == fb.1;
                    let (a2, b2) = choose|x: int, y: int| #[trigger] covered(fr, x, y) && x == fb.2;
                    let (a3, b3) = choose|x: int, y: int| #[trigger] covered(fr, x, y) && y == fb.3;
                    assert(covered_by(f, kk + 1, kk, a0, b0));
                    assert(covered_by(f, kk + 1, kk, a1, b1));
                    assert(covered_by(f, kk + 1, kk, a2, b2));
                    assert(covered_by(f, kk + 1, kk, a3, b3));
                    match bounds {
                        None => {},
                        Some(b) => {
                            let bb = (b.0 as int, b.1 as int, b.2 as int, b.3 as int);
                            let (j0, x0, y0) = choose|j: int, x: int, y: int| #[trigger] covered_by(f, kk, j, x, y) && x == bb.0;
                            assert(covered_by(f, kk + 1, j0, x0, y0));
                            let (j1, x1, y1) = choose|j: int, x: int, y: int| #[trigger] covered_by(f, kk, j, x, y) && y == bb.1;
                            assert(covered_by(f, kk + 1, j1, x1, y1));
                            let (j2, x2, y2) = choose|j: int, x: int, y: int| #[trigger] covered_by(f, kk, j, x, y) && x == bb.2;
                            assert(covered_by(f, kk + 1, j2, x2, y2));
                            let (j3, x3, y3) = choose|j: int, x: int, y: int| #[trigger] covered_by(f, kk, j, x, y) && y == bb.3;
                            assert(covered_by(f, kk + 1, j3, x3, y3));
                        },
                    }
                }
                bounds = Some(next);
            },
        }
        k = k + 1;
    }
    match bounds {
        Some(b) => Ok(b),
        None => Err(AppError::TransparentAnimation),
    }
}

} // verus!

verus! {

/// The header size a GIF decoder reports, or `None` where the `image`
/// crate will not open the bytes as a GIF.
pub uninterp spec fn gif_header(bytes: Seq<u8>) -> Option<(u32, u32)>;

/// The first `limit` frames the `image` crate decodes from a GIF, each as
/// width, height, RGBA bytes and delay (numerator and denominator, in
/// milliseconds), or `None` where it cannot.
pub uninterp spec fn gif_frames_of(bytes: Seq<u8>, limit: int) -> Option<Seq<(u32, u32, Seq<u8>, u32, u32)>>;

/// The header size a PNG decoder reports.
pub uninterp spec fn png_header(bytes: Seq<u8>) -> Option<(u32, u32)>;

/// Whether the `image` crate finds an animated PNG.
pub uninterp spec fn png_animated(bytes: Seq<u8>) -> bool;

/// The first `limit` frames of an animated PNG.
pub uninterp spec fn apng_frames_of(bytes: Seq<u8>, limit: int) -> Option<Seq<(u32, u32, Seq<u8>, u32, u32)>>;

/// A still PNG, decoded to RGBA: width, height and bytes.
pub uninterp spec fn png_still_of(bytes: Seq<u8>) -> Option<(u32, u32, Seq<u8>)>;

/// The header size the `image` crate reports for a JPEG, BMP or WebP.
pub uninterp spec fn reader_header(bytes: Seq<u8>, kind: ImageKind) -> Option<(u32, u32)>;

/// A JPEG, BMP or WebP decoded to RGBA and turned upright by its EXIF
/// orientation.
pub uninterp spec fn reader_still_of(bytes: Seq<u8>, kind: ImageKind) -> Option<(u32, u32, Seq<u8>)>;

/// Decoded frames as plain values.
pub open spec fn frames_deep(s: Seq<(u32, u32, Vec<u8>, u32, u32)>) -> Seq<(u32, u32, Seq<u8>, u32, u32)> {
    Seq::new(s.len(), |i: int| (s[i].0, s[i].1, s[i].2@, s[i].3, s[i].4))
}

pub open spec fn frames_view(o: Option<Vec<(u32, u32, Vec<u8>, u32, u32)>>) -> Option<Seq<(u32, u32, Seq<u8>, u32, u32)>> {
    match o {
        Some(v) => Some(frames_deep(v@)),
        None => None,
    }
}

pub open spec fn still_view(o: Option<(u32, u32, Vec<u8>)>) -> Option<(u32, u32, Seq<u8>)> {
    match o {
        Some(t) => Some((t.0, t.1, t.2@)),
        None => None,
    }
}

/// `image::codecs::gif::GifDecoder::new` and the decoder's `dimensions`.
/// Claims only that the result is a function of the bytes.
#[verifier::external_body]
fn gif_dimensions(bytes: &[u8]) -> (out: Option<(u32, u32)>)
    ensures
        out == gif_header(bytes@),
{
    image::codecs::gif::GifDecoder::new(std::io::Cursor::new(bytes)).ok().map(|d| d.dimensions())
}

/// `GifDecoder::new`, `into_frames`, the first `limit` frames collected,
/// each converted to its size, RGBA bytes and `delay().numer_denom_ms()`.
/// Claims only that the result is a function of the bytes and the limit.
#[verifier::external_body]
fn gif_frames(bytes: &[u8], limit: usize) -> (out: Option<Vec<(u32, u32, Vec<u8>, u32, u32)>>)
    ensures
        frames_view(out) == gif_frames_of(bytes@, limit as int),
{
    let decoder = image::codecs::gif::GifDecoder::new(std::io::Cursor::new(bytes)).ok()?;
    let frames = decoder.into_frames().take(limit).collect::<Result<Vec<_>, _>>().ok()?;
    Some(frames.into_iter().map(|f| {
        let (n, d) = f.delay().numer_denom_ms();
        let b = f.into_buffer();
        (b.width(), b.height(), b.into_raw(), n, d)
    }).collect())
}

/// `image::codecs::png::PngDecoder::new` and the decoder's `dimensions`.
#[verifier::external_body]
fn png_dimensions(bytes: &[u8]) -> (out: Option<(u32, u32)>)
    ensures
        out == png_header(bytes@),
{
    image::codecs::png::PngDecoder::new(std::io::Cursor::new(bytes)).ok().map(|d| d.dimensions())
}

/// `PngDecoder::new` and `is_apng`; a decoder error reads as a still.
#[verifier::external_body]
fn png_is_animated(bytes: &[u8]) -> (out: bool)
    ensures
        out == png_animated(bytes@),
{
    match image::codecs::png::PngDecoder::new(std::io::Cursor::new(bytes)) {
        Ok(d) => d.is_apng().unwrap_or(false),
        Err(_) => false,
    }
}

/// `PngDecoder::new`, `apng`, `into_frames`, the first `limit` frames, each
/// converted as for a GIF.
#[verifier::external_body]
fn apng_frames(bytes: &[u8], limit: usize) -> (out: Option<Vec<(u32, u32, Vec<u8>, u32, u32)>>)
    ensures
        frames_view(out) == apng_frames_of(bytes@, limit as int),
{
    let decoder = image::codecs::png::PngDecoder::new(std::io::Cursor::new(bytes)).ok()?.apng().ok()?;
    let frames = decoder.into_frames().take(limit).collect::<Result<Vec<_>, _>>().ok()?;
    Some(frames.into_iter().map(|f| {
        let (n, d) = f.delay().numer_denom_ms();
        let b = f.into_buffer();
        (b.width(), b.height(), b.into_raw(), n, d)
    }).collect())
}

/// `PngDecoder::new`, `DynamicImage::from_decoder` and `to_rgba8`.
#[verifier::external_body]
fn png_still(bytes: &[u8]) -> (out: Option<(u32, u32, Vec<u8>)>)
    ensures
        still_view(out) == png_still_of(bytes@),
{
    let decoder = image::codecs::png::PngDecoder::new(std::io::Cursor::new(bytes)).ok()?;
    let rgba = image::DynamicImage::from_decoder(decoder).ok()?.to_rgba8();
    Some((rgba.width(), rgba.height(), rgba.into_raw()))
}

/// `image::ImageReader::with_format`, `into_decoder` and `dimensions`.
#[verifier::external_body]
fn reader_dimensions(bytes: &[u8], kind: ImageKind) -> (out: Option<(u32, u32)>)
    ensures
        out == reader_header(bytes@, kind),
{
    let format = match kind {
        ImageKind::Png => ImageFormat::Png,
        ImageKind::Jpeg => ImageFormat::Jpeg,
        ImageKind::Gif => ImageFormat::Gif,
        ImageKind::Bmp => ImageFormat::Bmp,
        ImageKind::WebP => ImageFormat::WebP,
    };
    let reader = image::ImageReader::with_format(std::io::Cursor::new(bytes), format);
    reader.into_decoder().ok().map(|d| d.dimensions())
}

/// `ImageReader::with_format`, `into_decoder`, the decoder's `orientation`
/// (none where it cannot tell), `DynamicImage::from_decoder`,
/// `apply_orientation` and `to_rgba8`.
#[verifier::external_body]
fn reader_still(bytes: &[u8], kind: ImageKind) -> (out: Option<(u32, u32, Vec<u8>)>)
    ensures
        still_view(out) == reader_still_of(bytes@, kind),
{
    let format = match kind {
        ImageKind::Png => ImageFormat::Png,
        ImageKind::Jpeg => ImageFormat::Jpeg,
        ImageKind::Gif => ImageFormat::Gif,
        ImageKind::Bmp => ImageFormat::Bmp,
        ImageKind::WebP => ImageFormat::WebP,
    };
    let reader = image::ImageReader::with_format(std::io::Cursor::new(bytes), format);
    let mut decoder = reader.into_decoder().ok()?;
    let orientation = decoder.orientation().unwrap_or(image::metadata::Orientation::NoTransforms);
    let mut decoded = image::DynamicImage::from_decoder(decoder).ok()?;
    decoded.apply_orientation(orientation);
    let rgba = decoded.to_rgba8();
    Some((rgba.width(), rgba.height(), rgba.into_raw()))
}

/// The delay of a frame in milliseconds, as [`frame_delay_ms`] gives it.
pub open spec fn delay_ms(numerator: u32, denominator: u32) -> u32 {
    if denominator == 0 {
        100
    } else {
        let q = numerator / denominator;
        if q < 10 { 10 } else if q > 2000 { 2000 } else { q }
    }
}

/// A frame whose bytes hold exactly one RGBA quadruple per pixel.
pub open spec fn frame_fits(f: (u32, u32, Seq<u8>, u32, u32)) -> bool {
    f.2.len() == (f.0 as int) * (f.1 as int) * 4
}

/// What decoded frames make: each picture with its delay, refused where a
/// frame's bytes do not match its size or there is no frame at all.
pub open spec fn pictures(fs: Seq<(u32, u32, Seq<u8>, u32, u32)>) -> Result<Seq<(Raster, u32)>, AppError> {
    if exists|i: int| 0 <= i < fs.len() && !frame_fits(#[trigger] fs[i]) {
        Err(AppError::PixelBufferLength)
    } else if fs.len() == 0 {
        Err(AppError::NoFrames)
    } else {
        Ok(Seq::new(fs.len(), |i: int| (Raster { width: fs[i].0 as nat, height: fs[i].1 as nat, bytes: fs[i].2 }, delay_ms(fs[i].3, fs[i].4))))
    }
}

/// A still picture as a run of one frame.
pub open spec fn still_picture(t: (u32, u32, Seq<u8>)) -> Result<Seq<(Raster, u32)>, AppError> {
    pictures(seq![(t.0, t.1, t.2, 0u32, 0u32)])
}

/// What importing `b` gives: the pictures and delays, or the refusal. The
/// size limit and the format come first, then the size the header claims,
/// and only then the full decode: GIF and animated PNG frame by frame, at
/// most [`MAX_SOURCE_FRAMES`], anything else as one upright picture.
pub open spec fn imported(b: Seq<u8>) -> Result<Seq<(Raster, u32)>, AppError> {
    if b.len() > MAX_INPUT_BYTES {
        Err(AppError::ImageTooLarge)
    } else {
        match sniffed(b) {
            Err(e) => Err(e),
            Ok(kind) => {
                let header = if kind is Gif {
                    gif_header(b)
                } else if kind is Png {
                    png_header(b)
                } else {
                    reader_header(b, kind)
                };
                match header {
                    None => Err(AppError::UnsupportedFormat),
                    Some((w, h)) => match dimensions_ok(w as int, h as int) {
                        Err(e) => Err(e),
                        Ok(_) => {
                            let limit = MAX_SOURCE_FRAMES as int;
                            if kind is Gif {
                                match gif_frames_of(b, limit) {
                                    None => Err(AppError::UnsupportedFormat),
                                    Some(fs) => pictures(fs),
                                }
                            } else if kind is Png && png_animated(b) {
                                match apng_frames_of(b, limit) {
                                    None => Err(AppError::UnsupportedFormat),
                                    Some(fs) => pictures(fs),
                                }
                            } else {
                                let still = if kind is Png { png_still_of(b) } else { reader_still_of(b, kind) };
                                match still {
                                    None => Err(AppError::UnsupportedFormat),
                                    Some(t) => still_picture(t),
                                }
                            }
                        },
                    },
                }
            },
        }
    }
}

/// `out` is the source `want` describes: one picture as a still, several
/// as an animation, or the same refusal.
pub open spec fn source_is(out: Result<Source, AppError>, want: Result<Seq<(Raster, u32)>, AppError>) -> bool {
    match want {
        Err(e) => out == Err::<Source, AppError>(e),
        Ok(fs) => match out {
            Ok(Source::Static(b)) => fs.len() == 1 && b@ == fs[0].0,
            Ok(Source::Animated(v)) => fs.len() > 1 && v@.len() == fs.len() && forall|i: int|
                0 <= i < fs.len() ==> (#[trigger] v@[i]).0@ == fs[i].0 && v@[i].1 == fs[i].1,
            Err(_) => false,
        },
    }
}

/// Decoded frames as a source.
fn frames_to_source(decoded: Vec<(u32, u32, Vec<u8>, u32, u32)>) -> (out: Result<Source, AppError>)
    ensures
        source_is(out, pictures(frames_deep(decoded@))),
{
    let ghost all = frames_deep(decoded@);
    let n = decoded.len();
    let mut frames = decoded;
    let mut out: Vec<(Bitmap, u32)> = Vec::new();
    let mut i: usize = 0;
    while i < n
        invariant
            all == frames_deep(decoded@),
            n == all.len(),
            i <= n,
            frames_deep(frames@) == all.skip(i as int),
            frames@.len() == n - i,
            out@.len() == i,
            forall|j: int| 0 <= j < i ==> frame_fits(#[trigger] all[j]),
            forall|j: int|
                0 <= j < i ==> (#[trigger] out@[j]).0@ == (Raster {
                    width: all[j].0 as nat,
                    height: all[j].1 as nat,
                    bytes: all[j].2,
                }) && out@[j].1 == delay_ms(all[j].3, all[j].4),
        decreases n - i,
    {
        let ghost before = frames@;
        let (w, h, px, num, den) = frames.remove(0);
        proof {
            assert(frames_deep(before)[0] == all[i as int]);
            assert(frames@ =~= before.subrange(1, before.len() as int));
            assert forall|k: int| 0 <= k < frames@.len() implies #[trigger] frames_deep(frames@)[k] == all.skip(i as int + 1)[k] by {
                assert(frames@[k] == before[k + 1]);
                assert(frames_deep(before)[k + 1] == all.skip(i as int)[k + 1]);
            }
            assert(frames_deep(frames@) =~= all.skip(i as int + 1));
        }
        let ms = frame_delay_ms(num, den);
        match Bitmap::from_rgba(w, h, px) {
            Ok(b) => {
                assert(b@ =~= Raster { width: w as nat, height: h as nat, bytes: b.pixels@ });
                out.push((b, ms));
            },
            Err(_) => {
                assert(!frame_fits(all[i as int]));
                assert(exists|j: int| 0 <= j < all.len() && !frame_fits(#[trigger] all[j]));
                assert(pictures(all) == Err::<Seq<(Raster, u32)>, AppError>(AppError::PixelBufferLength));
                return Err(AppError::PixelBufferLength);
            },
        }
        i = i + 1;
    }
    let ghost pics = pictures(all);
    assert(!exists|j: int| 0 <= j < all.len() && !frame_fits(#[trigger] all[j]));
    let ghost outv = out@;
    let result = collect_frames(out);
    proof {
        if n > 1 {
            assert(result matches Ok(Source::Animated(f)) && f@ == outv);
        }
    }
    result
}

/// A still picture as a source.
fn still_to_source(still: (u32, u32, Vec<u8>)) -> (out: Result<Source, AppError>)
    ensures
        source_is(out, still_picture((still.0, still.1, still.2@))),
{
    let (w, h, px) = still;
    let ghost fs = seq![(w, h, px@, 0u32, 0u32)];
    match Bitmap::from_rgba(w, h, px) {
        Ok(b) => {
            assert(b@ =~= Raster { width: w as nat, height: h as nat, bytes: b.pixels@ });
            assert(frame_fits(fs[0]));
            assert(!exists|j: int| 0 <= j < fs.len() && !frame_fits(#[trigger] fs[j]));
            Ok(Source::Static(b))
        },
        Err(_) => {
            assert(!frame_fits(fs[0]));
            Err(AppError::PixelBufferLength)
        },
    }
}

/// Decodes an imported image: a still, or the frames of a GIF or an
/// animated PNG. The input is screened (size, then format) and the size its
/// header claims is checked against the pixel budget before anything is
/// decoded in full; a GIF or an animated PNG keeps at most
/// [`MAX_SOURCE_FRAMES`] frames, and a photograph is turned upright by its
/// EXIF orientation. A decoder that cannot read the file refuses it as an
/// unsupported format.
pub fn decode(bytes: &[u8]) -> (out: Result<Source, AppError>)
    ensures
        source_is(out, imported(bytes@)),
{
    let kind = match screen_input(bytes) {
        Ok(k) => k,
        Err(e) => return Err(e),
    };
    let header = match kind {
        ImageKind::Gif => gif_dimensions(bytes),
        ImageKind::Png => png_dimensions(bytes),
        _ => reader_dimensions(bytes, kind),
    };
    let (w, h) = match header {
        Some(d) => d,
        None => return Err(AppError::UnsupportedFormat),
    };
    match guard_dimensions(w, h) {
        Err(e) => return Err(e),
        Ok(_) => {},
    }
    match kind {
        ImageKind::Gif => match gif_frames(bytes, MAX_SOURCE_FRAMES) {
            Some(fs) => frames_to_source(fs),
            None => Err(AppError::UnsupportedFormat),
        },
        ImageKind::Png => {
            if png_is_animated(bytes) {
                match apng_frames(bytes, MAX_SOURCE_FRAMES) {
                    Some(fs) => frames_to_source(fs),
                    None => Err(AppError::UnsupportedFormat),
                }
            } else {
                match png_still(bytes) {
                    Some(t) => still_to_source(t),
                    None => Err(AppError::UnsupportedFormat),
                }
            }
        },
        _ => match reader_still(bytes, kind) {
            Some(t) => still_to_source(t),
            None => Err(AppError::UnsupportedFormat),
        },
    }
}

} // verus!
