//! Reading every frame of an animated cursor, with the delay each is shown for.
//!
//! ```text
//! RIFF <size> ACON
//!   anih <36>    frame count, steps, default rate
//!   rate <4*N>   per-step delay         (optional)
//!   seq  <4*N>   playback order         (optional)
//!   LIST <size> fram
//!     icon <size> <a whole .cur file>  x N
//! ```
//!
//! Frames come back in playback order: an `.ani` may carry a `seq` chunk
//! that plays its frames in an order other than the one they are stored in.

use vstd::prelude::*;
use crate::bitmap::{Bitmap, Raster};
use crate::error::AppError;
use crate::icon_reader::{decode_icon, decoded_icon, is_ani_header, looks_like_an_ani, u32_le, u32_at};

verus! {

/// What Windows uses when an `.ani` declares no rate: 6 jiffies, 100 ms.
pub const DEFAULT_JIFFIES: u32 = 6;

/// How many frames of an `.ani` are decoded before the rest are dropped.
pub const MAX_ANI_FRAMES: usize = 240;

/// What the chunks of an animated cursor say, gathered in one pass.
pub struct AniScan {
    /// The byte ranges of the frames' `.cur` files, in storage order.
    pub icons: Seq<(int, int)>,
    /// Per-step delays in jiffies, from the last `rate` chunk.
    pub rates: Seq<u32>,
    /// Playback order, from the last `seq ` chunk.
    pub sequence: Seq<u32>,
    /// The `anih` rate, or [`DEFAULT_JIFFIES`].
    pub default_jiffies: int,
}

/// The four bytes at `at` are the identifier `a b c d`.
pub open spec fn id_is(b: Seq<u8>, at: int, a: u8, c1: u8, c2: u8, c3: u8) -> bool {
    b[at] == a && b[at + 1] == c1 && b[at + 2] == c2 && b[at + 3] == c3
}

/// The little-endian words of `b[s..e]`, at most [`MAX_ANI_FRAMES`] of them.
pub open spec fn words_in(b: Seq<u8>, s: int, e: int) -> Seq<u32> {
    let whole = (e - s) / 4;
    let n = if whole < 240 { whole } else { 240 };
    Seq::new(n as nat, |i: int| u32_le(b, s + 4 * i) as u32)
}

/// The end of the word-aligned chunk whose body starts at `body_at` and
/// declares `size` bytes.
pub open spec fn next_chunk(body_at: int, size: int) -> int {
    body_at + size + size % 2
}

/// The `icon` chunks of a `LIST fram` region `[at, end)`, appended to
/// `acc`, until [`MAX_ANI_FRAMES`] are held.
pub open spec fn list_icons(b: Seq<u8>, end: int, at: int, acc: Seq<(int, int)>) -> Seq<(int, int)>
    decreases end - at,
{
    if at < 0 || at + 8 > end || acc.len() >= 240 {
        acc
    } else {
        let size = u32_le(b, at + 4);
        let body_at = at + 8;
        let body_end = if body_at + size < end { body_at + size } else { end };
        let acc2 = if id_is(b, at, 0x69, 0x63, 0x6f, 0x6e) && body_end > body_at {
            acc.push((body_at, body_end))
        } else {
            acc
        };
        if size == 0 || next_chunk(body_at, size) > end {
            acc2
        } else {
            list_icons(b, end, next_chunk(body_at, size), acc2)
        }
    }
}

/// What one top-level chunk adds to the scan.
pub open spec fn apply_chunk(b: Seq<u8>, at: int, body_at: int, body_end: int, s: AniScan) -> AniScan {
    if id_is(b, at, 0x61, 0x6e, 0x69, 0x68) {
        if body_end - body_at >= 32 && u32_le(b, body_at + 28) > 0 {
            AniScan { default_jiffies: u32_le(b, body_at + 28), ..s }
        } else {
            s
        }
    } else if id_is(b, at, 0x72, 0x61, 0x74, 0x65) {
        AniScan { rates: words_in(b, body_at, body_end), ..s }
    } else if id_is(b, at, 0x73, 0x65, 0x71, 0x20) {
        AniScan { sequence: words_in(b, body_at, body_end), ..s }
    } else if id_is(b, at, 0x4c, 0x49, 0x53, 0x54) && body_end - body_at >= 4 && id_is(
        b,
        body_at,
        0x66,
        0x72,
        0x61,
        0x6d,
    ) {
        AniScan { icons: list_icons(b, body_end, body_at + 4, s.icons), ..s }
    } else {
        s
    }
}

/// The scan of the chunks in `[at, end)`, starting from `s`.
pub open spec fn scan_from(b: Seq<u8>, end: int, at: int, s: AniScan) -> AniScan
    decreases end - at,
{
    if at < 0 || at + 8 > end {
        s
    } else {
        let size = u32_le(b, at + 4);
        let body_at = at + 8;
        let body_end = if body_at + size < end { body_at + size } else { end };
        let s2 = apply_chunk(b, at, body_at, body_end, s);
        if size == 0 || next_chunk(body_at, size) > end {
            s2
        } else {
            scan_from(b, end, next_chunk(body_at, size), s2)
        }
    }
}

/// Where the RIFF body ends: its declared size, but never past the buffer.
pub open spec fn riff_end(b: Seq<u8>) -> int {
    let declared = u32_le(b, 4) + 8;
    if declared < b.len() { declared } else { b.len() as int }
}

/// The scan of a whole animated cursor.
pub open spec fn ani_scan(b: Seq<u8>) -> AniScan {
    scan_from(
        b,
        riff_end(b),
        12,
        AniScan { icons: Seq::empty(), rates: Seq::empty(), sequence: Seq::empty(), default_jiffies: 6 },
    )
}

/// The order frames play in: the `seq` chunk's, or storage order.
pub open spec fn play_order(s: AniScan) -> Seq<int> {
    if s.sequence.len() == 0 {
        Seq::new(s.icons.len(), |i: int| i)
    } else {
        Seq::new(s.sequence.len(), |i: int| s.sequence[i] as int)
    }
}

/// The picture stored as frame `i`, if it decodes.
pub open spec fn frame_picture(b: Seq<u8>, s: AniScan, i: int) -> Option<Raster> {
    if 0 <= i < s.icons.len() {
        match decoded_icon(b.subrange(s.icons[i].0, s.icons[i].1)) {
            Ok((r, _)) => Some(r),
            Err(_) => None,
        }
    } else {
        None
    }
}

/// How long step `step` is shown, in milliseconds: its rate, or the
/// default, in jiffies, held to 10-2000 ms.
pub open spec fn step_delay(s: AniScan, step: int) -> u32 {
    let j = if step < s.rates.len() { s.rates[step] as int } else { s.default_jiffies };
    let j1 = if j < 1 { 1 } else { j };
    let ms = j1 * 1000 / 60;
    (if ms < 10 {
        10
    } else if ms > 2000 {
        2000
    } else {
        ms
    }) as u32
}

/// The frames of the first `k` steps that decode, each with its delay.
pub open spec fn frames_upto(b: Seq<u8>, s: AniScan, k: int) -> Seq<(Raster, u32)>
    decreases k,
{
    if k <= 0 {
        Seq::empty()
    } else {
        let prev = frames_upto(b, s, k - 1);
        match frame_picture(b, s, play_order(s)[k - 1]) {
            Some(r) => prev.push((r, step_delay(s, k - 1))),
            None => prev,
        }
    }
}

/// How many steps are played: at most [`MAX_ANI_FRAMES`].
pub open spec fn played_steps(s: AniScan) -> int {
    let n = play_order(s).len() as int;
    if n < 240 { n } else { 240 }
}

proof fn lemma_every_step_shown(b: Seq<u8>, s: AniScan, order: Seq<int>, k: int)
    requires
        order == play_order(s),
        0 <= k <= order.len(),
        forall|j: int| 0 <= j < order.len() ==> (#[trigger] frame_picture(b, s, order[j])) is Some,
    ensures
        frames_upto(b, s, k).len() == k,
        forall|j: int|
            0 <= j < k ==> (#[trigger] frames_upto(b, s, k)[j]) == (frame_picture(b, s, order[j])->0, step_delay(s, j)),
    decreases k,
{
    if k > 0 {
        lemma_every_step_shown(b, s, order, k - 1);
        assert(frame_picture(b, s, order[k - 1]) is Some);
    }
}

/// An animated cursor plays in the order its `seq ` chunk gives: when the
/// file holds one and every frame it names decodes, reading the file gives
/// one picture per step, up to [`MAX_ANI_FRAMES`] steps, step `k` showing
/// the stored frame `seq[k]` for its own delay. A frame named twice is
/// shown twice, so a bounce plays as a bounce, not a jump back.
pub proof fn law_frames_follow_the_sequence(b: Seq<u8>)
    requires
        is_ani_header(b),
        ani_scan(b).sequence.len() > 0,
        forall|k: int|
            0 <= k < ani_scan(b).sequence.len() ==> frame_picture(b, ani_scan(b), #[trigger] ani_scan(b).sequence[k] as int)
                is Some,
    ensures
        ({
            let s = ani_scan(b);
            let steps = if s.sequence.len() < MAX_ANI_FRAMES { s.sequence.len() as int } else { MAX_ANI_FRAMES as int };
            &&& decoded_ani(b) is Ok
            &&& decoded_ani(b)->Ok_0.len() == steps
            &&& forall|k: int|
                0 <= k < steps ==> (#[trigger] decoded_ani(b)->Ok_0[k]).0 == frame_picture(b, s, s.sequence[k] as int)->0
                    && decoded_ani(b)->Ok_0[k].1 == step_delay(s, k)
        }),
{
    let s = ani_scan(b);
    let order = play_order(s);
    assert forall|j: int| 0 <= j < order.len() implies (#[trigger] frame_picture(b, s, order[j])) is Some by {
        assert(order[j] == s.sequence[j] as int);
    }
    let steps = played_steps(s);
    lemma_every_step_shown(b, s, order, steps);
    assert(frame_picture(b, s, order[0]) is Some);
    assert(s.icons.len() > 0);
    if steps > 0 {
        assert(frames_upto(b, s, steps).len() > 0);
    }
}

/// Without a `seq ` chunk, frames play in the order they are stored.
pub proof fn law_frames_follow_storage_without_a_sequence(b: Seq<u8>)
    requires
        is_ani_header(b),
        ani_scan(b).sequence.len() == 0,
        ani_scan(b).icons.len() > 0,
        forall|i: int| 0 <= i < ani_scan(b).icons.len() ==> (#[trigger] frame_picture(b, ani_scan(b), i)) is Some,
    ensures
        ({
            let s = ani_scan(b);
            let steps = if s.icons.len() < MAX_ANI_FRAMES { s.icons.len() as int } else { MAX_ANI_FRAMES as int };
            &&& decoded_ani(b) is Ok
            &&& decoded_ani(b)->Ok_0.len() == steps
            &&& forall|k: int|
                0 <= k < steps ==> (#[trigger] decoded_ani(b)->Ok_0[k]).0 == frame_picture(b, s, k)->0
                    && decoded_ani(b)->Ok_0[k].1 == step_delay(s, k)
        }),
{
    let s = ani_scan(b);
    let order = play_order(s);
    assert forall|j: int| 0 <= j < order.len() implies (#[trigger] frame_picture(b, s, order[j])) is Some by {
        assert(order[j] == j);
    }
    let steps = played_steps(s);
    lemma_every_step_shown(b, s, order, steps);
    assert(frames_upto(b, s, steps).len() > 0);
}

/// What reading an animated cursor gives.
pub open spec fn decoded_ani(b: Seq<u8>) -> Result<Seq<(Raster, u32)>, AppError> {
    if !is_ani_header(b) {
        Err(AppError::NotACursorFile)
    } else if ani_scan(b).icons.len() == 0 {
        Err(AppError::NoFrames)
    } else if frames_upto(b, ani_scan(b), played_steps(ani_scan(b))).len() == 0 {
        Err(AppError::UnreadableImage)
    } else {
        Ok(frames_upto(b, ani_scan(b), played_steps(ani_scan(b))))
    }
}

/// The words of `bytes[s..e]`, at most [`MAX_ANI_FRAMES`] of them.
fn read_words(bytes: &[u8], s: usize, e: usize) -> (out: Vec<u32>)
    requires
        s <= e <= bytes@.len(),
    ensures
        out@ == words_in(bytes@, s as int, e as int),
{
    let whole = (e - s) / 4;
    let n = if whole < MAX_ANI_FRAMES { whole } else { MAX_ANI_FRAMES };
    let mut out: Vec<u32> = Vec::new();
    let mut i: usize = 0;
    while i < n
        invariant
            s <= e <= bytes@.len(),
            n <= (e - s) / 4,
            n == words_in(bytes@, s as int, e as int).len(),
            i <= n,
            out@ == words_in(bytes@, s as int, e as int).take(i as int),
        decreases n - i,
    {
        let v = match u32_at(bytes, s + 4 * i) {
            Some(v) => v,
            None => 0,
        };
        out.push(v);
        assert(out@ =~= words_in(bytes@, s as int, e as int).take(i as int + 1));
        i = i + 1;
    }
    assert(out@ =~= words_in(bytes@, s as int, e as int));
    out
}

/// Byte ranges as integers.
pub open spec fn as_ranges(s: Seq<(usize, usize)>) -> Seq<(int, int)> {
    s.map_values(|p: (usize, usize)| (p.0 as int, p.1 as int))
}

/// Walks a `LIST fram` region collecting its `icon` chunks.
fn collect_icons(bytes: &[u8], end: usize, start: usize, out: &mut Vec<(usize, usize)>)
    requires
        end <= bytes@.len(),
        old(out)@.len() <= 240,
    ensures
        final(out)@.len() <= 240,
        as_ranges(final(out)@) == list_icons(
            bytes@,
            end as int,
            start as int,
            as_ranges(old(out)@),
        ),
{
    let ghost b = bytes@;
    let mut at: usize = start;
    let ghost acc0 = as_ranges(old(out)@);
    loop
        invariant
            b == bytes@,
            end <= b.len(),
            out@.len() <= 240,
            acc0 == as_ranges(old(out)@),
            list_icons(b, end as int, start as int, acc0) == list_icons(
                b,
                end as int,
                at as int,
                as_ranges(out@),
            ),
        decreases end - at,
    {
        let ghost acc = as_ranges(out@);
        if at > end || end - at < 8 || out.len() >= MAX_ANI_FRAMES {
            assert(list_icons(b, end as int, at as int, acc) == acc);
            return;
        }
        let size = match u32_at(bytes, at + 4) {
            Some(v) => v as usize,
            None => 0,
        };
        let body_at = at + 8;
        let body_end = if size < end - body_at { body_at + size } else { end };
        if bytes[at] == 0x69 && bytes[at + 1] == 0x63 && bytes[at + 2] == 0x6f && bytes[at + 3] == 0x6e
            && body_end > body_at {
            out.push((body_at, body_end));
        }
        assert(as_ranges(out@) =~= (if id_is(
            b,
            at as int,
            0x69,
            0x63,
            0x6f,
            0x6e,
        ) && body_end > body_at {
            acc.push((body_at as int, body_end as int))
        } else {
            acc
        }));
        let ghost acc2 = as_ranges(out@);
        assert(acc2.len() <= 240);
        if size == 0 || size > end - body_at || size % 2 > (end - body_at) - size {
            assert(list_icons(b, end as int, at as int, acc) == acc2);
            return;
        }
        at = body_at + size + size % 2;
    }
}

/// The scan, as held while it is gathered.
pub struct ScanState {
    pub icons: Vec<(usize, usize)>,
    pub rates: Vec<u32>,
    pub sequence: Vec<u32>,
    pub default_jiffies: u32,
}

impl ScanState {
    pub open spec fn model(&self) -> AniScan {
        AniScan {
            icons: as_ranges(self.icons@),
            rates: self.rates@,
            sequence: self.sequence@,
            default_jiffies: self.default_jiffies as int,
        }
    }
}

/// Every icon range the scan finds lies inside the buffer.
pub open spec fn ranges_inside(s: Seq<(usize, usize)>, len: int) -> bool {
    forall|i: int| 0 <= i < s.len() ==> range_within(#[trigger] s[i], len)
}

/// A byte range that starts before it ends and ends inside the buffer.
pub open spec fn range_within(p: (usize, usize), len: int) -> bool {
    p.0 <= p.1 && p.1 <= len
}

/// What one top-level chunk adds to the scan.
fn apply_chunk_in(bytes: &[u8], at: usize, body_at: usize, body_end: usize, st: &mut ScanState)
    requires
        at + 8 == body_at,
        body_at <= body_end <= bytes@.len(),
        old(st).icons@.len() <= 240,
        ranges_inside(old(st).icons@, bytes@.len() as int),
    ensures
        final(st).model() == apply_chunk(bytes@, at as int, body_at as int, body_end as int, old(st).model()),
        final(st).icons@.len() <= 240,
        ranges_inside(final(st).icons@, bytes@.len() as int),
{
    let ghost b = bytes@;
    let ghost before = st.model();
        if bytes[at] == 0x61 && bytes[at + 1] == 0x6e && bytes[at + 2] == 0x69 && bytes[at + 3] == 0x68 {
            if body_end - body_at >= 32 {
                let rate = match u32_at(bytes, body_at + 28) {
                    Some(v) => v,
                    None => 0,
                };
                if rate > 0 {
                    st.default_jiffies = rate;
                }
            }
        } else if bytes[at] == 0x72 && bytes[at + 1] == 0x61 && bytes[at + 2] == 0x74 && bytes[at + 3] == 0x65 {
            st.rates = read_words(bytes, body_at, body_end);
        } else if bytes[at] == 0x73 && bytes[at + 1] == 0x65 && bytes[at + 2] == 0x71 && bytes[at + 3] == 0x20 {
            st.sequence = read_words(bytes, body_at, body_end);
        } else if bytes[at] == 0x4c && bytes[at + 1] == 0x49 && bytes[at + 2] == 0x53 && bytes[at + 3] == 0x54
            && body_end - body_at >= 4 && bytes[body_at] == 0x66 && bytes[body_at + 1] == 0x72
            && bytes[body_at + 2] == 0x61 && bytes[body_at + 3] == 0x6d {
            let ghost old_icons = st.icons@;
            collect_icons(bytes, body_end, body_at + 4, &mut st.icons);
            proof {
                let li = list_icons(b, body_end as int, body_at as int + 4, as_ranges(old_icons));
                lemma_list_icons_inside(b, body_end as int, body_at as int + 4, as_ranges(old_icons));
                assert(as_ranges(st.icons@) == li);
                assert forall|i: int| 0 <= i < st.icons@.len() implies range_within(
                    #[trigger] st.icons@[i],
                    b.len() as int,
                ) by {
                    assert(as_ranges(st.icons@)[i] == (st.icons@[i].0 as int, st.icons@[i].1 as int));
                    assert(li[i] == as_ranges(st.icons@)[i]);
                    if i < old_icons.len() {
                        assert(as_ranges(old_icons)[i] == (old_icons[i].0 as int, old_icons[i].1 as int));
                        assert(range_within(old_icons[i], b.len() as int));
                    } else {
                        assert(li[i].0 <= li[i].1 <= body_end);
                    }
                }
            }
        }
}

/// Gathers what the chunks of an animated cursor say.
fn scan(bytes: &[u8]) -> (out: ScanState)
    requires
        is_ani_header(bytes@),
    ensures
        out.model() == ani_scan(bytes@),
        ranges_inside(out.icons@, bytes@.len() as int),
{
    let ghost b = bytes@;
    let declared: u64 = match u32_at(bytes, 4) {
        Some(v) => v as u64 + 8,
        None => 8,
    };
    let end: usize = if declared < bytes.len() as u64 { declared as usize } else { bytes.len() };
    assert(end == riff_end(b));
    let mut st = ScanState { icons: Vec::new(), rates: Vec::new(), sequence: Vec::new(), default_jiffies: DEFAULT_JIFFIES };
    assert(as_ranges(st.icons@) =~= Seq::<(int, int)>::empty());
    let mut at: usize = 12;
    loop
        invariant
            b == bytes@,
            end <= b.len(),
            st.icons@.len() <= 240,
            ranges_inside(st.icons@, b.len() as int),
            ani_scan(b) == scan_from(b, end as int, at as int, st.model()),
        decreases end - at,
    {
        if at > end || end - at < 8 {
            return st;
        }
        let size = match u32_at(bytes, at + 4) {
            Some(v) => v as usize,
            None => 0,
        };
        let body_at = at + 8;
        let body_end = if size < end - body_at { body_at + size } else { end };
        apply_chunk_in(bytes, at, body_at, body_end, &mut st);
        if size == 0 || size > end - body_at || size % 2 > (end - body_at) - size {
            return st;
        }
        at = body_at + size + size % 2;
    }
}

/// The icons a list walk adds lie inside the region walked.
proof fn lemma_list_icons_inside(b: Seq<u8>, end: int, at: int, acc: Seq<(int, int)>)
    ensures
        forall|i: int|
            acc.len() <= i < list_icons(b, end, at, acc).len() ==> (#[trigger] list_icons(b, end, at, acc)[i]).0
                <= list_icons(b, end, at, acc)[i].1 <= end,
        list_icons(b, end, at, acc).len() >= acc.len(),
        forall|i: int| 0 <= i < acc.len() ==> #[trigger] list_icons(b, end, at, acc)[i] == acc[i],
    decreases end - at,
{
    if !(at < 0 || at + 8 > end || acc.len() >= 240) {
        let size = u32_le(b, at + 4);
        let body_at = at + 8;
        let body_end = if body_at + size < end { body_at + size } else { end };
        let acc2 = if id_is(b, at, 0x69, 0x63, 0x6f, 0x6e) && body_end > body_at {
            acc.push((body_at, body_end))
        } else {
            acc
        };
        if !(size == 0 || next_chunk(body_at, size) > end) {
            lemma_list_icons_inside(b, end, next_chunk(body_at, size), acc2);
        }
    }
}

/// Frames as pictures and delays.
pub open spec fn frames_model(s: Seq<(Bitmap, u32)>) -> Seq<(Raster, u32)> {
    s.map_values(|p: (Bitmap, u32)| (p.0@, p.1))
}

/// Decodes every frame of an animated cursor, with the delay each one is
/// shown for, in playback order. A frame whose index is out of range, or
/// whose `.cur` does not decode, is skipped rather than refusing the rest.
///
/// Frames come back at the size each was stored at; frames of different
/// sizes are left for the caller to bring to one size.
pub fn decode_ani(bytes: &[u8]) -> (out: Result<Vec<(Bitmap, u32)>, AppError>)
    ensures
        match out {
            Ok(frames) => decoded_ani(bytes@) == Ok::<Seq<(Raster, u32)>, AppError>(frames_model(frames@))
                && forall|i: int| 0 <= i < frames@.len() ==> (#[trigger] frames@[i]).0@.wf(),
            Err(e) => decoded_ani(bytes@) == Err::<Seq<(Raster, u32)>, AppError>(e),
        },
{
    if !looks_like_an_ani(bytes) {
        return Err(AppError::NotACursorFile);
    }
    let ghost b = bytes@;
    let st = scan(bytes);
    let ghost sc = st.model();
    if st.icons.len() == 0 {
        return Err(AppError::NoFrames);
    }

    // Each stored frame is decoded once, then referenced by the sequence.
    let n = st.icons.len();
    let mut decoded: Vec<Option<Bitmap>> = Vec::new();
    let mut i: usize = 0;
    while i < n
        invariant
            b == bytes@,
            sc == st.model(),
            n == st.icons@.len(),
            ranges_inside(st.icons@, b.len() as int),
            i <= n,
            decoded@.len() == i,
            forall|j: int|
                0 <= j < i ==> match #[trigger] decoded@[j] {
                    Some(bm) => frame_picture(b, sc, j) == Some(bm@) && bm@.wf(),
                    None => frame_picture(b, sc, j) is None,
                },
        decreases n - i,
    {
        let (s0, e0) = st.icons[i];
        assert(range_within(st.icons@[i as int], b.len() as int));
        let data = &bytes[s0..e0];
        assert(sc.icons[i as int] == (s0 as int, e0 as int));
        assert(data@ =~= b.subrange(s0 as int, e0 as int));
        match decode_icon(data) {
            Ok(img) => decoded.push(Some(img.bitmap)),
            Err(_) => decoded.push(None),
        }
        i = i + 1;
    }

    let ghost order = play_order(sc);
    let use_sequence = st.sequence.len() > 0;
    let count = if use_sequence { st.sequence.len() } else { n };
    let steps = if count < MAX_ANI_FRAMES { count } else { MAX_ANI_FRAMES };
    assert(steps == played_steps(sc));
    let mut frames: Vec<(Bitmap, u32)> = Vec::new();
    let mut step: usize = 0;
    while step < steps
        invariant
            b == bytes@,
            sc == st.model(),
            order == play_order(sc),
            n == st.icons@.len(),
            decoded@.len() == n,
            forall|j: int|
                0 <= j < n ==> match #[trigger] decoded@[j] {
                    Some(bm) => frame_picture(b, sc, j) == Some(bm@) && bm@.wf(),
                    None => frame_picture(b, sc, j) is None,
                },
            use_sequence == (st.sequence@.len() > 0),
            steps == played_steps(sc),
            steps <= order.len(),
            step <= steps,
            frames_model(frames@) == frames_upto(b, sc, step as int),
            forall|i: int| 0 <= i < frames@.len() ==> (#[trigger] frames@[i]).0@.wf(),
        decreases steps - step,
    {
        let index: usize = if use_sequence { st.sequence[step] as usize } else { step };
        assert(index == order[step as int]);
        let ghost before = frames@;
        if index < n {
            match &decoded[index] {
                Some(bm) => {
                    let jiffies: u64 = if step < st.rates.len() {
                        st.rates[step] as u64
                    } else {
                        st.default_jiffies as u64
                    };
                    let j1 = if jiffies < 1 { 1 } else { jiffies };
                    let ms = j1 * 1000 / 60;
                    let delay: u32 = if ms < 10 {
                        10
                    } else if ms > 2000 {
                        2000
                    } else {
                        ms as u32
                    };
                    assert(delay == step_delay(sc, step as int));
                    frames.push((bm.duplicate(), delay));
                },
                None => {},
            }
        }
        assert(frames_model(frames@) =~= frames_upto(b, sc, step as int + 1));
        step = step + 1;
    }
    if frames.len() == 0 {
        return Err(AppError::UnreadableImage);
    }
    Ok(frames)
}

} // verus!

verus! {

/// Where the first stored frame of an animated cursor lies in its bytes, as
/// a start and an end offset; nothing when the bytes are not an animated
/// cursor or hold no frame. The frame is itself a whole `.cur` file, which
/// is where an animation keeps its hotspot.
pub fn first_frame(bytes: &[u8]) -> (out: Option<(usize, usize)>)
    ensures
        match out {
            Some(r) => is_ani_header(bytes@) && ani_scan(bytes@).icons.len() > 0 && ani_scan(bytes@).icons[0] == (
                r.0 as int,
                r.1 as int,
            ) && r.0 <= r.1 <= bytes@.len(),
            None => !is_ani_header(bytes@) || ani_scan(bytes@).icons.len() == 0,
        },
{
    if !looks_like_an_ani(bytes) {
        return None;
    }
    let st = scan(bytes);
    if st.icons.len() == 0 {
        return None;
    }
    let r = st.icons[0];
    assert(st.model().icons[0] == (r.0 as int, r.1 as int));
    Some(r)
}

/// The size every frame of an animation is brought to: the largest width and
/// the largest height among them, or 1 by 1 for no frames at all.
pub open spec fn common_size_of(frames: Seq<(Bitmap, u32)>) -> (int, int)
    decreases frames.len(),
{
    if frames.len() == 0 {
        (1, 1)
    } else {
        let prev = common_size_of(frames.drop_last());
        let b = frames.last().0;
        if frames.len() == 1 {
            (b.width as int, b.height as int)
        } else {
            (
                if b.width as int > prev.0 { b.width as int } else { prev.0 },
                if b.height as int > prev.1 { b.height as int } else { prev.1 },
            )
        }
    }
}

/// The size frames of different sizes are brought to, so that they stay
/// registered with each other: the largest width and the largest height.
/// The resampling itself is floating point and is done by the caller.
pub fn common_size(frames: &Vec<(Bitmap, u32)>) -> (out: (u32, u32))
    ensures
        (out.0 as int, out.1 as int) == common_size_of(frames@),
{
    let n = frames.len();
    if n == 0 {
        return (1, 1);
    }
    let mut w = frames[0].0.width;
    let mut h = frames[0].0.height;
    let mut i: usize = 1;
    proof {
        assert(frames@.take(1).drop_last() =~= Seq::<(Bitmap, u32)>::empty());
        assert(common_size_of(frames@.take(1)) == (w as int, h as int));
    }
    while i < n
        invariant
            n == frames@.len(),
            1 <= i <= n,
            (w as int, h as int) == common_size_of(frames@.take(i as int)),
        decreases n - i,
    {
        let b = &frames[i].0;
        proof {
            assert(frames@.take(i as int + 1).drop_last() =~= frames@.take(i as int));
        }
        if b.width > w {
            w = b.width;
        }
        if b.height > h {
            h = b.height;
        }
        i = i + 1;
    }
    assert(frames@.take(n as int) =~= frames@);
    (w, h)
}

} // verus!
