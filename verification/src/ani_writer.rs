//! A `.ani` writer: a RIFF `ACON` container.
//!
//! Each frame inside an `.ani` is a complete `.cur` file, so the frames are
//! built with the same `write_cur` used for static cursors.
//!
//! ```text
//! RIFF <size> ACON
//!   anih <36>        header: step count, frame count, default rate, flags
//!   rate <4*steps>   per-step delay, in jiffies       (optional)
//!   seq  <4*steps>   playback order                   (optional)
//!   LIST <size> INFO INAM/IART                        (optional)
//!   LIST <size> fram
//!     icon <size> <a whole .cur file>  x N
//! ```

use vstd::prelude::*;
use crate::cur_writer::{CursorImage, write_cur, le32, by_width, cur_file, permuted, all_valid, dibs_total, push_le32};
use crate::error::AppError;
use crate::text::push_char;

verus! {

/// Jiffies are sixtieths of a second, the unit the `.ani` format counts in.
pub const JIFFIES_PER_SECOND: u32 = 60;

/// Beyond roughly 60 frames the shell's own animation cost becomes visible.
pub const MAX_FRAMES: usize = 60;

/// Four seconds keeps files small and loops readable.
pub const MAX_DURATION_MS: u32 = 4000;

/// The longest text an info chunk carries, in characters.
pub const MAX_INFO_CHARS: usize = 120;

/// One animation frame: a full set of resolutions, plus how long it is shown.
#[derive(Debug)]
pub struct AniFrame {
    pub images: Vec<CursorImage>,
    pub delay_ms: u32,
}

/// Optional text written into the file's `INFO` list.
#[derive(Debug)]
pub struct AniMetadata {
    pub name: Option<String>,
    pub author: Option<String>,
}

impl Default for AniMetadata {
    fn default() -> (out: Self)
        ensures
            out.name is None,
            out.author is None,
    {
        AniMetadata { name: None, author: None }
    }
}

/// Milliseconds in jiffies, rounded, and held to the 1-100 range Windows
/// honours.
pub open spec fn jiffies(ms: int) -> int {
    let j = (ms * 60 + 500) / 1000;
    if j < 1 {
        1
    } else if j > 100 {
        100
    } else {
        j
    }
}

/// Milliseconds to jiffies, clamped to the range Windows will actually honour.
/// A zero-jiffy frame makes the shell spin; a huge one stalls the pointer.
pub fn ms_to_jiffies(delay_ms: u32) -> (j: u32)
    ensures
        j == jiffies(delay_ms as int),
        1 <= j <= 100,
{
    let raw = ((delay_ms as u64) * 60 + 500) / 1000;
    if raw < 1 {
        1
    } else if raw > 100 {
        100
    } else {
        raw as u32
    }
}

/// A four-character chunk identifier.
pub open spec fn tag(a: u8, b: u8, c: u8, d: u8) -> Seq<u8> {
    seq![a, b, c, d]
}

/// A RIFF chunk: identifier, little-endian size, payload, and a pad byte
/// after an odd payload that the size does not count.
pub open spec fn riff_chunk(id: Seq<u8>, payload: Seq<u8>) -> Seq<u8> {
    id + le32(payload.len() as int) + payload + if payload.len() % 2 == 1 {
        seq![0u8]
    } else {
        Seq::empty()
    }
}

/// Appends one RIFF chunk.
pub fn chunk(id: [u8; 4], payload: &[u8], out: &mut Vec<u8>)
    requires
        payload@.len() <= u32::MAX,
    ensures
        final(out)@ == old(out)@ + riff_chunk(id@, payload@),
{
    let ghost start = out@;
    out.push(id[0]);
    out.push(id[1]);
    out.push(id[2]);
    out.push(id[3]);
    let n = payload.len() as u32;
    out.push((n % 256) as u8);
    out.push(((n / 256) % 256) as u8);
    out.push(((n / 65536) % 256) as u8);
    out.push(((n / 16777216) % 256) as u8);
    let ghost head = out@;
    assert(head =~= start + id@ + le32(payload@.len() as int));
    let mut i: usize = 0;
    while i < payload.len()
        invariant
            i <= payload@.len(),
            out@ == head + payload@.take(i as int),
        decreases payload@.len() - i,
    {
        out.push(payload[i]);
        assert(payload@.take(i as int + 1) =~= payload@.take(i as int).push(payload@[i as int]));
        i = i + 1;
    }
    assert(payload@.take(payload@.len() as int) =~= payload@);
    // RIFF chunks are word-aligned; the pad byte is not counted in the size.
    if payload.len() % 2 == 1 {
        out.push(0);
    }
    assert(out@ =~= start + riff_chunk(id@, payload@));
}

/// The total of a run of delays.
pub open spec fn delay_sum(d: Seq<u32>) -> int
    decreases d.len(),
{
    if d.len() == 0 {
        0
    } else {
        delay_sum(d.drop_last()) + d.last()
    }
}

/// `n` frames survive the caps: at most [`MAX_FRAMES`], and frames are
/// dropped from the end once the running total would pass
/// [`MAX_DURATION_MS`]. The first frame is always kept.
pub open spec fn caps_keep(d: Seq<u32>, n: int) -> bool {
    let limit = if d.len() < 60 { d.len() as int } else { 60 };
    &&& d.len() == 0 ==> n == 0
    &&& d.len() > 0 ==> {
        &&& 1 <= n <= limit
        &&& n == 1 || delay_sum(d.take(n)) <= 4000
        &&& n < limit ==> delay_sum(d.take(n + 1)) > 4000
    }
}

/// How many frames the caps keep, dropping from the end rather than
/// resampling: a truncated loop still plays; a resampled one changes the
/// artwork's timing. The delays are the ones the frames will be shown for.
pub fn enforce_caps(delays: &[u32]) -> (n: usize)
    ensures
        caps_keep(delays@, n as int),
{
    let limit = if delays.len() < MAX_FRAMES { delays.len() } else { MAX_FRAMES };
    let mut total: u64 = 0;
    let mut n: usize = 0;
    while n < limit
        invariant
            limit == (if delays@.len() < 60 { delays@.len() as int } else { 60 }),
            n <= limit,
            total == delay_sum(delays@.take(n as int)),
            n <= 1 || total <= 4000,
            total <= 0xffff_ffff,
        decreases limit - n,
    {
        assert(delays@.take(n as int + 1).drop_last() =~= delays@.take(n as int));
        let next = total + delays[n] as u64;
        if next > MAX_DURATION_MS as u64 && n > 0 {
            return n;
        }
        total = next;
        n = n + 1;
    }
    n
}

/// Unicode general category Cc: the C0 and C1 control codes.
pub open spec fn is_control(c: char) -> bool {
    (c as u32) < 0x20 || (0x7f <= (c as u32) && (c as u32) < 0xa0)
}

fn char_is_control(c: char) -> (out: bool)
    ensures
        out == is_control(c),
{
    let v = c as u32;
    v < 0x20 || (0x7f <= v && v < 0xa0)
}

/// The characters of `s` that are not control codes, in order.
pub open spec fn visible(s: Seq<char>) -> Seq<char>
    decreases s.len(),
{
    if s.len() == 0 {
        Seq::empty()
    } else {
        visible(s.drop_last()) + if is_control(s.last()) {
            Seq::<char>::empty()
        } else {
            seq![s.last()]
        }
    }
}

/// At most the first `n` characters.
pub open spec fn at_most(s: Seq<char>, n: int) -> Seq<char> {
    if s.len() <= n { s } else { s.take(n) }
}

/// Text as an info chunk carries it: control codes stripped, at most
/// [`MAX_INFO_CHARS`] characters, UTF-8, NUL-terminated.
pub open spec fn inert_text(s: Seq<char>) -> Seq<u8> {
    vstd::utf8::encode_utf8(at_most(visible(s), 120)) + seq![0u8]
}

/// Info chunks are NUL-terminated text, and anything a user or an imported
/// pack supplied is treated as inert data: control characters are stripped
/// and the length is capped.
pub fn nul_terminated(text: &str) -> (out: Vec<u8>)
    ensures
        out@ == inert_text(text@),
{
    let ghost all = text@;
    let mut cleaned = String::new();
    let mut kept: usize = 0;
    assert(all.take(0) =~= Seq::<char>::empty());
    assert(visible(Seq::<char>::empty()) =~= Seq::<char>::empty());
    assert(cleaned@ =~= at_most(visible(all.take(0)), 120));
    for c in it: text.chars()
        invariant
            it.seq() == all,
            cleaned@ == at_most(visible(all.take(it.index() as int)), 120),
            kept == cleaned@.len(),
            kept <= 120,
    {
        let ghost k = it.index() as int;
        let ghost v = visible(all.take(k));
        assert(c == all[k]);
        assert(all.take(k + 1).drop_last() =~= all.take(k));
        assert(all.take(k + 1).last() == c);
        let ghost x = if is_control(c) { Seq::<char>::empty() } else { seq![c] };
        assert(visible(all.take(k + 1)) == v + x);
        if kept < MAX_INFO_CHARS && !char_is_control(c) {
            push_char(&mut cleaned, c);
            kept = kept + 1;
        }
        proof {
            if v.len() >= 120 {
                assert(at_most(v + x, 120) =~= at_most(v, 120));
            }
        }
        assert(cleaned@ =~= at_most(visible(all.take(k + 1)), 120));
    }
    assert(all.take(all.len() as int) =~= all);
    let bytes = cleaned.as_str().as_bytes();
    let mut out: Vec<u8> = Vec::new();
    let mut i: usize = 0;
    while i < bytes.len()
        invariant
            i <= bytes@.len(),
            out@ == bytes@.take(i as int),
        decreases bytes@.len() - i,
    {
        out.push(bytes[i]);
        assert(bytes@.take(i as int + 1) =~= bytes@.take(i as int).push(bytes@[i as int]));
        i = i + 1;
    }
    assert(bytes@.take(bytes@.len() as int) =~= bytes@);
    out.push(0);
    assert(out@ =~= inert_text(all));
    out
}

/// Little-endian 32-bit words, one after another.
pub open spec fn words(ws: Seq<u32>) -> Seq<u8>
    decreases ws.len(),
{
    if ws.len() == 0 {
        Seq::empty()
    } else {
        words(ws.drop_last()) + le32(ws.last() as int)
    }
}

/// The delay of every frame, in order.
pub open spec fn delays_of(frames: Seq<AniFrame>) -> Seq<u32> {
    Seq::new(frames.len(), |i: int| frames[i].delay_ms)
}

/// The rate of each of the first `n` frames, in jiffies.
pub open spec fn frame_rates(frames: Seq<AniFrame>, n: int) -> Seq<u32> {
    Seq::new(n as nat, |i: int| jiffies(frames[i].delay_ms as int) as u32)
}

/// Every frame is shown for as long as the first.
pub open spec fn uniform(rates: Seq<u32>) -> bool {
    forall|i: int| 0 <= i < rates.len() ==> #[trigger] rates[i] == rates[0]
}

/// The `anih` payload: size, step and frame counts, four zero fields (the
/// frames are icon data that describe themselves), the default rate, and the
/// flags: icon frames, plus "sequenced" when the rates differ.
pub open spec fn anih_payload(n: int, rates: Seq<u32>) -> Seq<u8> {
    le32(36) + le32(n) + le32(n) + le32(0) + le32(0) + le32(0) + le32(0) + le32(rates[0] as int) + le32(
        if uniform(rates) { 1 } else { 3 },
    )
}

/// The playback order `0, 1, ..., n - 1`.
pub open spec fn steps(n: int) -> Seq<u32> {
    Seq::new(n as nat, |i: int| i as u32)
}

/// The optional `LIST INFO` chunk.
pub open spec fn info_list(name: Option<String>, author: Option<String>) -> Seq<u8> {
    if name is None && author is None {
        Seq::empty()
    } else {
        let name_part = match name {
            Some(t) => riff_chunk(tag(0x49, 0x4e, 0x41, 0x4d), inert_text(t@)),
            None => Seq::empty(),
        };
        let author_part = match author {
            Some(t) => riff_chunk(tag(0x49, 0x41, 0x52, 0x54), inert_text(t@)),
            None => Seq::empty(),
        };
        riff_chunk(tag(0x4c, 0x49, 0x53, 0x54), tag(0x49, 0x4e, 0x46, 0x4f) + name_part + author_part)
    }
}

/// One `icon` chunk per frame.
pub open spec fn icon_chunks(curs: Seq<Seq<u8>>) -> Seq<u8>
    decreases curs.len(),
{
    if curs.len() == 0 {
        Seq::empty()
    } else {
        icon_chunks(curs.drop_last()) + riff_chunk(tag(0x69, 0x63, 0x6f, 0x6e), curs.last())
    }
}

/// Everything after `RIFF <size>`.
pub open spec fn ani_body(curs: Seq<Seq<u8>>, rates: Seq<u32>, name: Option<String>, author: Option<String>) -> Seq<u8> {
    tag(0x41, 0x43, 0x4f, 0x4e) + riff_chunk(tag(0x61, 0x6e, 0x69, 0x68), anih_payload(curs.len() as int, rates))
        + (if uniform(rates) {
        Seq::empty()
    } else {
        riff_chunk(tag(0x72, 0x61, 0x74, 0x65), words(rates)) + riff_chunk(
            tag(0x73, 0x65, 0x71, 0x20),
            words(steps(curs.len() as int)),
        )
    }) + info_list(name, author) + riff_chunk(
        tag(0x4c, 0x49, 0x53, 0x54),
        tag(0x66, 0x72, 0x61, 0x6d) + icon_chunks(curs),
    )
}

/// A whole `.ani` file.
pub open spec fn ani_file(curs: Seq<Seq<u8>>, rates: Seq<u32>, name: Option<String>, author: Option<String>) -> Seq<u8> {
    let body = ani_body(curs, rates, name, author);
    tag(0x52, 0x49, 0x46, 0x46) + le32(body.len() as int) + body
}

/// `cur` is a `.cur` file `write_cur` writes for `images`.
pub open spec fn cur_written(images: Seq<CursorImage>, cur: Seq<u8>) -> bool {
    &&& 1 <= images.len() <= 65535
    &&& all_valid(images)
    &&& cur.len() == 6 + 16 * images.len() + dibs_total(images)
    &&& exists|order: Seq<usize>| by_width(images, order) && cur == cur_file(permuted(images, order))
}

/// Why `write_cur` refuses a set of images, if it does.
pub open spec fn cur_refusal(images: Seq<CursorImage>) -> Option<AppError> {
    if images.len() == 0 {
        Some(AppError::NoImages)
    } else if images.len() > 65535 {
        Some(AppError::TooManyImages)
    } else if !all_valid(images) {
        Some(AppError::CursorImageSize)
    } else {
        None
    }
}

/// The size of the frames' `.cur` files and chunk headers, over the first `k`.
pub open spec fn frames_budget(frames: Seq<AniFrame>, k: int) -> int
    decreases k,
{
    if k <= 0 {
        0
    } else {
        frames_budget(frames, k - 1) + 15 + 16 * frames[k - 1].images@.len() + dibs_total(frames[k - 1].images@)
    }
}

/// What `write_cur` needs of every frame.
pub open spec fn frame_ready(frame: AniFrame) -> bool {
    &&& forall|j: int| 0 <= j < frame.images@.len() ==> (#[trigger] frame.images@[j]).bitmap@.wf()
    &&& all_valid(frame.images@) && frame.images@.len() <= 65535 ==> 6 + 16 * frame.images@.len()
        + dibs_total(frame.images@) <= u32::MAX
}

/// The frames the caps can keep.
pub open spec fn cappable(frames: Seq<AniFrame>) -> int {
    if frames.len() < 60 { frames.len() as int } else { 60 }
}

/// A run of words is four bytes a word.
proof fn lemma_words_len(ws: Seq<u32>)
    ensures
        words(ws).len() == 4 * ws.len(),
    decreases ws.len(),
{
    if ws.len() > 0 {
        lemma_words_len(ws.drop_last());
    }
}

/// UTF-8 spends at most four bytes a character.
proof fn lemma_encode_len(cs: Seq<char>)
    ensures
        vstd::utf8::encode_utf8(cs).len() <= 4 * cs.len(),
    decreases cs.len(),
{
    if cs.len() > 0 {
        lemma_encode_len(cs.drop_first());
    }
}

/// Info text is at most 481 bytes.
proof fn lemma_inert_len(s: Seq<char>)
    ensures
        inert_text(s).len() <= 481,
{
    lemma_encode_len(at_most(visible(s), 120));
}

/// A run of encoded images never has a negative size.
proof fn lemma_dibs_total_nonneg(s: Seq<CursorImage>)
    ensures
        dibs_total(s) >= 0,
    decreases s.len(),
{
    if s.len() > 0 {
        lemma_dibs_total_nonneg(s.drop_last());
        let b = s.last().bitmap;
        let stride = crate::cur_writer::mask_stride(b.width as int);
        assert((b.width as int) * (b.height as int) * 4 + stride * (b.height as int) >= 0) by (nonlinear_arith)
            requires
                b.width >= 0,
                b.height >= 0,
                stride >= 0,
        ;
    }
}

/// The budget grows with the number of frames counted.
proof fn lemma_budget_mono(frames: Seq<AniFrame>, a: int, b: int)
    requires
        0 <= a <= b <= frames.len(),
    ensures
        0 <= frames_budget(frames, a) <= frames_budget(frames, b),
    decreases b,
{
    if b > 0 {
        lemma_dibs_total_nonneg(frames[b - 1].images@);
        if a < b {
            lemma_budget_mono(frames, a, b - 1);
        } else {
            lemma_budget_mono(frames, b - 1, b - 1);
        }
    }
}

/// A chunk is its eight header bytes, its payload and a possible pad byte.
proof fn lemma_chunk_len(id: Seq<u8>, p: Seq<u8>)
    requires
        id.len() == 4,
    ensures
        riff_chunk(id, p).len() == 8 + p.len() + p.len() % 2,
{
}

/// The `icon` chunks of the first `i` frames fit their share of the budget.
proof fn lemma_icon_chunks_len(frames: Seq<AniFrame>, curs: Seq<Seq<u8>>, i: int)
    requires
        0 <= i <= curs.len(),
        curs.len() <= frames.len(),
        forall|j: int| 0 <= j < curs.len() ==> cur_written(frames[j].images@, #[trigger] curs[j]),
    ensures
        icon_chunks(curs.take(i)).len() <= frames_budget(frames, i),
    decreases i,
{
    if i > 0 {
        lemma_icon_chunks_len(frames, curs, i - 1);
        assert(curs.take(i).drop_last() =~= curs.take(i - 1));
        assert(cur_written(frames[i - 1].images@, curs[i - 1]));
        lemma_chunk_len(tag(0x69, 0x63, 0x6f, 0x6e), curs[i - 1]);
    }
}

/// The delay of every frame.
fn frame_delays(frames: &[AniFrame]) -> (delays: Vec<u32>)
    ensures
        delays@ == delays_of(frames@),
{
    let len = frames.len();
    let mut delays: Vec<u32> = Vec::new();
    let mut i: usize = 0;
    while i < len
        invariant
            len == frames@.len(),
            i <= len,
            delays@ == delays_of(frames@).take(i as int),
        decreases len - i,
    {
        delays.push(frames[i].delay_ms);
        assert(delays@ =~= delays_of(frames@).take(i as int + 1));
        i = i + 1;
    }
    assert(delays@ =~= delays_of(frames@));
    delays
}

/// Each of the first `n` frames as a standalone `.cur`, or the refusal of
/// the first that is not one.
fn encode_frames(frames: &[AniFrame], n: usize) -> (out: Result<Vec<Vec<u8>>, AppError>)
    requires
        n <= frames@.len(),
        forall|k: int| 0 <= k < n ==> frame_ready(#[trigger] frames@[k]),
    ensures
        match out {
            Ok(encoded) => encoded@.len() == n && forall|j: int|
                0 <= j < n ==> cur_written(frames@[j].images@, (#[trigger] encoded@[j])@),
            Err(e) => exists|i: int|
                {
                    &&& 0 <= i < n
                    &&& forall|j: int| 0 <= j < i ==> #[trigger] cur_refusal(frames@[j].images@) is None
                    &&& cur_refusal(frames@[i].images@) == Some(e)
                },
        },
{
    let mut encoded: Vec<Vec<u8>> = Vec::new();
    let mut i: usize = 0;
    while i < n
        invariant
            n <= frames@.len(),
            forall|k: int| 0 <= k < n ==> frame_ready(#[trigger] frames@[k]),
            i <= n,
            encoded@.len() == i,
            forall|j: int| 0 <= j < i ==> cur_written(frames@[j].images@, (#[trigger] encoded@[j])@),
            forall|j: int| 0 <= j < i ==> #[trigger] cur_refusal(frames@[j].images@) is None,
        decreases n - i,
    {
        let frame = &frames[i];
        assert(frame_ready(frames@[i as int]));
        match write_cur(frame.images.as_slice()) {
            Ok(cur) => {
                encoded.push(cur);
            },
            Err(e) => {
                assert(cur_refusal(frames@[i as int].images@) == Some(e));
                return Err(e);
            },
        }
        i = i + 1;
    }
    Ok(encoded)
}

/// The rates of the first `n` frames, and whether they are all the same.
fn rates_of(frames: &[AniFrame], n: usize) -> (out: (Vec<u32>, bool))
    requires
        1 <= n <= frames@.len(),
    ensures
        out.0@ == frame_rates(frames@, n as int),
        out.1 == uniform(out.0@),
{
    let mut rates: Vec<u32> = Vec::new();
    let mut i: usize = 0;
    while i < n
        invariant
            n <= frames@.len(),
            i <= n,
            rates@ == frame_rates(frames@, n as int).take(i as int),
        decreases n - i,
    {
        rates.push(ms_to_jiffies(frames[i].delay_ms));
        assert(rates@ =~= frame_rates(frames@, n as int).take(i as int + 1));
        i = i + 1;
    }
    assert(rates@ =~= frame_rates(frames@, n as int));
    let ghost r = rates@;
    let mut even = true;
    let mut i: usize = 0;
    while i < n
        invariant
            r == rates@,
            r.len() == n,
            n >= 1,
            i <= n,
            even == forall|j: int| 0 <= j < i ==> #[trigger] r[j] == r[0],
        decreases n - i,
    {
        if rates[i] != rates[0] {
            even = false;
        }
        i = i + 1;
    }
    (rates, even)
}

/// Appends the `anih` chunk and, for uneven timing, the `rate` and `seq `
/// chunks.
fn timing_chunks(rates: &Vec<u32>, even: bool, body: &mut Vec<u8>)
    requires
        1 <= rates@.len() <= 60,
        even == uniform(rates@),
    ensures
        final(body)@ == old(body)@ + riff_chunk(
            tag(0x61, 0x6e, 0x69, 0x68),
            anih_payload(rates@.len() as int, rates@),
        ) + (if uniform(rates@) {
            Seq::empty()
        } else {
            riff_chunk(tag(0x72, 0x61, 0x74, 0x65), words(rates@)) + riff_chunk(
                tag(0x73, 0x65, 0x71, 0x20),
                words(steps(rates@.len() as int)),
            )
        }),
        final(body)@.len() <= old(body)@.len() + 600,
{
    let n = rates.len();
    let ghost r = rates@;
    let ghost start = body@;
    let mut anih: Vec<u8> = Vec::new();
    push_le32(&mut anih, 36);
    push_le32(&mut anih, n as u32);
    push_le32(&mut anih, n as u32);
    push_le32(&mut anih, 0);
    push_le32(&mut anih, 0);
    push_le32(&mut anih, 0);
    push_le32(&mut anih, 0);
    push_le32(&mut anih, rates[0]);
    push_le32(&mut anih, if even { 1 } else { 3 });
    assert(anih@ =~= anih_payload(n as int, r));
    chunk([0x61, 0x6e, 0x69, 0x68], anih.as_slice(), body);
    let ghost after_anih = body@;
    assert(after_anih =~= start + riff_chunk(tag(0x61, 0x6e, 0x69, 0x68), anih_payload(n as int, r)));
    if !even {
        let mut rate_payload: Vec<u8> = Vec::new();
        let mut seq_payload: Vec<u8> = Vec::new();
        let mut i: usize = 0;
        while i < n
            invariant
                r == rates@,
                r.len() == n,
                n <= 60,
                i <= n,
                rate_payload@ == words(r.take(i as int)),
                seq_payload@ == words(steps(n as int).take(i as int)),
            decreases n - i,
        {
            assert(r.take(i as int + 1).drop_last() =~= r.take(i as int));
            assert(steps(n as int).take(i as int + 1).drop_last() =~= steps(n as int).take(i as int));
            push_le32(&mut rate_payload, rates[i]);
            push_le32(&mut seq_payload, i as u32);
            i = i + 1;
        }
        assert(r.take(n as int) =~= r);
        assert(steps(n as int).take(n as int) =~= steps(n as int));
        proof {
            lemma_words_len(r);
            lemma_words_len(steps(n as int));
        }
        chunk([0x72, 0x61, 0x74, 0x65], rate_payload.as_slice(), body);
        chunk([0x73, 0x65, 0x71, 0x20], seq_payload.as_slice(), body);
    }
    assert(body@ =~= start + riff_chunk(tag(0x61, 0x6e, 0x69, 0x68), anih_payload(n as int, r)) + (
    if uniform(r) {
        Seq::empty()
    } else {
        riff_chunk(tag(0x72, 0x61, 0x74, 0x65), words(r)) + riff_chunk(
            tag(0x73, 0x65, 0x71, 0x20),
            words(steps(n as int)),
        )
    }));
}

/// Appends the `LIST INFO` chunk, when there is any text for it.
fn info_chunk(metadata: &AniMetadata, body: &mut Vec<u8>)
    ensures
        final(body)@ == old(body)@ + info_list(metadata.name, metadata.author),
        final(body)@.len() <= old(body)@.len() + 1000,
{
    if metadata.name.is_some() || metadata.author.is_some() {
        let mut info: Vec<u8> = Vec::new();
        info.push(0x49);
        info.push(0x4e);
        info.push(0x46);
        info.push(0x4f);
        match &metadata.name {
            Some(name) => {
                let text = nul_terminated(name.as_str());
                proof {
                    lemma_inert_len(name@);
                }
                chunk([0x49, 0x4e, 0x41, 0x4d], text.as_slice(), &mut info);
            },
            None => {},
        }
        match &metadata.author {
            Some(author) => {
                let text = nul_terminated(author.as_str());
                proof {
                    lemma_inert_len(author@);
                }
                chunk([0x49, 0x41, 0x52, 0x54], text.as_slice(), &mut info);
            },
            None => {},
        }
        let ghost start = body@;
        chunk([0x4c, 0x49, 0x53, 0x54], info.as_slice(), body);
        assert(body@ =~= start + info_list(metadata.name, metadata.author));
    } else {
        assert(info_list(metadata.name, metadata.author) =~= Seq::<u8>::empty());
        assert(body@ =~= old(body)@ + info_list(metadata.name, metadata.author));
    }
}

/// Appends the `LIST fram` chunk holding one `icon` chunk per frame.
fn fram_chunk(encoded: &Vec<Vec<u8>>, curs: Ghost<Seq<Seq<u8>>>, bound: Ghost<int>, body: &mut Vec<u8>)
    requires
        curs@.len() == encoded@.len(),
        forall|j: int| 0 <= j < curs@.len() ==> #[trigger] curs@[j] == encoded@[j]@,
        icon_chunks(curs@).len() <= bound@,
        bound@ + 3000 <= u32::MAX,
        forall|k: int| 0 <= k <= curs@.len() ==> icon_chunks(#[trigger] curs@.take(k)).len() <= icon_chunks(curs@).len(),
    ensures
        final(body)@ == old(body)@ + riff_chunk(
            tag(0x4c, 0x49, 0x53, 0x54),
            tag(0x66, 0x72, 0x61, 0x6d) + icon_chunks(curs@),
        ),
        final(body)@.len() <= old(body)@.len() + 13 + bound@,
{
    let n = encoded.len();
    let mut fram: Vec<u8> = Vec::new();
    fram.push(0x66);
    fram.push(0x72);
    fram.push(0x61);
    fram.push(0x6d);
    let ghost c = curs@;
    assert(c.take(0) =~= Seq::<Seq<u8>>::empty());
    let mut i: usize = 0;
    while i < n
        invariant
            c == curs@,
            c.len() == n,
            n == encoded@.len(),
            forall|j: int| 0 <= j < n ==> #[trigger] c[j] == encoded@[j]@,
            i <= n,
            fram@ == tag(0x66, 0x72, 0x61, 0x6d) + icon_chunks(c.take(i as int)),
            icon_chunks(c).len() <= bound@,
            bound@ + 3000 <= u32::MAX,
            forall|k: int| 0 <= k <= n ==> icon_chunks(#[trigger] c.take(k)).len() <= icon_chunks(c).len(),
        decreases n - i,
    {
        assert(c.take(i as int + 1).drop_last() =~= c.take(i as int));
        assert(c.take(i as int + 1).last() == c[i as int]);
        assert(icon_chunks(c.take(i as int + 1)).len() <= bound@);
        let ghost before = fram@;
        chunk([0x69, 0x63, 0x6f, 0x6e], encoded[i].as_slice(), &mut fram);
        assert(fram@ =~= tag(0x66, 0x72, 0x61, 0x6d) + icon_chunks(c.take(i as int + 1)));
        i = i + 1;
    }
    assert(c.take(n as int) =~= c);
    chunk([0x4c, 0x49, 0x53, 0x54], fram.as_slice(), body);
}

/// The `icon` chunks of a prefix are no longer than those of the whole.
proof fn lemma_icon_chunks_prefix(curs: Seq<Seq<u8>>, k: int)
    requires
        0 <= k <= curs.len(),
    ensures
        icon_chunks(curs.take(k)).len() <= icon_chunks(curs).len(),
    decreases curs.len(),
{
    if k < curs.len() {
        lemma_icon_chunks_prefix(curs.drop_last(), k);
        assert(curs.drop_last().take(k) =~= curs.take(k));
    } else {
        assert(curs.take(k) =~= curs);
    }
}

/// Writes a complete `.ani` file. The frames' delays are the ones they will
/// be shown for; the caps keep the first of them that fit.
#[verifier::spinoff_prover]
#[verifier::rlimit(100)]
pub fn write_ani(frames: &[AniFrame], metadata: &AniMetadata) -> (out: Result<Vec<u8>, AppError>)
    requires
        forall|i: int| 0 <= i < cappable(frames@) ==> frame_ready(#[trigger] frames@[i]),
        frames_budget(frames@, cappable(frames@)) + 3000 <= u32::MAX,
    ensures
        match out {
            Ok(bytes) => frames@.len() >= 1 && exists|n: int, curs: Seq<Seq<u8>>|
                {
                    &&& caps_keep(delays_of(frames@), n)
                    &&& curs.len() == n
                    &&& forall|i: int| 0 <= i < n ==> cur_written(frames@[i].images@, #[trigger] curs[i])
                    &&& bytes@ == ani_file(curs, frame_rates(frames@, n), metadata.name, metadata.author)
                    &&& ani_body(curs, frame_rates(frames@, n), metadata.name, metadata.author).len() <= u32::MAX
                },
            Err(e) => (frames@.len() == 0 && e == AppError::NoFrames) || exists|n: int, i: int|
                {
                    &&& caps_keep(delays_of(frames@), n)
                    &&& 0 <= i < n
                    &&& forall|j: int| 0 <= j < i ==> #[trigger] cur_refusal(frames@[j].images@) is None
                    &&& cur_refusal(frames@[i].images@) == Some(e)
                },
        },
{
    if frames.len() == 0 {
        return Err(AppError::NoFrames);
    }
    let delays = frame_delays(frames);
    let n = enforce_caps(delays.as_slice());
    assert(1 <= n <= cappable(frames@));
    let encoded = match encode_frames(frames, n) {
        Ok(encoded) => encoded,
        Err(e) => return Err(e),
    };
    let ghost curs = Seq::new(n as nat, |j: int| encoded@[j]@);
    assert(forall|j: int| 0 <= j < n ==> cur_written(frames@[j].images@, #[trigger] curs[j]));
    let (rates, even) = rates_of(frames, n);

    let mut body: Vec<u8> = Vec::new();
    body.push(0x41);
    body.push(0x43);
    body.push(0x4f);
    body.push(0x4e);
    timing_chunks(&rates, even, &mut body);
    info_chunk(metadata, &mut body);
    proof {
        lemma_budget_mono(frames@, n as int, cappable(frames@));
        lemma_icon_chunks_len(frames@, curs, n as int);
        assert(curs.take(n as int) =~= curs);
        assert forall|k: int| 0 <= k <= curs.len() implies icon_chunks(#[trigger] curs.take(k)).len()
            <= icon_chunks(curs).len() by {
            lemma_icon_chunks_prefix(curs, k);
        }
    }
    fram_chunk(&encoded, Ghost(curs), Ghost(frames_budget(frames@, n as int)), &mut body);
    assert(curs.len() == n);
    assert(body@ =~= ani_body(curs, rates@, metadata.name, metadata.author));
    assert(body@.len() <= u32::MAX);

    let mut out: Vec<u8> = Vec::new();
    out.push(0x52);
    out.push(0x49);
    out.push(0x46);
    out.push(0x46);
    push_le32(&mut out, body.len() as u32);
    out.append(&mut body);
    assert(out@ =~= ani_file(curs, rates@, metadata.name, metadata.author));
    Ok(out)
}

} // verus!
