//! An animated cursor this library writes reads back as the frames that went
//! in, in order, each shown for its delay as Windows rounds it to jiffies.

use vstd::prelude::*;
use crate::ani_reader::{
    ani_scan, apply_chunk, decoded_ani, frame_picture, frames_upto, list_icons, next_chunk, play_order, played_steps,
    riff_end, scan_from, step_delay, words_in, AniScan,
};
use crate::ani_writer::{
    ani_body, ani_file, anih_payload, caps_keep, cur_written, delays_of, frame_rates, icon_chunks, info_list, jiffies,
    riff_chunk, steps, tag, uniform, words, AniFrame, AniMetadata,
};
use crate::icon_reader::is_ani_header;
use crate::bitmap::Raster;
use crate::cur_writer::{by_width, cur_file, le32, permuted, valid_image, CursorImage};
use crate::error::AppError;
use crate::icon_reader::decoded_icon;
use crate::round_trip::{law_cursor_round_trip, lemma_single_file};
use crate::icon_reader::u32_le;
use crate::round_trip::lemma_le32_value;

verus! {

/// The four bytes at `at` read back as the word `le32` wrote.
proof fn lemma_read_le32(b: Seq<u8>, at: int, v: int)
    requires
        0 <= at,
        at + 4 <= b.len(),
        0 <= v < 0x1_0000_0000,
        b.subrange(at, at + 4) == le32(v),
    ensures
        u32_le(b, at) == v,
{
    lemma_le32_value(v);
    assert(b[at] == b.subrange(at, at + 4)[0]);
    assert(b[at + 1] == b.subrange(at, at + 4)[1]);
    assert(b[at + 2] == b.subrange(at, at + 4)[2]);
    assert(b[at + 3] == b.subrange(at, at + 4)[3]);
}

/// How many bytes a chunk with `p` for payload takes, pad included.
pub open spec fn chunk_len(p: Seq<u8>) -> int {
    (8 + p.len() + p.len() % 2) as int
}

proof fn lemma_chunk_parts(b: Seq<u8>, at: int, id: Seq<u8>, p: Seq<u8>)
    requires
        id.len() == 4,
        0 <= at,
        at + chunk_len(p) <= b.len(),
        b.subrange(at, at + chunk_len(p)) == riff_chunk(id, p),
        p.len() < 0x1_0000_0000,
    ensures
        riff_chunk(id, p).len() == chunk_len(p),
        u32_le(b, at + 4) == p.len(),
        b.subrange(at + 8, at + 8 + p.len()) == p,
        b[at] == id[0] && b[at + 1] == id[1] && b[at + 2] == id[2] && b[at + 3] == id[3],
{
    let c = riff_chunk(id, p);
    assert(c.len() == chunk_len(p));
    assert(b.subrange(at + 4, at + 8) =~= le32(p.len() as int)) by {
        assert forall|k: int| 0 <= k < 4 implies b.subrange(at + 4, at + 8)[k] == le32(p.len() as int)[k] by {
            assert(b[at + 4 + k] == c[4 + k]);
        }
    }
    lemma_read_le32(b, at + 4, p.len() as int);
    assert(b.subrange(at + 8, at + 8 + p.len()) =~= p) by {
        assert forall|k: int| 0 <= k < p.len() implies b.subrange(at + 8, at + 8 + p.len())[k] == p[k] by {
            assert(b[at + 8 + k] == c[8 + k]);
        }
    }
    assert(b[at] == c[0]);
    assert(b[at + 1] == c[1]);
    assert(b[at + 2] == c[2]);
    assert(b[at + 3] == c[3]);
}

/// One well-formed top-level chunk: the scan applies it and moves past it.
proof fn lemma_scan_step(b: Seq<u8>, end: int, at: int, id: Seq<u8>, p: Seq<u8>, s: AniScan)
    requires
        id.len() == 4,
        0 <= at,
        at + chunk_len(p) <= end <= b.len(),
        b.subrange(at, at + chunk_len(p)) == riff_chunk(id, p),
        0 < p.len() < 0x1_0000_0000,
    ensures
        scan_from(b, end, at, s) == scan_from(
            b,
            end,
            at + chunk_len(p),
            apply_chunk(b, at, at + 8, at + 8 + p.len(), s),
        ),
{
    lemma_chunk_parts(b, at, id, p);
    assert(next_chunk(at + 8, p.len() as int) == at + chunk_len(p));
}

/// One `icon` chunk inside `LIST fram`: its range is collected and the walk
/// moves past it.
proof fn lemma_icon_step(b: Seq<u8>, end: int, at: int, p: Seq<u8>, acc: Seq<(int, int)>)
    requires
        0 <= at,
        at + chunk_len(p) <= end <= b.len(),
        b.subrange(at, at + chunk_len(p)) == riff_chunk(tag(0x69, 0x63, 0x6f, 0x6e), p),
        0 < p.len() < 0x1_0000_0000,
        acc.len() < 240,
    ensures
        list_icons(b, end, at, acc) == list_icons(b, end, at + chunk_len(p), acc.push((at + 8, at + 8 + p.len()))),
{
    lemma_chunk_parts(b, at, tag(0x69, 0x63, 0x6f, 0x6e), p);
    assert(next_chunk(at + 8, p.len() as int) == at + chunk_len(p));
}

/// The icon chunks, first one first.
proof fn lemma_icon_chunks_front(curs: Seq<Seq<u8>>)
    requires
        curs.len() >= 1,
    ensures
        icon_chunks(curs) == riff_chunk(tag(0x69, 0x63, 0x6f, 0x6e), curs[0]) + icon_chunks(curs.drop_first()),
    decreases curs.len(),
{
    let t = tag(0x69, 0x63, 0x6f, 0x6e);
    if curs.len() == 1 {
        assert(curs.drop_last() =~= Seq::<Seq<u8>>::empty());
        assert(curs.drop_first() =~= Seq::<Seq<u8>>::empty());
        assert(icon_chunks(curs.drop_last()) == Seq::<u8>::empty());
        assert(icon_chunks(curs.drop_first()) == Seq::<u8>::empty());
        assert(icon_chunks(curs) == icon_chunks(curs.drop_last()) + riff_chunk(t, curs.last()));
        assert(curs.last() == curs[0]);
        assert(icon_chunks(curs) =~= riff_chunk(t, curs[0]));
    } else {
        let front = curs.drop_last();
        lemma_icon_chunks_front(front);
        assert(front.drop_first() =~= curs.drop_first().drop_last());
        assert(curs.drop_first().last() == curs.last());
        assert(front[0] == curs[0]);
        assert(icon_chunks(curs) =~= riff_chunk(t, curs[0]) + icon_chunks(curs.drop_first()));
    }
}

/// Walking `LIST fram` collects one range per icon chunk, each holding the
/// `.cur` file it was written with.
proof fn lemma_list_icons(b: Seq<u8>, end: int, at: int, curs: Seq<Seq<u8>>, acc: Seq<(int, int)>)
    requires
        0 <= at,
        at + icon_chunks(curs).len() == end,
        end <= b.len(),
        b.subrange(at, end) == icon_chunks(curs),
        acc.len() + curs.len() <= 240,
        forall|i: int| 0 <= i < curs.len() ==> 0 < (#[trigger] curs[i]).len() < 0x1_0000_0000,
    ensures
        list_icons(b, end, at, acc).len() == acc.len() + curs.len(),
        forall|i: int| 0 <= i < acc.len() ==> #[trigger] list_icons(b, end, at, acc)[i] == acc[i],
        forall|i: int|
            0 <= i < curs.len() ==> {
                let r = #[trigger] list_icons(b, end, at, acc)[acc.len() + i];
                at <= r.0 < r.1 <= end && b.subrange(r.0, r.1) == curs[i]
            },
    decreases curs.len(),
{
    let t = tag(0x69, 0x63, 0x6f, 0x6e);
    if curs.len() == 0 {
        assert(icon_chunks(curs) =~= Seq::<u8>::empty());
    } else {
        lemma_icon_chunks_front(curs);
        let c0 = curs[0];
        let rest = curs.drop_first();
        let first = riff_chunk(t, c0);
        assert(first.len() == chunk_len(c0));
        let mid = at + chunk_len(c0);
        assert(b.subrange(at, mid) =~= first) by {
            assert forall|k: int| 0 <= k < first.len() implies b.subrange(at, mid)[k] == first[k] by {
                assert(b.subrange(at, end)[k] == icon_chunks(curs)[k]);
            }
        }
        assert(b.subrange(mid, end) =~= icon_chunks(rest)) by {
            assert forall|k: int| 0 <= k < icon_chunks(rest).len() implies b.subrange(mid, end)[k] == icon_chunks(rest)[k] by {
                assert(b.subrange(at, end)[first.len() + k] == icon_chunks(curs)[first.len() + k]);
            }
        }
        lemma_icon_step(b, end, at, c0, acc);
        lemma_chunk_parts(b, at, t, c0);
        let acc2 = acc.push((at + 8, at + 8 + c0.len()));
        assert forall|i: int| 0 <= i < rest.len() implies 0 < (#[trigger] rest[i]).len() < 0x1_0000_0000 by {
            assert(rest[i] == curs[i + 1]);
        }
        lemma_list_icons(b, end, mid, rest, acc2);
        let out = list_icons(b, end, at, acc);
        assert(out == list_icons(b, end, mid, acc2));
        assert forall|i: int| 0 <= i < acc.len() implies #[trigger] out[i] == acc[i] by {
            assert(out[i] == acc2[i]);
        }
        assert forall|i: int| 0 <= i < curs.len() implies {
            let r = #[trigger] out[acc.len() + i];
            at <= r.0 < r.1 <= end && b.subrange(r.0, r.1) == curs[i]
        } by {
            if i == 0 {
                assert(out[acc.len() as int] == acc2[acc.len() as int]);
            } else {
                assert(out[acc2.len() + (i - 1)] == out[acc.len() + i]);
                assert(rest[i - 1] == curs[i]);
            }
        }
    }
}

/// The words of `b[s..s + 4n]` are the ones `words` wrote there.
proof fn lemma_words_read(b: Seq<u8>, s: int, ws: Seq<u32>)
    requires
        0 <= s,
        s + 4 * ws.len() <= b.len(),
        b.subrange(s, s + 4 * ws.len()) == words(ws),
        ws.len() <= 240,
    ensures
        words_in(b, s, s + 4 * ws.len()) == ws,
{
    assert forall|i: int| 0 <= i < ws.len() implies u32_le(b, s + 4 * i) == ws[i] by {
        lemma_words_at(ws, i);
        assert(b.subrange(s + 4 * i, s + 4 * i + 4) =~= le32(ws[i] as int)) by {
            assert forall|k: int| 0 <= k < 4 implies b.subrange(s + 4 * i, s + 4 * i + 4)[k] == le32(ws[i] as int)[k] by {
                assert(b.subrange(s, s + 4 * ws.len())[4 * i + k] == words(ws)[4 * i + k]);
            }
        }
        lemma_read_le32(b, s + 4 * i, ws[i] as int);
    }
    assert(words_in(b, s, s + 4 * ws.len()) =~= ws);
}

/// Word `i` of `words(ws)` is `le32(ws[i])`.
proof fn lemma_words_at(ws: Seq<u32>, i: int)
    requires
        0 <= i < ws.len(),
    ensures
        words(ws).len() == 4 * ws.len(),
        forall|k: int| 0 <= k < 4 ==> #[trigger] words(ws)[4 * i + k] == le32(ws[i] as int)[k],
    decreases ws.len(),
{
    lemma_words_len(ws);
    if i < ws.len() - 1 {
        lemma_words_at(ws.drop_last(), i);
        assert forall|k: int| 0 <= k < 4 implies #[trigger] words(ws)[4 * i + k] == le32(ws[i] as int)[k] by {
            assert(words(ws)[4 * i + k] == words(ws.drop_last())[4 * i + k]);
        }
    }
}

proof fn lemma_words_len(ws: Seq<u32>)
    ensures
        words(ws).len() == 4 * ws.len(),
    decreases ws.len(),
{
    if ws.len() > 0 {
        lemma_words_len(ws.drop_last());
    }
}

/// The scan before any chunk.
pub open spec fn fresh_scan() -> AniScan {
    AniScan { icons: Seq::empty(), rates: Seq::empty(), sequence: Seq::empty(), default_jiffies: 6 }
}

/// The `rate` and `seq` chunks of uneven timing, or nothing.
pub open spec fn timing_part(rates: Seq<u32>, n: int) -> Seq<u8> {
    if uniform(rates) {
        Seq::empty()
    } else {
        riff_chunk(tag(0x72, 0x61, 0x74, 0x65), words(rates)) + riff_chunk(tag(0x73, 0x65, 0x71, 0x20), words(steps(n)))
    }
}

/// The `LIST fram` chunk.
pub open spec fn fram_part(curs: Seq<Seq<u8>>) -> Seq<u8> {
    riff_chunk(tag(0x4c, 0x49, 0x53, 0x54), tag(0x66, 0x72, 0x61, 0x6d) + icon_chunks(curs))
}

/// The parts of `h + (x0 + x1 + x2 + x3 + x4)` lie where they were put.
proof fn lemma_parts(h: Seq<u8>, x0: Seq<u8>, x1: Seq<u8>, x2: Seq<u8>, x3: Seq<u8>, x4: Seq<u8>)
    ensures
        ({
            let b = h + (x0 + x1 + x2 + x3 + x4);
            let p1 = h.len() + x0.len();
            let p2 = p1 + x1.len();
            let p3 = p2 + x2.len();
            let p4 = p3 + x3.len();
            &&& b.len() == p4 + x4.len()
            &&& b.subrange(0, h.len() as int) == h
            &&& b.subrange(h.len() as int, p1 as int) == x0
            &&& b.subrange(p1 as int, p2 as int) == x1
            &&& b.subrange(p2 as int, p3 as int) == x2
            &&& b.subrange(p3 as int, p4 as int) == x3
            &&& b.subrange(p4 as int, b.len() as int) == x4
        }),
{
    let b = h + (x0 + x1 + x2 + x3 + x4);
    let p1 = h.len() + x0.len();
    let p2 = p1 + x1.len();
    let p3 = p2 + x2.len();
    let p4 = p3 + x3.len();
    assert(b.subrange(0, h.len() as int) =~= h);
    assert(b.subrange(h.len() as int, p1 as int) =~= x0);
    assert(b.subrange(p1 as int, p2 as int) =~= x1);
    assert(b.subrange(p2 as int, p3 as int) =~= x2);
    assert(b.subrange(p3 as int, p4 as int) =~= x3);
    assert(b.subrange(p4 as int, b.len() as int) =~= x4);
}

/// Where each part of a written file lies.
proof fn lemma_file_layout(curs: Seq<Seq<u8>>, rates: Seq<u32>, name: Option<String>, author: Option<String>)
    requires
        ani_body(curs, rates, name, author).len() < 0x1_0000_0000,
        rates.len() >= 1,
    ensures
        ({
            let b = ani_file(curs, rates, name, author);
            let n = curs.len() as int;
            let t = timing_part(rates, n);
            let i = info_list(name, author);
            let f = fram_part(curs);
            &&& b.len() == 56 + t.len() + i.len() + f.len()
            &&& is_ani_header(b)
            &&& riff_end(b) == b.len()
            &&& b.subrange(12, 56) == riff_chunk(tag(0x61, 0x6e, 0x69, 0x68), anih_payload(n, rates))
            &&& b.subrange(56, 56int + t.len()) == t
            &&& b.subrange(56int + t.len(), 56int + t.len() + i.len()) == i
            &&& b.subrange(56int + t.len() + i.len(), b.len() as int) == f
        }),
{
    let n = curs.len() as int;
    let body = ani_body(curs, rates, name, author);
    let b = ani_file(curs, rates, name, author);
    let acon = tag(0x41, 0x43, 0x4f, 0x4e);
    let chunk_a = riff_chunk(tag(0x61, 0x6e, 0x69, 0x68), anih_payload(n, rates));
    let t = timing_part(rates, n);
    let i = info_list(name, author);
    let f = fram_part(curs);
    let head = tag(0x52, 0x49, 0x46, 0x46) + le32(body.len() as int);
    assert(body == acon + chunk_a + t + i + f);
    assert(b == head + body);
    assert(anih_payload(n, rates).len() == 36);
    assert(chunk_a.len() == 44);
    lemma_parts(head, acon, chunk_a, t, i, f);
    assert(b.subrange(4, 8) =~= le32(body.len() as int)) by {
        assert forall|k: int| 0 <= k < 4 implies b.subrange(4, 8)[k] == le32(body.len() as int)[k] by {
            assert(b.subrange(0, 8)[4 + k] == head[4 + k]);
        }
    }
    lemma_read_le32(b, 4, body.len() as int);
    assert(b[0] == b.subrange(0, 8)[0] && b[1] == b.subrange(0, 8)[1] && b[2] == b.subrange(0, 8)[2] && b[3]
        == b.subrange(0, 8)[3]);
    assert(b[8] == b.subrange(8, 12)[0] && b[9] == b.subrange(8, 12)[1] && b[10] == b.subrange(8, 12)[2] && b[11]
        == b.subrange(8, 12)[3]);
}

proof fn lemma_scan_anih(b: Seq<u8>, end: int, n: int, rates: Seq<u32>)
    requires
        56 <= end <= b.len(),
        b.subrange(12, 56) == riff_chunk(tag(0x61, 0x6e, 0x69, 0x68), anih_payload(n, rates)),
        rates.len() >= 1,
        rates[0] >= 1,
    ensures
        scan_from(b, end, 12, fresh_scan()) == scan_from(b, end, 56, (AniScan { default_jiffies: rates[0] as int, ..fresh_scan() })),
{
    let anih = tag(0x61, 0x6e, 0x69, 0x68);
    let pay = anih_payload(n, rates);
    let chunk = riff_chunk(anih, pay);
    assert(pay.len() == 36);
    lemma_scan_step(b, end, 12, anih, pay, fresh_scan());
    lemma_chunk_parts(b, 12, anih, pay);
    assert(b.subrange(48, 52) =~= le32(rates[0] as int)) by {
        assert forall|k: int| 0 <= k < 4 implies b.subrange(48, 52)[k] == le32(rates[0] as int)[k] by {
            assert(b.subrange(12, 56)[36 + k] == chunk[36 + k]);
            assert(chunk[36 + k] == pay[28 + k]);
        }
    }
    lemma_read_le32(b, 48, rates[0] as int);
}

proof fn lemma_scan_timing(b: Seq<u8>, end: int, n: int, rates: Seq<u32>, s1: AniScan)
    requires
        !uniform(rates),
        rates.len() == n,
        1 <= n <= 240,
        56int + timing_part(rates, n).len() <= end <= b.len(),
        b.subrange(56, 56int + timing_part(rates, n).len()) == timing_part(rates, n),
    ensures
        scan_from(b, end, 56, s1) == scan_from(
            b,
            end,
            56int + timing_part(rates, n).len(),
            (AniScan { rates: rates, sequence: steps(n), ..s1 }),
        ),
{
    let pay_r = words(rates);
    let pay_s = words(steps(n));
    let rt = tag(0x72, 0x61, 0x74, 0x65);
    let sq = tag(0x73, 0x65, 0x71, 0x20);
    let rate_c = riff_chunk(rt, pay_r);
    let seq_c = riff_chunk(sq, pay_s);
    let t = timing_part(rates, n);
    lemma_words_len(rates);
    lemma_words_len(steps(n));
    assert(rate_c.len() == chunk_len(pay_r));
    assert(seq_c.len() == chunk_len(pay_s));
    let p_s = 56 + chunk_len(pay_r);
    assert(b.subrange(56, p_s) =~= rate_c) by {
        assert forall|k: int| 0 <= k < rate_c.len() implies b.subrange(56, p_s)[k] == rate_c[k] by {
            assert(b.subrange(56, 56int + t.len())[k] == t[k]);
        }
    }
    assert(b.subrange(p_s, p_s + seq_c.len()) =~= seq_c) by {
        assert forall|k: int| 0 <= k < seq_c.len() implies b.subrange(p_s, p_s + seq_c.len())[k] == seq_c[k] by {
            assert(b.subrange(56, 56int + t.len())[rate_c.len() + k] == t[rate_c.len() + k]);
        }
    }
    lemma_scan_step(b, end, 56, rt, pay_r, s1);
    lemma_chunk_parts(b, 56, rt, pay_r);
    lemma_words_read(b, 64, rates);
    let s2 = AniScan { rates: rates, ..s1 };
    assert(apply_chunk(b, 56, 64, 64 + 4 * n, s1) == s2);
    lemma_scan_step(b, end, p_s, sq, pay_s, s2);
    lemma_chunk_parts(b, p_s, sq, pay_s);
    lemma_words_read(b, p_s + 8, steps(n));
    assert(apply_chunk(b, p_s, p_s + 8, p_s + 8 + 4 * n, s2) == AniScan { rates: rates, sequence: steps(n), ..s1 });
}

proof fn lemma_scan_info(b: Seq<u8>, end: int, at: int, name: Option<String>, author: Option<String>, s: AniScan)
    requires
        0 <= at,
        at + info_list(name, author).len() <= end <= b.len(),
        b.subrange(at, at + info_list(name, author).len()) == info_list(name, author),
        info_list(name, author).len() < 0x1_0000_0000,
    ensures
        scan_from(b, end, at, s) == scan_from(b, end, at + info_list(name, author).len(), s),
{
    let info = info_list(name, author);
    if info.len() > 0 {
        let list = tag(0x4c, 0x49, 0x53, 0x54);
        let pay_n = match name {
            Some(t) => riff_chunk(tag(0x49, 0x4e, 0x41, 0x4d), crate::ani_writer::inert_text(t@)),
            None => Seq::empty(),
        };
        let pay_u = match author {
            Some(t) => riff_chunk(tag(0x49, 0x41, 0x52, 0x54), crate::ani_writer::inert_text(t@)),
            None => Seq::empty(),
        };
        let pay_i = tag(0x49, 0x4e, 0x46, 0x4f) + pay_n + pay_u;
        assert(info == riff_chunk(list, pay_i));
        assert(info.len() == chunk_len(pay_i));
        lemma_scan_step(b, end, at, list, pay_i, s);
        lemma_chunk_parts(b, at, list, pay_i);
        assert(b[at + 8] == b.subrange(at, at + info.len())[8]);
        assert(apply_chunk(b, at, at + 8, at + 8 + pay_i.len(), s) == s);
    }
}

proof fn lemma_scan_fram(b: Seq<u8>, at: int, curs: Seq<Seq<u8>>, s: AniScan) -> (ranges: Seq<(int, int)>)
    requires
        0 <= at,
        at + fram_part(curs).len() == b.len(),
        b.subrange(at, b.len() as int) == fram_part(curs),
        fram_part(curs).len() < 0x1_0000_0000,
        curs.len() <= 240,
        s.icons.len() == 0,
        forall|i: int| 0 <= i < curs.len() ==> 0 < (#[trigger] curs[i]).len(),
    ensures
        scan_from(b, b.len() as int, at, s) == (AniScan { icons: ranges, ..s }),
        ranges.len() == curs.len(),
        forall|i: int|
            0 <= i < curs.len() ==> 0 <= (#[trigger] ranges[i]).0 <= ranges[i].1 <= b.len() && b.subrange(
                ranges[i].0,
                ranges[i].1,
            ) == curs[i],
{
    let list = tag(0x4c, 0x49, 0x53, 0x54);
    let pay_f = tag(0x66, 0x72, 0x61, 0x6d) + icon_chunks(curs);
    let chunk_f = fram_part(curs);
    let end = b.len() as int;
    assert(chunk_f.len() == chunk_len(pay_f));
    lemma_scan_step(b, end, at, list, pay_f, s);
    lemma_chunk_parts(b, at, list, pay_f);
    assert(b[at + 8] == b.subrange(at, end)[8]);
    assert(b[at + 9] == b.subrange(at, end)[9]);
    assert(b[at + 10] == b.subrange(at, end)[10]);
    assert(b[at + 11] == b.subrange(at, end)[11]);
    let f_end = at + 8 + pay_f.len();
    assert(b.subrange(at + 12, f_end) =~= icon_chunks(curs)) by {
        assert forall|k: int| 0 <= k < icon_chunks(curs).len() implies b.subrange(at + 12, f_end)[k] == icon_chunks(curs)[k] by {
            assert(b.subrange(at + 8, f_end)[4 + k] == pay_f[4 + k]);
        }
    }
    assert forall|i: int| 0 <= i < curs.len() implies 0 < (#[trigger] curs[i]).len() < 0x1_0000_0000 by {
        lemma_icon_chunk_bound(curs, i);
    }
    lemma_list_icons(b, f_end, at + 12, curs, Seq::empty());
    let ranges = list_icons(b, f_end, at + 12, Seq::empty());
    assert(s.icons =~= Seq::<(int, int)>::empty());
    assert(apply_chunk(b, at, at + 8, f_end, s) == AniScan { icons: ranges, ..s });
    assert forall|i: int| 0 <= i < curs.len() implies 0 <= (#[trigger] ranges[i]).0 <= ranges[i].1 <= b.len() && b.subrange(
        ranges[i].0,
        ranges[i].1,
    ) == curs[i] by {
        assert(ranges[0 + i] == ranges[i]);
    }
    ranges
}

/// Each `.cur` file is no longer than all the icon chunks together.
proof fn lemma_icon_chunk_bound(curs: Seq<Seq<u8>>, i: int)
    requires
        0 <= i < curs.len(),
    ensures
        curs[i].len() <= icon_chunks(curs).len(),
    decreases curs.len(),
{
    if i < curs.len() - 1 {
        lemma_icon_chunk_bound(curs.drop_last(), i);
    }
}

/// What scanning a written animated cursor finds: one range per frame, each
/// holding the frame's `.cur` file, and the timing it was written with.
proof fn lemma_scan_of_file(curs: Seq<Seq<u8>>, rates: Seq<u32>, name: Option<String>, author: Option<String>) -> (ranges: Seq<(int, int)>)
    requires
        1 <= curs.len() <= 240,
        rates.len() == curs.len(),
        rates[0] >= 1,
        forall|i: int| 0 <= i < curs.len() ==> 0 < (#[trigger] curs[i]).len(),
        ani_body(curs, rates, name, author).len() < 0x1_0000_0000,
    ensures
        ({
            let b = ani_file(curs, rates, name, author);
            let s = ani_scan(b);
            &&& is_ani_header(b)
            &&& s.icons == ranges
            &&& ranges.len() == curs.len()
            &&& forall|i: int|
                0 <= i < curs.len() ==> 0 <= (#[trigger] ranges[i]).0 <= ranges[i].1 <= b.len() && b.subrange(
                    ranges[i].0,
                    ranges[i].1,
                ) == curs[i]
            &&& s.default_jiffies == rates[0]
            &&& if uniform(rates) {
                s.rates.len() == 0 && s.sequence.len() == 0
            } else {
                s.rates == rates && s.sequence == steps(curs.len() as int)
            }
        }),
{
    let n = curs.len() as int;
    let b = ani_file(curs, rates, name, author);
    let t = timing_part(rates, n);
    let info = info_list(name, author);
    let end = b.len() as int;
    lemma_file_layout(curs, rates, name, author);
    let s1 = AniScan { default_jiffies: rates[0] as int, ..fresh_scan() };
    lemma_scan_anih(b, end, n, rates);
    let s3 = if uniform(rates) { s1 } else { AniScan { rates: rates, sequence: steps(n), ..s1 } };
    if !uniform(rates) {
        lemma_scan_timing(b, end, n, rates, s1);
    }
    assert(scan_from(b, end, 56, s1) == scan_from(b, end, 56int + t.len(), s3));
    lemma_scan_info(b, end, 56int + t.len(), name, author, s3);
    let ranges = lemma_scan_fram(b, 56int + t.len() + info.len(), curs, s3);
    assert(ani_scan(b) == scan_from(b, end, 12, fresh_scan()));
    ranges
}

/// How long a frame of `j` jiffies is shown once read back, in
/// milliseconds: at least one jiffy, held to 10-2000 ms.
pub open spec fn shown_ms(j: int) -> u32 {
    let j1 = if j < 1 { 1 } else { j };
    let ms = j1 * 1000 / 60;
    (if ms < 10 {
        10
    } else if ms > 2000 {
        2000
    } else {
        ms
    }) as u32
}

/// The `.cur` file of each frame's one image.
pub open spec fn curs_of(imgs: Seq<CursorImage>) -> Seq<Seq<u8>> {
    Seq::new(imgs.len(), |i: int| cur_file(seq![imgs[i]]))
}

/// What an animation of these frames reads back as.
pub open spec fn frames_back(imgs: Seq<CursorImage>, rates: Seq<u32>) -> Seq<(Raster, u32)> {
    Seq::new(imgs.len(), |i: int| (imgs[i].bitmap@, shown_ms(rates[i] as int)))
}

proof fn lemma_frames_upto(b: Seq<u8>, s: AniScan, imgs: Seq<CursorImage>, rates: Seq<u32>, k: int)
    requires
        0 <= k <= imgs.len(),
        rates.len() == imgs.len(),
        forall|i: int| 0 <= i < imgs.len() ==> #[trigger] play_order(s)[i] == i,
        forall|i: int| 0 <= i < imgs.len() ==> #[trigger] frame_picture(b, s, i) == Some(imgs[i].bitmap@),
        forall|i: int| 0 <= i < imgs.len() ==> #[trigger] step_delay(s, i) == shown_ms(rates[i] as int),
    ensures
        frames_upto(b, s, k) == frames_back(imgs, rates).take(k),
    decreases k,
{
    if k > 0 {
        lemma_frames_upto(b, s, imgs, rates, k - 1);
        assert(play_order(s)[k - 1] == k - 1);
        assert(frame_picture(b, s, k - 1) == Some(imgs[k - 1].bitmap@));
        assert(step_delay(s, k - 1) == shown_ms(rates[k - 1] as int));
        assert(frames_back(imgs, rates).take(k) =~= frames_back(imgs, rates).take(k - 1).push(
            (imgs[k - 1].bitmap@, shown_ms(rates[k - 1] as int)),
        ));
    } else {
        assert(frames_back(imgs, rates).take(0) =~= Seq::<(Raster, u32)>::empty());
    }
}

/// An animated cursor of one image a frame, written as `write_ani` writes
/// it, reads back through `decode_ani` as the same pictures in the same
/// order, each shown for its rate in jiffies as milliseconds.
pub proof fn law_animation_round_trip(imgs: Seq<CursorImage>, rates: Seq<u32>, name: Option<String>, author: Option<String>)
    requires
        1 <= imgs.len() <= 240,
        rates.len() == imgs.len(),
        forall|i: int| 0 <= i < imgs.len() ==> (#[trigger] imgs[i]).bitmap@.wf() && valid_image(imgs[i]),
        forall|i: int| 0 <= i < rates.len() ==> 1 <= #[trigger] rates[i],
        ani_body(curs_of(imgs), rates, name, author).len() < 0x1_0000_0000,
    ensures
        decoded_ani(ani_file(curs_of(imgs), rates, name, author)) == Ok::<Seq<(Raster, u32)>, AppError>(
            frames_back(imgs, rates),
        ),
{
    let n = imgs.len() as int;
    let curs = curs_of(imgs);
    let b = ani_file(curs, rates, name, author);
    assert forall|i: int| 0 <= i < curs.len() implies 0 < (#[trigger] curs[i]).len() by {
        lemma_single_file(imgs[i]);
    }
    assert(rates[0] >= 1);
    let ranges = lemma_scan_of_file(curs, rates, name, author);
    let s = ani_scan(b);
    assert forall|i: int| 0 <= i < n implies #[trigger] play_order(s)[i] == i by {
        if !uniform(rates) {
            assert(s.sequence == steps(n));
        }
    }
    assert forall|i: int| 0 <= i < n implies #[trigger] frame_picture(b, s, i) == Some(imgs[i].bitmap@) by {
        assert(b.subrange(ranges[i].0, ranges[i].1) == curs[i]);
        law_cursor_round_trip(imgs[i]);
    }
    assert forall|i: int| 0 <= i < n implies #[trigger] step_delay(s, i) == shown_ms(rates[i] as int) by {
        if uniform(rates) {
            assert(rates[i] == rates[0]);
        }
        assert(1 <= rates[i]);
    }
    assert(play_order(s).len() == n) by {
        if !uniform(rates) {
            assert(s.sequence == steps(n));
        }
    }
    assert(played_steps(s) == n);
    lemma_frames_upto(b, s, imgs, rates, n);
    assert(frames_back(imgs, rates).take(n) =~= frames_back(imgs, rates));
}

/// The first image of each of the first `n` frames.
pub open spec fn first_images(frames: Seq<AniFrame>, n: int) -> Seq<CursorImage> {
    Seq::new(n as nat, |i: int| frames[i].images@[0])
}

/// What `write_ani` wrote for `frames`, when it succeeded.
pub open spec fn written_ani(frames: Seq<AniFrame>, metadata: AniMetadata, bytes: Seq<u8>, n: int, curs: Seq<Seq<u8>>) -> bool {
    &&& caps_keep(delays_of(frames), n)
    &&& curs.len() == n
    &&& forall|i: int| 0 <= i < n ==> cur_written(frames[i].images@, #[trigger] curs[i])
    &&& bytes == ani_file(curs, frame_rates(frames, n), metadata.name, metadata.author)
    &&& ani_body(curs, frame_rates(frames, n), metadata.name, metadata.author).len() <= u32::MAX
}

/// A frame of one image is written as that image's `.cur` file.
proof fn lemma_single_image_frames(frames: Seq<AniFrame>, n: int, curs: Seq<Seq<u8>>)
    requires
        0 <= n <= frames.len(),
        curs.len() == n,
        forall|i: int| 0 <= i < n ==> cur_written(frames[i].images@, #[trigger] curs[i]),
        forall|i: int| 0 <= i < frames.len() ==> (#[trigger] frames[i]).images@.len() == 1,
        forall|i: int| 0 <= i < frames.len() ==> (#[trigger] frames[i]).images@[0].bitmap@.wf(),
    ensures
        curs == curs_of(first_images(frames, n)),
        forall|i: int|
            0 <= i < n ==> (#[trigger] first_images(frames, n)[i]).bitmap@.wf() && valid_image(first_images(frames, n)[i]),
{
    let imgs = first_images(frames, n);
    assert forall|i: int| 0 <= i < n implies #[trigger] curs[i] == curs_of(imgs)[i] by {
        assert(cur_written(frames[i].images@, curs[i]));
        let order = choose|order: Seq<usize>| by_width(frames[i].images@, order) && curs[i] == cur_file(
            permuted(frames[i].images@, order),
        );
        assert(order[0] < 1);
        assert(permuted(frames[i].images@, order) =~= seq![imgs[i]]);
    }
    assert(curs =~= curs_of(imgs));
    assert forall|i: int| 0 <= i < n implies (#[trigger] imgs[i]).bitmap@.wf() && valid_image(imgs[i]) by {
        assert(cur_written(frames[i].images@, curs[i]));
        assert(frames[i].images@[0] == imgs[i]);
    }
}

/// What `write_ani` writes for frames of one image each reads back through
/// `decode_ani` as those images, in order, each shown for its delay as
/// Windows rounds it: to whole jiffies, then back to milliseconds.
pub proof fn law_written_animation_reads_back(
    frames: Seq<AniFrame>,
    metadata: AniMetadata,
    bytes: Seq<u8>,
    n: int,
    curs: Seq<Seq<u8>>,
)
    requires
        written_ani(frames, metadata, bytes, n, curs),
        frames.len() >= 1,
        forall|i: int| 0 <= i < frames.len() ==> (#[trigger] frames[i]).images@.len() == 1,
        forall|i: int| 0 <= i < frames.len() ==> (#[trigger] frames[i]).images@[0].bitmap@.wf(),
    ensures
        decoded_ani(bytes) == Ok::<Seq<(Raster, u32)>, AppError>(
            Seq::new(n as nat, |i: int| (frames[i].images@[0].bitmap@, shown_ms(jiffies(frames[i].delay_ms as int)))),
        ),
{
    let imgs = first_images(frames, n);
    let rates = frame_rates(frames, n);
    assert(1 <= n <= 60) by {
        assert(delays_of(frames).len() == frames.len());
    }
    lemma_single_image_frames(frames, n, curs);
    assert forall|i: int| 0 <= i < rates.len() implies 1 <= #[trigger] rates[i] by {}
    law_animation_round_trip(imgs, rates, metadata.name, metadata.author);
    assert(frames_back(imgs, rates) =~= Seq::new(
        n as nat,
        |i: int| (frames[i].images@[0].bitmap@, shown_ms(jiffies(frames[i].delay_ms as int))),
    ));
}

} // verus!
