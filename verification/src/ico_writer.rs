//! The `.ico` container for an application icon: an `ICONDIR`, one
//! `ICONDIRENTRY` per size, then the PNG images themselves.
//!
//! The container is the one a `.cur` uses, with type 1 instead of 2 and no
//! hotspot: where a cursor stores its hotspot, an icon stores its colour
//! planes and bit depth.

use vstd::prelude::*;
use crate::cur_writer::{dim_byte, le16, le32, push_le16, push_le32};
use crate::error::AppError;

verus! {

/// Values written into the directory's 16- and 32-bit fields keep their
/// low bits: the fields hold what fits.
pub open spec fn low16(v: int) -> int {
    v % 0x1_0000
}

pub open spec fn low32(v: int) -> int {
    v % 0x1_0000_0000
}

/// One icon's `ICONDIRENTRY`: its side (256 stored as 0), no palette, one
/// colour plane, 32 bits per pixel, the image's length and where it starts.
pub open spec fn icon_entry(size: int, len: int, at: int) -> Seq<u8> {
    seq![dim_byte(size), dim_byte(size), 0u8, 0u8] + le16(1) + le16(32) + le32(low32(len)) + le32(low32(at))
}

/// The images' lengths added up.
pub open spec fn images_total(entries: Seq<(u32, Vec<u8>)>) -> int
    decreases entries.len(),
{
    if entries.len() == 0 {
        0
    } else {
        images_total(entries.drop_last()) + entries.last().1@.len()
    }
}

/// The directory entries of a run of images whose data starts at `start`.
pub open spec fn icon_dir(entries: Seq<(u32, Vec<u8>)>, start: int) -> Seq<u8>
    decreases entries.len(),
{
    if entries.len() == 0 {
        Seq::empty()
    } else {
        let last = entries.last();
        icon_dir(entries.drop_last(), start) + icon_entry(
            last.0 as int,
            last.1@.len() as int,
            start + images_total(entries.drop_last()),
        )
    }
}

/// The images, one after another.
pub open spec fn icon_images(entries: Seq<(u32, Vec<u8>)>) -> Seq<u8>
    decreases entries.len(),
{
    if entries.len() == 0 {
        Seq::empty()
    } else {
        icon_images(entries.drop_last()) + entries.last().1@
    }
}

/// A whole `.ico` file holding `entries`, each a side length and the PNG
/// image of that size, in the order given.
pub open spec fn ico_file(entries: Seq<(u32, Vec<u8>)>) -> Seq<u8> {
    le16(0) + le16(1) + le16(low16(entries.len() as int)) + icon_dir(entries, 6 + 16 * (entries.len() as int)) + icon_images(entries)
}

proof fn lemma_total_grows(entries: Seq<(u32, Vec<u8>)>, j: int)
    requires
        0 <= j <= entries.len(),
    ensures
        0 <= images_total(entries.take(j)) <= images_total(entries),
    decreases entries.len(),
{
    if entries.len() > 0 {
        if j == entries.len() {
            assert(entries.take(j) =~= entries);
            lemma_total_grows(entries.drop_last(), 0);
        } else {
            assert(entries.take(j) =~= entries.drop_last().take(j));
            lemma_total_grows(entries.drop_last(), j);
        }
    } else {
        assert(entries.take(j) =~= entries);
    }
}

fn truncate32(v: usize) -> (out: u32)
    ensures
        out as int == low32(v as int),
{
    ((v as u64) % 0x1_0000_0000) as u32
}

fn truncate16(v: usize) -> (out: u16)
    ensures
        out as int == low16(v as int),
{
    ((v as u64) % 0x1_0000) as u16
}

/// Writes an `.ico` holding each PNG image with its side length, in the
/// order given; a side of 256 or more is stored as 0. Refused when there is
/// nothing to write.
pub fn write_ico(entries: &[(u32, Vec<u8>)]) -> (out: Result<Vec<u8>, AppError>)
    requires
        6 + 16 * entries@.len() + images_total(entries@) <= usize::MAX,
    ensures
        match out {
            Ok(bytes) => entries@.len() > 0 && bytes@ == ico_file(entries@),
            Err(e) => entries@.len() == 0 && e == AppError::NothingToWrite,
        },
{
    let n = entries.len();
    if n == 0 {
        return Err(AppError::NothingToWrite);
    }
    proof {
        lemma_total_grows(entries@, 0);
    }
    let mut out: Vec<u8> = Vec::new();
    push_le16(&mut out, 0);
    push_le16(&mut out, 1);
    push_le16(&mut out, truncate16(n));
    let ghost prefix = out@;
    let ghost start = 6 + 16 * (n as int);
    let mut offset: usize = 6 + 16 * n;
    let mut j: usize = 0;
    while j < n
        invariant
            n == entries@.len(),
            n > 0,
            start == 6 + 16 * (n as int),
            start + images_total(entries@) <= usize::MAX,
            j <= n,
            offset == start + images_total(entries@.take(j as int)),
            out@ == prefix + icon_dir(entries@.take(j as int), start),
        decreases n - j,
    {
        let (size, png) = &entries[j];
        let ghost t = entries@.take(j as int + 1);
        proof {
            assert(t.drop_last() =~= entries@.take(j as int));
            assert(t.last() == entries@[j as int]);
            lemma_total_grows(entries@, j as int + 1);
        }
        let ghost before = out@;
        let dim: u8 = if *size >= 256 { 0 } else { *size as u8 };
        out.push(dim);
        out.push(dim);
        out.push(0);
        out.push(0);
        push_le16(&mut out, 1);
        push_le16(&mut out, 32);
        push_le32(&mut out, truncate32(png.len()));
        push_le32(&mut out, truncate32(offset));
        proof {
            assert(out@ =~= before + icon_entry(*size as int, png@.len() as int, offset as int));
        }
        offset = offset + png.len();
        j = j + 1;
    }
    assert(entries@.take(n as int) =~= entries@);
    let ghost directory = out@;
    let mut j: usize = 0;
    while j < n
        invariant
            n == entries@.len(),
            j <= n,
            out@ == directory + icon_images(entries@.take(j as int)),
            directory == prefix + icon_dir(entries@, start),
        decreases n - j,
    {
        let png = &entries[j].1;
        proof {
            let t = entries@.take(j as int + 1);
            assert(t.drop_last() =~= entries@.take(j as int));
            assert(t.last() == entries@[j as int]);
        }
        let mut k: usize = 0;
        let ghost before = out@;
        while k < png.len()
            invariant
                k <= png@.len(),
                out@ == before + png@.take(k as int),
            decreases png@.len() - k,
        {
            out.push(png[k]);
            assert(png@.take(k as int + 1) =~= png@.take(k as int).push(png@[k as int]));
            k = k + 1;
        }
        proof {
            assert(png@.take(png@.len() as int) =~= png@);
            assert(out@ =~= directory + icon_images(entries@.take(j as int + 1)));
        }
        j = j + 1;
    }
    assert(entries@.take(n as int) =~= entries@);
    Ok(out)
}

/// What the writer produces is an icon by its own header: reserved zero,
/// type 1, as a reader of cursor and icon files checks first.
pub proof fn law_a_written_icon_reads_as_an_icon(entries: Seq<(u32, Vec<u8>)>)
    ensures
        crate::icon_reader::is_icon_header(ico_file(entries)),
        ico_file(entries)[2] == 1,
{
    let f = ico_file(entries);
    assert(f[0] == 0 && f[1] == 0 && f[2] == 1 && f[3] == 0);
}

} // verus!
