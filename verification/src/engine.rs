//! What the live cursor layer decides before it asks Windows for anything.

use vstd::prelude::*;
use crate::cursor::lower;
use crate::text::chars_of;
use crate::pipeline::{nearest_size, size_gap};
use crate::cur_writer::TARGET_SIZES;
use crate::settings::{MIN_CURSOR_PX, MAX_CURSOR_PX};

verus! {

/// A path separator on Windows.
pub open spec fn is_separator(c: char) -> bool {
    c == '\\' || c == '/'
}

/// How long `s` is once separators at its end are dropped.
pub open spec fn trimmed_len(s: Seq<char>) -> int
    decreases s.len(),
{
    if s.len() > 0 && is_separator(s.last()) { trimmed_len(s.drop_last()) } else { s.len() as int }
}

/// Where the last component of `s.take(end)` begins.
pub open spec fn name_start(s: Seq<char>, end: int) -> int
    decreases end,
{
    if end <= 0 { 0 } else if is_separator(s[end - 1]) { end } else { name_start(s, end - 1) }
}

/// The file name of a path: its last component, trailing separators ignored.
pub open spec fn file_name(s: Seq<char>) -> Seq<char> {
    let end = trimmed_len(s);
    s.subrange(name_start(s, end), end)
}

/// A file name whose extension is `ani` in any case: something before a last
/// dot, and `ani` after it.
pub open spec fn ani_named(name: Seq<char>) -> bool {
    let n = name.len() as int;
    n > 4 && name[n - 4] == '.' && lower(name[n - 3]) == 'a' && lower(name[n - 2]) == 'n' && lower(name[n - 1]) == 'i'
}

pub proof fn lemma_trimmed(s: Seq<char>)
    ensures
        0 <= trimmed_len(s) <= s.len(),
        trimmed_len(s) > 0 ==> !is_separator(s[trimmed_len(s) - 1]),
        forall|j: int| trimmed_len(s) <= j < s.len() ==> is_separator(#[trigger] s[j]),
    decreases s.len(),
{
    if s.len() > 0 && is_separator(s.last()) {
        let d = s.drop_last();
        lemma_trimmed(d);
        let t = trimmed_len(d);
        if t > 0 {
            assert(d[t - 1] == s[t - 1]);
        }
        assert forall|j: int| t <= j < s.len() implies is_separator(#[trigger] s[j]) by {
            if j < s.len() - 1 {
                assert(d[j] == s[j]);
            }
        }
    }
}

/// Whether a file is an animated cursor, by its extension. Only `.ani` is;
/// a name that merely contains the letters is not.
pub fn is_animated(path: &str) -> (b: bool)
    ensures
        b == ani_named(file_name(path@)),
{
    let chars = chars_of(path);
    let ghost s = chars@;
    proof {
        lemma_trimmed(s);
    }
    let mut end: usize = chars.len();
    while end > 0 && (chars[end - 1] == '\\' || chars[end - 1] == '/')
        invariant
            end <= s.len(),
            chars@ == s,
            trimmed_len(s) <= end,
            trimmed_len(s) > 0 ==> !is_separator(s[trimmed_len(s) - 1]),
            forall|j: int| trimmed_len(s) <= j < s.len() ==> is_separator(#[trigger] s[j]),
        decreases end,
    {
        end = end - 1;
    }
    proof {
        if end > trimmed_len(s) {
            assert(is_separator(s[end - 1]));
        }
        assert(end == trimmed_len(s));
    }
    let mut start: usize = end;
    while start > 0 && !(chars[start - 1] == '\\' || chars[start - 1] == '/')
        invariant
            start <= end,
            end == trimmed_len(s),
            end <= s.len(),
            chars@ == s,
            name_start(s, start as int) == name_start(s, end as int),
        decreases start,
    {
        start = start - 1;
    }
    assert(name_start(s, start as int) == start as int);
    let ghost name = s.subrange(start as int, end as int);
    assert(name == file_name(path@));
    if end - start <= 4 {
        return false;
    }
    let dot = chars[end - 4];
    let a = chars[end - 3];
    let n = chars[end - 2];
    let i = chars[end - 1];
    assert(name[name.len() - 4] == dot);
    assert(name[name.len() - 3] == a);
    assert(name[name.len() - 2] == n);
    assert(name[name.len() - 1] == i);
    dot == '.' && (a == 'a' || a == 'A') && (n == 'n' || n == 'N') && (i == 'i' || i == 'I')
}

/// The ladder rung closest to `requested`; between two equally close, the
/// smaller.
pub open spec fn is_nearest(size: u32, requested: int) -> bool {
    exists|i: int| 0 <= i < 8 && size == TARGET_SIZES@[i] && (forall|j: int|
        0 <= j < 8 ==> size_gap(size as int, requested) <= size_gap(#[trigger] TARGET_SIZES@[j] as int, requested))
        && (forall|j: int| 0 <= j < i ==> size_gap(size as int, requested) < size_gap(#[trigger] TARGET_SIZES@[j] as int, requested))
}

/// Whatever size is asked for, the one drawn at is a rung of the ladder:
/// no cursor file is ever drawn at a size it does not carry.
pub proof fn law_sizes_land_on_the_ladder(size: u32, asked: int)
    requires
        is_nearest(size, asked),
    ensures
        TARGET_SIZES@.contains(size),
{
    let i = choose|i: int| 0 <= i < 8 && size == TARGET_SIZES@[i] && (forall|j: int|
        0 <= j < 8 ==> size_gap(size as int, asked) <= size_gap(#[trigger] TARGET_SIZES@[j] as int, asked))
        && (forall|j: int| 0 <= j < i ==> size_gap(size as int, asked) < size_gap(#[trigger] TARGET_SIZES@[j] as int, asked));
    assert(TARGET_SIZES@[i] == size);
}

/// A size held to the range the size control offers.
pub open spec fn clamped(size: int) -> int {
    if size < MIN_CURSOR_PX { MIN_CURSOR_PX as int } else if size > MAX_CURSOR_PX { MAX_CURSOR_PX as int } else { size }
}

/// The pointer size to draw at: the size asked for (the configured one, or
/// failing that what Windows reports), else 32; held to the offered range and
/// snapped to the nearest ladder rung, since a size between two rungs is one
/// Windows has to stretch a cursor into.
pub fn effective_size(asked: Option<u32>) -> (size: u32)
    ensures
        is_nearest(size, clamped(match asked { Some(a) => a as int, None => 32 })),
{
    let wanted: u32 = match asked {
        Some(a) => a,
        None => 32,
    };
    let held: u32 = if wanted < MIN_CURSOR_PX {
        MIN_CURSOR_PX
    } else if wanted > MAX_CURSOR_PX {
        MAX_CURSOR_PX
    } else {
        wanted
    };
    nearest_size(held)
}

} // verus!
