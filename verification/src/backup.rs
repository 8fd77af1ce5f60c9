//! Everything the user made, in one archive they can put somewhere else, and
//! the rules an archive is held to on the way back in.
//!
//! The archive arrives from a filesystem, so it is treated as hostile: every
//! entry name is checked before a byte is written, nothing lands outside the
//! data folder, and no executable type is accepted.

use vstd::prelude::*;
use crate::cursor::lower;
use crate::engine::{file_name, is_separator};
use crate::error::AppError;
use crate::text::{append, chars_of, string_of};

verus! {

/// Not backed up: regenerated, rewritten every launch, or a download in
/// flight.
pub const SKIPPED_DIRS: [&'static str; 3] = ["cache", "logs", "updates"];

/// The file types a restore is willing to write. Nothing executable: the
/// data folder is a place Windows loads files from.
pub const ALLOWED_EXTENSIONS: [&'static str; 6] = ["json", "cur", "ani", "png", "svg", "txt"];

/// More entries than any backup holds.
pub const MAX_ENTRIES: usize = 20_000;

/// The most a restore writes, in bytes, across all entries.
pub const MAX_UNCOMPRESSED: u64 = 2_147_483_648;

/// One entry expanding more than this many times is a zip bomb.
pub const MAX_RATIO: u64 = 200;

/// A character no Windows file name may hold.
pub open spec fn forbidden(c: char) -> bool {
    (c as u32) < 0x20 || c == '<' || c == '>' || c == ':' || c == '"' || c == '|' || c == '?' || c == '*'
}

/// Where the component that starts `t` ends: its first separator, or the
/// end.
pub open spec fn part_len(t: Seq<char>) -> int
    decreases t.len(),
{
    if t.len() == 0 || is_separator(t[0]) { 0 } else { 1 + part_len(t.skip(1)) }
}

/// How much of a component comes before its first dot.
pub open spec fn stem_len(t: Seq<char>) -> int
    decreases t.len(),
{
    if t.len() == 0 || t[0] == '.' { 0 } else { 1 + stem_len(t.skip(1)) }
}

/// Every ASCII letter in lower case.
pub open spec fn lowered(s: Seq<char>) -> Seq<char> {
    s.map_values(|c: char| lower(c))
}

/// A name Windows keeps for a device, whatever extension follows it.
pub open spec fn reserved(stem: Seq<char>) -> bool {
    let s = lowered(stem);
    s == "con"@ || s == "prn"@ || s == "aux"@ || s == "nul"@ || (s.len() == 4 && (s.take(3) == "com"@ || s.take(3)
        == "lpt"@) && '1' <= s[3] <= '9')
}

/// A component that names an ordinary file or folder: not a device name, and
/// not ending in a dot or a space (which covers `.` and `..`).
pub open spec fn part_ok(part: Seq<char>) -> bool {
    part.len() > 0 && !reserved(part.take(stem_len(part))) && part.last() != '.' && part.last() != ' '
}

/// A component starts at `i`.
pub open spec fn starts_part(s: Seq<char>, i: int) -> bool {
    i == 0 || is_separator(s[i - 1])
}

/// A relative path the app will write to: not empty, no drive, root or
/// stream, no empty component, and every component an ordinary name.
pub open spec fn relative_ok(s: Seq<char>) -> bool {
    &&& s.len() > 0
    &&& !is_separator(s[0])
    &&& !is_separator(s.last())
    &&& forall|i: int| 0 <= i < s.len() ==> !forbidden(#[trigger] s[i])
    &&& forall|i: int| 0 <= i < s.len() - 1 ==> !(is_separator(#[trigger] s[i]) && is_separator(s[i + 1]))
    &&& forall|i: int| 0 <= i < s.len() && #[trigger] starts_part(s, i) ==> part_ok(s.skip(i).take(part_len(s.skip(i))))
}

/// A path the app will write to stays inside the data folder: it does not
/// start at a root, holds no drive or stream colon, and none of its
/// components is `.` or `..`.
pub proof fn law_permitted_stays_inside(s: Seq<char>, i: int)
    requires
        relative_ok(s),
        0 <= i < s.len(),
        starts_part(s, i),
    ensures
        !is_separator(s[0]),
        s[i] != ':',
        s.skip(i).take(part_len(s.skip(i))) != seq!['.'],
        s.skip(i).take(part_len(s.skip(i))) != seq!['.', '.'],
{
    assert(!forbidden(s[i]));
    let part = s.skip(i).take(part_len(s.skip(i)));
    assert(part_ok(part));
}

/// Where the last dot of `name` is, or -1.
pub open spec fn last_dot(name: Seq<char>) -> int
    decreases name.len(),
{
    if name.len() == 0 { -1 } else if name.last() == '.' { name.len() - 1 } else { last_dot(name.drop_last()) }
}

/// The extension of a file name, as `Path::extension` gives it: after the
/// last dot, when something comes before that dot.
pub open spec fn extension(name: Seq<char>) -> Option<Seq<char>> {
    if last_dot(name) > 0 { Some(name.skip(last_dot(name) + 1)) } else { None }
}

/// A file type a backup holds.
pub open spec fn allowed_type(path: Seq<char>) -> bool {
    match extension(file_name(path)) {
        Some(e) => exists|i: int| 0 <= i < 6 && lowered(e) == (#[trigger] ALLOWED_EXTENSIONS@[i])@,
        None => false,
    }
}

proof fn lemma_part_len(t: Seq<char>, k: int)
    requires
        0 <= k <= t.len(),
        forall|j: int| 0 <= j < k ==> !is_separator(#[trigger] t[j]),
        k == t.len() || is_separator(t[k]),
    ensures
        part_len(t) == k,
    decreases k,
{
    if k > 0 {
        let u = t.skip(1);
        assert forall|j: int| 0 <= j < k - 1 implies !is_separator(#[trigger] u[j]) by {
            assert(u[j] == t[j + 1]);
        }
        if k - 1 < u.len() {
            assert(u[k - 1] == t[k]);
        }
        lemma_part_len(u, k - 1);
    }
}

proof fn lemma_stem_len(t: Seq<char>, k: int)
    requires
        0 <= k <= t.len(),
        forall|j: int| 0 <= j < k ==> #[trigger] t[j] != '.',
        k == t.len() || t[k] == '.',
    ensures
        stem_len(t) == k,
    decreases k,
{
    if k > 0 {
        let u = t.skip(1);
        assert forall|j: int| 0 <= j < k - 1 implies #[trigger] u[j] != '.' by {
            assert(u[j] == t[j + 1]);
        }
        if k - 1 < u.len() {
            assert(u[k - 1] == t[k]);
        }
        lemma_stem_len(u, k - 1);
    }
}

proof fn lemma_last_dot(name: Seq<char>, k: int)
    requires
        -1 <= k < name.len(),
        forall|j: int| k < j < name.len() ==> #[trigger] name[j] != '.',
        k == -1 || name[k] == '.',
    ensures
        last_dot(name) == k,
    decreases name.len(),
{
    if name.len() > 0 && name.last() != '.' {
        let d = name.drop_last();
        assert forall|j: int| k < j < d.len() implies #[trigger] d[j] != '.' by {
            assert(d[j] == name[j]);
        }
        if k >= 0 {
            assert(d[k] == name[k]);
        }
        lemma_last_dot(d, k);
    }
}

fn lower_char(c: char) -> (out: char)
    ensures
        out == lower(c),
{
    if 'A' <= c && c <= 'Z' {
        let v = (c as u32) + 32;
        proof {
            assert(0x61 <= v <= 0x7a);
        }
        (v as u8) as char
    } else {
        c
    }
}

fn is_forbidden(c: char) -> (b: bool)
    ensures
        b == forbidden(c),
{
    (c as u32) < 0x20 || c == '<' || c == '>' || c == ':' || c == '"' || c == '|' || c == '?' || c == '*'
}

/// Whether a component's stem is a device name.
fn is_reserved(s: &Vec<char>, from: usize, to: usize) -> (b: bool)
    requires
        from <= to <= s@.len(),
    ensures
        b == reserved(s@.subrange(from as int, to as int)),
{
    let ghost stem = s@.subrange(from as int, to as int);
    let n = to - from;
    let mut low: Vec<char> = Vec::new();
    let mut i: usize = from;
    while i < to
        invariant
            from <= i <= to,
            to <= s@.len(),
            stem == s@.subrange(from as int, to as int),
            low@ == lowered(stem.take(i - from)),
        decreases to - i,
    {
        let c = lower_char(s[i]);
        low.push(c);
        assert(stem.take(i - from + 1) =~= stem.take(i - from).push(s@[i as int]));
        assert(low@ =~= lowered(stem.take(i - from + 1)));
        i = i + 1;
    }
    assert(stem.take(n as int) =~= stem);
    let ghost l = lowered(stem);
    assert(low@ == l);
    proof {
        reveal_strlit("con");
        reveal_strlit("prn");
        reveal_strlit("aux");
        reveal_strlit("nul");
        reveal_strlit("com");
        reveal_strlit("lpt");
    }
    if n == 3 {
        let a = low[0];
        let b = low[1];
        let c = low[2];
        let r = (a == 'c' && b == 'o' && c == 'n') || (a == 'p' && b == 'r' && c == 'n') || (a == 'a' && b == 'u'
            && c == 'x') || (a == 'n' && b == 'u' && c == 'l');
        proof {
            if r {
                assert(l == "con"@ || l == "prn"@ || l == "aux"@ || l == "nul"@);
            } else {
                assert(l != "con"@ && l != "prn"@ && l != "aux"@ && l != "nul"@) by {
                    if l == "con"@ { assert(l[0] == 'c' && l[1] == 'o' && l[2] == 'n'); }
                    if l == "prn"@ { assert(l[0] == 'p' && l[1] == 'r' && l[2] == 'n'); }
                    if l == "aux"@ { assert(l[0] == 'a' && l[1] == 'u' && l[2] == 'x'); }
                    if l == "nul"@ { assert(l[0] == 'n' && l[1] == 'u' && l[2] == 'l'); }
                }
            }
        }
        r
    } else if n == 4 {
        let a = low[0];
        let b = low[1];
        let c = low[2];
        let d = low[3];
        let head = (a == 'c' && b == 'o' && c == 'm') || (a == 'l' && b == 'p' && c == 't');
        let r = head && '1' <= d && d <= '9';
        proof {
            let t = l.take(3);
            if head {
                assert(t == "com"@ || t == "lpt"@) by {
                    if a == 'c' { assert(t =~= "com"@); } else { assert(t =~= "lpt"@); }
                }
            } else {
                assert(t != "com"@ && t != "lpt"@) by {
                    if t == "com"@ { assert(t[0] == 'c' && t[1] == 'o' && t[2] == 'm'); }
                    if t == "lpt"@ { assert(t[0] == 'l' && t[1] == 'p' && t[2] == 't'); }
                }
            }
            assert(l.len() == 4);
            assert(l != "con"@ && l != "prn"@ && l != "aux"@ && l != "nul"@);
        }
        r
    } else {
        proof {
            assert(l.len() == n);
            assert(l != "con"@ && l != "prn"@ && l != "aux"@ && l != "nul"@);
        }
        false
    }
}

/// Whether a relative path is one the app will write to.
pub fn validate_relative(relative: &str) -> (ok: bool)
    ensures
        ok == relative_ok(relative@),
{
    let s = chars_of(relative);
    let ghost v = s@;
    let n = s.len();
    if n == 0 {
        return false;
    }
    if s[0] == '\\' || s[0] == '/' || s[n - 1] == '\\' || s[n - 1] == '/' {
        return false;
    }
    let mut i: usize = 0;
    while i < n
        invariant
            i <= n,
            n == v.len(),
            n > 0,
            s@ == v,
            v == relative@,
            !is_separator(v[0]),
            !is_separator(v.last()),
            forall|k: int| 0 <= k < i ==> !forbidden(#[trigger] v[k]),
            forall|k: int| 0 <= k < i && k < n - 1 ==> !(is_separator(#[trigger] v[k]) && is_separator(v[k + 1])),
            forall|k: int| 0 <= k < i && #[trigger] starts_part(v, k) ==> part_ok(v.skip(k).take(part_len(v.skip(k)))),
        decreases n - i,
    {
        let c = s[i];
        if is_forbidden(c) {
            return false;
        }
        let sep = c == '\\' || c == '/';
        if sep && i + 1 < n && (s[i + 1] == '\\' || s[i + 1] == '/') {
            return false;
        }
        if i == 0 || s[i - 1] == '\\' || s[i - 1] == '/' {
            let ghost t = v.skip(i as int);
            let mut e: usize = i;
            while e < n && !(s[e] == '\\' || s[e] == '/')
                invariant
                    i <= e <= n,
                    n == v.len(),
                    s@ == v,
                    forall|k: int| i <= k < e ==> !is_separator(#[trigger] v[k]),
                decreases n - e,
            {
                e = e + 1;
            }
            let mut d: usize = i;
            while d < e && s[d] != '.'
                invariant
                    i <= d <= e,
                    e <= n,
                    n == v.len(),
                    s@ == v,
                    forall|k: int| i <= k < d ==> #[trigger] v[k] != '.',
                decreases e - d,
            {
                d = d + 1;
            }
            let ghost part = t.take(e - i);
            proof {
                assert forall|k: int| 0 <= k < e - i implies !is_separator(#[trigger] t[k]) by {
                    assert(t[k] == v[k + i]);
                }
                if e < n {
                    assert(t[e - i] == v[e as int]);
                }
                lemma_part_len(t, e - i);
                assert forall|k: int| 0 <= k < d - i implies #[trigger] part[k] != '.' by {
                    assert(part[k] == v[k + i]);
                }
                if d < e {
                    assert(part[d - i] == v[d as int]);
                }
                lemma_stem_len(part, d - i);
                assert(part.take(d - i) =~= v.subrange(i as int, d as int));
            }
            if e == i {
                assert(is_separator(v[i as int]));
                assert(false);
            }
            let last = s[e - 1];
            assert(part.last() == last);
            if last == '.' || last == ' ' || is_reserved(&s, i, d) {
                assert(starts_part(v, i as int));
                assert(!part_ok(part));
                return false;
            }
            assert(part_ok(part));
        }
        proof {
            assert forall|k: int| 0 <= k < i + 1 && #[trigger] starts_part(v, k) implies part_ok(v.skip(k).take(part_len(v.skip(k)))) by {
                if k < i {
                } else {
                    assert(k == i);
                }
            }
        }
        i = i + 1;
    }
    true
}

/// Whether a directory is left out of a backup: its path, in lower case, is
/// one of the regenerated ones.
pub fn skips_directory(relative: &str) -> (b: bool)
    ensures
        b == exists|i: int| 0 <= i < 3 && lowered(relative@) == (#[trigger] SKIPPED_DIRS@[i])@,
{
    let s = chars_of(relative);
    let mut low: Vec<char> = Vec::new();
    let mut i: usize = 0;
    while i < s.len()
        invariant
            i <= s@.len(),
            s@ == relative@,
            low@ == lowered(s@.take(i as int)),
        decreases s@.len() - i,
    {
        low.push(lower_char(s[i]));
        assert(s@.take(i as int + 1) =~= s@.take(i as int).push(s@[i as int]));
        assert(low@ =~= lowered(s@.take(i as int + 1)));
        i = i + 1;
    }
    assert(s@.take(s@.len() as int) =~= s@);
    let mut k: usize = 0;
    while k < 3
        invariant
            k <= 3,
            low@ == lowered(relative@),
            forall|j: int| 0 <= j < k ==> lowered(relative@) != (#[trigger] SKIPPED_DIRS@[j])@,
        decreases 3 - k,
    {
        let name = chars_of(SKIPPED_DIRS[k]);
        if crate::text::same_chars(&low, &name) {
            assert(lowered(relative@) == (SKIPPED_DIRS@[k as int])@);
            return true;
        }
        k = k + 1;
    }
    false
}

/// The extension of a path's file name, when it has one.
fn extension_of(path: &Vec<char>) -> (out: Option<Vec<char>>)
    ensures
        match out {
            Some(e) => extension(file_name(path@)) == Some(e@),
            None => extension(file_name(path@)) is None,
        },
{
    let ghost s = path@;
    let mut end: usize = path.len();
    proof {
        crate::engine::lemma_trimmed(s);
    }
    while end > 0 && (path[end - 1] == '\\' || path[end - 1] == '/')
        invariant
            end <= s.len(),
            path@ == s,
            crate::engine::trimmed_len(s) <= end,
            crate::engine::trimmed_len(s) > 0 ==> !is_separator(s[crate::engine::trimmed_len(s) - 1]),
            forall|j: int| crate::engine::trimmed_len(s) <= j < s.len() ==> is_separator(#[trigger] s[j]),
        decreases end,
    {
        end = end - 1;
    }
    proof {
        if end > crate::engine::trimmed_len(s) {
            assert(is_separator(s[end - 1]));
        }
    }
    let mut start: usize = end;
    while start > 0 && !(path[start - 1] == '\\' || path[start - 1] == '/')
        invariant
            start <= end,
            end == crate::engine::trimmed_len(s),
            end <= s.len(),
            path@ == s,
            crate::engine::name_start(s, start as int) == crate::engine::name_start(s, end as int),
        decreases start,
    {
        start = start - 1;
    }
    let ghost name = s.subrange(start as int, end as int);
    assert(name == file_name(s));
    let mut dot: usize = end;
    while dot > start && path[dot - 1] != '.'
        invariant
            start <= dot <= end,
            end <= s.len(),
            path@ == s,
            name == s.subrange(start as int, end as int),
            forall|j: int| dot - start <= j < name.len() ==> #[trigger] name[j] != '.',
        decreases dot,
    {
        assert(name[dot - 1 - start] == s[dot - 1]);
        dot = dot - 1;
    }
    proof {
        if dot > start {
            assert(name[dot - 1 - start] == s[dot - 1]);
        }
        lemma_last_dot(name, dot - start - 1);
    }
    if dot > start + 1 {
        let mut e: Vec<char> = Vec::new();
        let mut i: usize = dot;
        while i < end
            invariant
                dot <= i <= end,
                end <= s.len(),
                path@ == s,
                e@ == s.subrange(dot as int, i as int),
            decreases end - i,
        {
            e.push(path[i]);
            assert(e@ =~= s.subrange(dot as int, i as int + 1));
            i = i + 1;
        }
        assert(e@ =~= name.skip(last_dot(name) + 1));
        Some(e)
    } else {
        None
    }
}

/// The relative path a file would be restored to, or nothing when it must
/// not be written: a name the app will not write, or a type a backup does
/// not hold.
pub fn permitted(relative: &str) -> (out: Option<String>)
    ensures
        out is Some <==> (relative_ok(relative@) && allowed_type(relative@)),
        out is Some ==> out->Some_0@ == relative@,
{
    if !validate_relative(relative) {
        return None;
    }
    let s = chars_of(relative);
    let ext = match extension_of(&s) {
        Some(e) => e,
        None => return None,
    };
    let mut low: Vec<char> = Vec::new();
    let mut i: usize = 0;
    while i < ext.len()
        invariant
            i <= ext@.len(),
            low@ == lowered(ext@.take(i as int)),
        decreases ext@.len() - i,
    {
        low.push(lower_char(ext[i]));
        assert(ext@.take(i as int + 1) =~= ext@.take(i as int).push(ext@[i as int]));
        assert(low@ =~= lowered(ext@.take(i as int + 1)));
        i = i + 1;
    }
    assert(ext@.take(ext@.len() as int) =~= ext@);
    let mut k: usize = 0;
    while k < 6
        invariant
            k <= 6,
            low@ == lowered(ext@),
            s@ == relative@,
            relative_ok(relative@),
            extension(file_name(relative@)) == Some(ext@),
            forall|j: int| 0 <= j < k ==> lowered(ext@) != (#[trigger] ALLOWED_EXTENSIONS@[j])@,
        decreases 6 - k,
    {
        let name = chars_of(ALLOWED_EXTENSIONS[k]);
        if crate::text::same_chars(&low, &name) {
            assert(lowered(ext@) == (ALLOWED_EXTENSIONS@[k as int])@);
            return Some(string_of(&s));
        }
        k = k + 1;
    }
    None
}

/// A backup is written only under a `.zip` name.
pub fn check_backup_name(dest: &str) -> (out: Result<(), AppError>)
    ensures
        out is Ok <==> extension(file_name(dest@)) == Some(seq!['z', 'i', 'p']),
        out is Err ==> out == Err::<(), AppError>(AppError::NotAZipName),
{
    let s = chars_of(dest);
    match extension_of(&s) {
        Some(e) => {
            if e.len() == 3 && e[0] == 'z' && e[1] == 'i' && e[2] == 'p' {
                assert(e@ =~= seq!['z', 'i', 'p']);
                Ok(())
            } else {
                Err(AppError::NotAZipName)
            }
        }
        None => Err(AppError::NotAZipName),
    }
}

/// The day of an ISO-8601 timestamp: everything before its first `T`.
pub open spec fn day_of(now: Seq<char>) -> Seq<char> {
    now.take(crate::backup::t_index(now))
}

/// Where the first `T` of `s` is, or its length.
pub open spec fn t_index(s: Seq<char>) -> int
    decreases s.len(),
{
    if s.len() == 0 || s[0] == 'T' { 0 } else { 1 + t_index(s.skip(1)) }
}

proof fn lemma_t_index(s: Seq<char>, k: int)
    requires
        0 <= k <= s.len(),
        forall|j: int| 0 <= j < k ==> #[trigger] s[j] != 'T',
        k == s.len() || s[k] == 'T',
    ensures
        t_index(s) == k,
    decreases k,
{
    if k > 0 {
        let u = s.skip(1);
        assert forall|j: int| 0 <= j < k - 1 implies #[trigger] u[j] != 'T' by {
            assert(u[j] == s[j + 1]);
        }
        if k - 1 < u.len() {
            assert(u[k - 1] == s[k]);
        }
        lemma_t_index(u, k - 1);
    }
}

/// The name a backup is offered under: dated, so a second backup does not
/// overwrite the first. `now` is the current time as an ISO-8601 timestamp.
pub fn suggested_name(now: &str) -> (name: String)
    ensures
        name@ == "cursed-backup-"@ + day_of(now@) + ".zip"@,
{
    let s = chars_of(now);
    let mut k: usize = 0;
    while k < s.len() && s[k] != 'T'
        invariant
            k <= s@.len(),
            forall|j: int| 0 <= j < k ==> #[trigger] s@[j] != 'T',
        decreases s@.len() - k,
    {
        k = k + 1;
    }
    proof {
        lemma_t_index(s@, k as int);
    }
    let mut day: Vec<char> = Vec::new();
    let mut i: usize = 0;
    while i < k
        invariant
            i <= k,
            k <= s@.len(),
            day@ == s@.take(i as int),
        decreases k - i,
    {
        day.push(s[i]);
        assert(day@ =~= s@.take(i as int + 1));
        i = i + 1;
    }
    let mut name = String::new();
    append(&mut name, "cursed-backup-");
    let day_text = string_of(&day);
    append(&mut name, day_text.as_str());
    append(&mut name, ".zip");
    name
}

/// What a restore does with one archive entry.
#[derive(Debug, Clone, Copy, PartialEq, Eq, Structural)]
pub enum EntryVerdict {
    /// Write it, reading at most `limit` bytes; `total` is the running
    /// total of declared bytes with this entry counted.
    Write { total: u64, limit: u64 },
    /// Leave it out: a name the app will not write.
    BadName,
    /// Leave it out: not a type a backup holds.
    BadType,
    /// Leave it out: it claims to expand more than [`MAX_RATIO`] times.
    TooExpansive,
    /// Stop the whole restore: the archive expands past [`MAX_UNCOMPRESSED`].
    TooLarge,
}

/// How one entry of a backup archive is treated, given its name (already
/// checked by the zip crate for traversal), its declared and compressed
/// sizes, and the declared bytes of the entries written before it.
///
/// The read limit is what is left of the budget plus the entry's own
/// declared size, because the declared size is written by whoever made the
/// archive and only the bytes that arrive cannot lie.
pub fn admit_entry(relative: &str, declared: u64, compressed: u64, total: u64) -> (v: EntryVerdict)
    requires
        total <= MAX_UNCOMPRESSED,
    ensures
        !relative_ok(relative@) ==> v == EntryVerdict::BadName,
        relative_ok(relative@) && !allowed_type(relative@) ==> v == EntryVerdict::BadType,
        relative_ok(relative@) && allowed_type(relative@) ==> {
            let c = if compressed < 1 { 1 } else { compressed as int };
            let t = total + declared;
            if declared as int / c > MAX_RATIO {
                v == EntryVerdict::TooExpansive
            } else if t > MAX_UNCOMPRESSED {
                v == EntryVerdict::TooLarge
            } else {
                v == EntryVerdict::Write { total: t as u64, limit: (MAX_UNCOMPRESSED - t + declared) as u64 }
            }
        },
{
    if !validate_relative(relative) {
        return EntryVerdict::BadName;
    }
    if permitted(relative).is_none() {
        return EntryVerdict::BadType;
    }
    let c: u64 = if compressed < 1 { 1 } else { compressed };
    if declared / c > MAX_RATIO {
        return EntryVerdict::TooExpansive;
    }
    if declared > MAX_UNCOMPRESSED - total {
        return EntryVerdict::TooLarge;
    }
    let t = total + declared;
    EntryVerdict::Write { total: t, limit: MAX_UNCOMPRESSED - t + declared }
}

/// What an export wrote.
pub struct BackupReport {
    /// Where the archive went.
    pub path: String,
    /// How many files it holds.
    pub files: usize,
    /// How many bytes of file contents it holds, before compression.
    pub bytes: u64,
}

/// The most refusals a restore report names; the count of skipped entries
/// still counts every one.
pub const MOST_PROBLEMS_NAMED: usize = 10;

/// What a restore did, built up entry by entry.
pub struct RestoreReport {
    pub files: usize,
    pub skipped: usize,
    /// Named so the user is told rather than left to notice: the first
    /// [`MOST_PROBLEMS_NAMED`] refusals, in the order they came.
    pub problems: Vec<String>,
}

impl RestoreReport {
    /// A restore that has not yet met an entry.
    pub fn new() -> (out: RestoreReport)
        ensures
            out.files == 0,
            out.skipped == 0,
            out.problems@.len() == 0,
    {
        RestoreReport { files: 0, skipped: 0, problems: Vec::new() }
    }

    /// One more file written.
    pub fn wrote(&mut self)
        requires
            old(self).files < usize::MAX,
        ensures
            final(self).files == old(self).files + 1,
            final(self).skipped == old(self).skipped,
            final(self).problems@ == old(self).problems@,
    {
        self.files = self.files + 1;
    }

    /// One more entry skipped, for the reason `problem`: named while fewer
    /// than [`MOST_PROBLEMS_NAMED`] are, counted in any case.
    pub fn skipped_for(&mut self, problem: String)
        requires
            old(self).skipped < usize::MAX,
        ensures
            final(self).files == old(self).files,
            final(self).skipped == old(self).skipped + 1,
            final(self).problems@ == (if old(self).problems@.len() < MOST_PROBLEMS_NAMED {
                old(self).problems@.push(problem)
            } else {
                old(self).problems@
            }),
    {
        self.skipped = self.skipped + 1;
        if self.problems.len() < MOST_PROBLEMS_NAMED {
            self.problems.push(problem);
        }
    }
}

} // verus!
