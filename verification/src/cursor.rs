//! What is committed, what it looks like from outside, and whether something
//! else has overwritten it.
//!
//! The registry and the live layer are written elsewhere; this holds the
//! record of what was applied and the decisions made from it.

use vstd::prelude::*;
use crate::scheme::CursorSet;
use crate::roles::{Role, ALL_ROLES, role_at, role_index, lemma_role_index};
use crate::scheme::lemma_role_at_index;
use crate::channel::{SCHEME_PREFIX, legacy_scheme_prefix, legacy_prefix_text};
use crate::text::{chars_of, string_of, has_prefix, chars_from, starts_with, same_chars, copy_text};
use crate::icon_reader::{is_ani_header, u16_le};

verus! {

/// The prefix every scheme this channel registers is named with.
pub open spec fn scheme_prefix() -> Seq<char> {
    "Cursed \u{2014} "@
}

/// What is currently committed. Held so the watchdog knows what "correct"
/// looks like without re-deriving it from disk.
#[derive(Debug)]
pub struct Applied {
    pub set: CursorSet,
    pub scheme_name: String,
    pub size: u32,
    pub pack_id: Option<String>,
    pub pack_name: Option<String>,
    pub tint: String,
}

/// What the home screen and the tray tooltip show.
#[derive(Debug)]
pub struct ActiveState {
    pub pack_id: Option<String>,
    pub pack_name: Option<String>,
    pub tint: String,
    pub size: u32,
    pub is_default: bool,
}

/// One pointer role, as Windows currently has it.
#[derive(Debug)]
pub struct RoleAudit {
    pub role: String,
    /// The registry value, unexpanded.
    pub value: String,
    /// Where that resolves to. Empty when the value is absent.
    pub resolved: String,
    /// Absent means "Windows draws its own", a real state and not a fault.
    pub set: bool,
    pub exists: bool,
    /// What the first bytes say it is.
    pub format: String,
    pub ok: bool,
}

/// The text of an optional string.
pub open spec fn opt_text(o: Option<String>) -> Option<Seq<char>> {
    match o {
        Some(s) => Some(s@),
        None => None,
    }
}

fn copy_opt(o: &Option<String>) -> (out: Option<String>)
    ensures
        opt_text(out) == opt_text(*o),
{
    match o {
        Some(s) => Some(copy_text(s.as_str())),
        None => None,
    }
}

/// The tint shown when nothing of ours is applied.
pub open spec fn default_tint() -> Seq<char> {
    "#2E8BFF"@
}

/// The name of a scheme with one of our prefixes stripped, if it has one:
/// the current prefix first, then the one from before the rename.
pub open spec fn our_pack_name(name: Seq<char>) -> Option<Seq<char>> {
    if starts_with(name, scheme_prefix()) {
        Some(name.skip(scheme_prefix().len() as int))
    } else if starts_with(name, legacy_prefix_text()) {
        Some(name.skip(legacy_prefix_text().len() as int))
    } else {
        None
    }
}

/// The record of what this session has applied.
pub struct Session {
    applied: Option<Applied>,
}

impl Session {
    /// Nothing applied yet.
    pub fn new() -> (out: Session)
        ensures
            out.current() is None,
    {
        Session { applied: None }
    }

    /// What is applied, if anything.
    pub closed spec fn current(&self) -> Option<Applied> {
        self.applied
    }

    /// What is applied, if anything.
    pub fn applied(&self) -> (out: Option<&Applied>)
        ensures
            match out {
                Some(a) => self.current() == Some(*a),
                None => self.current() is None,
            },
    {
        match &self.applied {
            Some(a) => Some(a),
            None => None,
        }
    }

    /// Records a scheme as the one applied, under this channel's prefix. Used
    /// both after a commit and at startup, where the registry already holds
    /// last session's scheme and re-applying it would be a pointless write.
    pub fn adopt(&mut self, set: CursorSet, display_name: &str, size: u32, pack_id: Option<String>, tint: String)
        ensures
            final(self).current() matches Some(a) && a.set == set && a.scheme_name@ == scheme_prefix()
                + display_name@ && a.size == size && a.pack_id == pack_id && opt_text(a.pack_name) == Some(
                display_name@,
            ) && a.tint == tint,
    {
        let mut name = chars_of(SCHEME_PREFIX);
        proof {
            reveal_strlit("Cursed \u{2014} ");
        }
        let rest = chars_of(display_name);
        let mut i: usize = 0;
        let ghost start = name@;
        while i < rest.len()
            invariant
                i <= rest@.len(),
                name@ == start + rest@.take(i as int),
            decreases rest@.len() - i,
        {
            name.push(rest[i]);
            assert(name@ =~= start + rest@.take(i as int + 1));
            i = i + 1;
        }
        assert(rest@.take(rest@.len() as int) =~= rest@);
        let scheme_name = string_of(&name);
        self.applied = Some(Applied {
            set,
            scheme_name,
            size,
            pack_id,
            pack_name: Some(copy_text(display_name)),
            tint,
        });
    }

    /// Forgets what was applied, after the machine has been restored.
    pub fn forget(&mut self)
        ensures
            final(self).current() is None,
    {
        self.applied = None;
    }

    /// What to show as the current pointer. When nothing has been applied
    /// this session, the scheme still live from an earlier one is named from
    /// the registry, an earlier version's prefix included; otherwise the
    /// pointer is Windows' own.
    pub fn active_state(&self, scheme_name: &str, base_size: u32) -> (out: ActiveState)
        ensures
            match self.current() {
                Some(a) => opt_text(out.pack_id) == opt_text(a.pack_id) && opt_text(out.pack_name) == opt_text(
                    a.pack_name,
                ) && out.tint@ == a.tint@ && out.size == a.size && !out.is_default,
                None => match our_pack_name(scheme_name@) {
                    Some(p) if p.len() > 0 => out.pack_id is None && opt_text(out.pack_name) == Some(p)
                        && out.tint@ == default_tint() && out.size == base_size && !out.is_default,
                    _ => out.pack_id is None && out.pack_name is None && out.tint@ == default_tint()
                        && out.size == base_size && out.is_default,
                },
            },
    {
        proof {
            reveal_strlit("#2E8BFF");
        }
        match &self.applied {
            Some(a) => ActiveState {
                pack_id: copy_opt(&a.pack_id),
                pack_name: copy_opt(&a.pack_name),
                tint: copy_text(a.tint.as_str()),
                size: a.size,
                is_default: false,
            },
            None => {
                let name = chars_of(scheme_name);
                let prefix = chars_of(SCHEME_PREFIX);
                proof {
                    reveal_strlit("Cursed \u{2014} ");
                }
                let stripped: Option<Vec<char>> = if has_prefix(&name, &prefix) {
                    Some(chars_from(&name, prefix.len()))
                } else {
                    match legacy_scheme_prefix() {
                        Some(old) => {
                            let old = chars_of(old);
                            if has_prefix(&name, &old) {
                                Some(chars_from(&name, old.len()))
                            } else {
                                None
                            }
                        },
                        None => None,
                    }
                };
                match stripped {
                    Some(p) if p.len() > 0 => ActiveState {
                        pack_id: None,
                        pack_name: Some(string_of(&p)),
                        tint: copy_text("#2E8BFF"),
                        size: base_size,
                        is_default: false,
                    },
                    _ => ActiveState {
                        pack_id: None,
                        pack_name: None,
                        tint: copy_text("#2E8BFF"),
                        size: base_size,
                        is_default: true,
                    },
                }
            },
        }
    }
}

/// A path separator, either way round.
pub open spec fn is_sep(c: char) -> bool {
    c == '\\' || c == '/'
}

/// The finished non-empty components of `s`, and the one still being read.
pub open spec fn split_state(s: Seq<char>) -> (Seq<Seq<char>>, Seq<char>)
    decreases s.len(),
{
    if s.len() == 0 {
        (Seq::empty(), Seq::empty())
    } else {
        let (done, cur) = split_state(s.drop_last());
        if is_sep(s.last()) {
            (if cur.len() > 0 { done.push(cur) } else { done }, Seq::empty())
        } else {
            (done, cur.push(s.last()))
        }
    }
}

/// The non-empty components of a path, in order.
pub open spec fn components(s: Seq<char>) -> Seq<Seq<char>> {
    let (done, cur) = split_state(s);
    if cur.len() > 0 { done.push(cur) } else { done }
}

/// Components joined with backslashes.
pub open spec fn joined(parts: Seq<Seq<char>>) -> Seq<char>
    decreases parts.len(),
{
    if parts.len() == 0 {
        Seq::empty()
    } else if parts.len() == 1 {
        parts[0]
    } else {
        joined(parts.drop_last()) + seq!['\\'] + parts.last()
    }
}

/// ASCII letters in lower case; everything else as it is.
pub open spec fn lower(c: char) -> char {
    if 'A' <= c <= 'Z' { ((c as u32) + 32) as char } else { c }
}

/// The last three components of a path, joined with backslashes and in
/// lower case: enough to tell one of our cursors from another, and from a
/// stock Windows one, whether the path is written with `%APPDATA%` or
/// absolutely.
pub open spec fn tail_of(s: Seq<char>) -> Seq<char> {
    let parts = components(s);
    let last = if parts.len() <= 3 { parts } else { parts.skip(parts.len() - 3) };
    lower_all(joined(last))
}

/// Every ASCII letter in lower case.
pub open spec fn lower_all(s: Seq<char>) -> Seq<char> {
    s.map_values(|c: char| lower(c))
}

fn lower_char(c: char) -> (out: char)
    ensures
        out == lower(c),
{
    if 'A' <= c && c <= 'Z' {
        let v = (c as u32) + 32;
        proof {
            assert(0x61 <= v <= 0x7a);
        }
        char_from_ascii(v)
    } else {
        c
    }
}

/// The character with an ASCII code point.
fn char_from_ascii(v: u32) -> (c: char)
    requires
        v < 128,
    ensures
        c == v as char,
{
    (v as u8) as char
}

/// The last three components of a cursor path, lowercased, for comparison.
/// The registry stores an unexpanded `%APPDATA%\...` string, so the head of
/// a path cannot be compared; the tail can, and three components name the
/// pack, the appearance and the file.
pub fn path_tail(text: &str) -> (out: String)
    ensures
        out@ == tail_of(text@),
{
    let chars = chars_of(text);
    let ghost s = chars@;
    let mut done: Vec<Vec<char>> = Vec::new();
    let mut cur: Vec<char> = Vec::new();
    let mut i: usize = 0;
    assert(s.take(0) =~= Seq::<char>::empty());
    while i < chars.len()
        invariant
            s == chars@,
            i <= s.len(),
            (done@.map_values(|p: Vec<char>| p@), cur@) == split_state(s.take(i as int)),
        decreases s.len() - i,
    {
        let c = chars[i];
        assert(s.take(i as int + 1).drop_last() =~= s.take(i as int));
        assert(s.take(i as int + 1).last() == c);
        let ghost before = done@.map_values(|p: Vec<char>| p@);
        if c == '\\' || c == '/' {
            if cur.len() > 0 {
                let finished = cur;
                done.push(finished);
                cur = Vec::new();
            } else {
                cur = Vec::new();
            }
        } else {
            cur.push(c);
        }
        assert(done@.map_values(|p: Vec<char>| p@) =~= (if c == '\\' || c == '/' {
            let (d, k) = split_state(s.take(i as int));
            if k.len() > 0 { d.push(k) } else { d }
        } else {
            before
        }));
        i = i + 1;
    }
    assert(s.take(s.len() as int) =~= s);
    if cur.len() > 0 {
        done.push(cur);
    }
    let ghost parts = done@.map_values(|p: Vec<char>| p@);
    assert(parts =~= components(s));
    let n = done.len();
    let start = if n <= 3 { 0 } else { n - 3 };
    let ghost last = if parts.len() <= 3 { parts } else { parts.skip(parts.len() - 3) };
    let mut out: Vec<char> = Vec::new();
    let mut j: usize = start;
    assert(parts.subrange(start as int, start as int) =~= Seq::<Seq<char>>::empty());
    while j < n
        invariant
            n == done@.len(),
            parts == done@.map_values(|p: Vec<char>| p@),
            start <= j <= n,
            out@ == joined(parts.subrange(start as int, j as int)),
        decreases n - j,
    {
        if j > start {
            out.push('\\');
        }
        let part = &done[j];
        let mut k: usize = 0;
        let ghost base = out@;
        while k < part.len()
            invariant
                k <= part@.len(),
                out@ == base + part@.take(k as int),
            decreases part@.len() - k,
        {
            out.push(part[k]);
            assert(out@ =~= base + part@.take(k as int + 1));
            k = k + 1;
        }
        assert(part@.take(part@.len() as int) =~= part@);
        proof {
            let sub = parts.subrange(start as int, j as int + 1);
            assert(sub.drop_last() =~= parts.subrange(start as int, j as int));
            assert(sub.last() == part@);
            if j == start {
                assert(sub.len() == 1);
                assert(out@ =~= sub[0]);
            }
        }
        j = j + 1;
    }
    assert(parts.subrange(start as int, n as int) =~= last);
    let mut lowered: Vec<char> = Vec::new();
    let mut k: usize = 0;
    while k < out.len()
        invariant
            k <= out@.len(),
            lowered@ == lower_all(out@.take(k as int)),
        decreases out@.len() - k,
    {
        lowered.push(lower_char(out[k]));
        assert(lowered@ =~= lower_all(out@.take(k as int + 1)));
        k = k + 1;
    }
    assert(out@.take(out@.len() as int) =~= out@);
    string_of(&lowered)
}

/// The registry no longer holds what was committed: some role of the set,
/// with a comparable path, reads back as a different cursor. `current[i]` is
/// the value of role `i` in [`ALL_ROLES`] order, or nothing where it could
/// not be read.
pub open spec fn drifted_from(files: Map<Role, Seq<char>>, current: Seq<Option<Seq<char>>>) -> bool {
    exists|i: int|
        #![trigger current[i]]
        0 <= i < 17 && files.dom().contains(role_at(i)) && current[i] is Some && tail_of(files[role_at(i)]).len()
            > 0 && tail_of(current[i]->Some_0) != tail_of(files[role_at(i)])
}

/// The text of each optional registry value.
pub open spec fn opt_texts(v: Seq<Option<String>>) -> Seq<Option<Seq<char>>> {
    v.map_values(|o: Option<String>| opt_text(o))
}

impl Session {
    /// True when the registry no longer reflects what was committed: a theme
    /// change, a personalisation reset, or another cursor tool. Every role of
    /// the set is checked, not only the arrow.
    pub fn drifted(&self, current: &Vec<Option<String>>) -> (b: bool)
        requires
            current@.len() == 17,
        ensures
            b == match self.current() {
                None => false,
                Some(a) => drifted_from(a.set.files(), opt_texts(current@)),
            },
    {
        let a = match &self.applied {
            Some(a) => a,
            None => return false,
        };
        assert(self.current() == Some(*a));
        let ghost files = a.set.files();
        let ghost cur = opt_texts(current@);
        let mut i: usize = 0;
        while i < 17
            invariant
                i <= 17,
                current@.len() == 17,
                self.current() == Some(*a),
                files == a.set.files(),
                cur == opt_texts(current@),
                forall|j: int|
                    #![trigger cur[j]]
                    0 <= j < i ==> !(files.dom().contains(role_at(j)) && cur[j] is Some && tail_of(
                        files[role_at(j)],
                    ).len() > 0 && tail_of(cur[j]->Some_0) != tail_of(files[role_at(j)])),
            decreases 17 - i,
        {
            let role = ALL_ROLES[i];
            proof {
                lemma_role_at_index(i as int);
            }
            match a.set.get(role) {
                Some(expected) => {
                    match &current[i] {
                        Some(now) => {
                            let want = path_tail(expected.as_str());
                            let got = path_tail(now.as_str());
                            let want_chars = chars_of(want.as_str());
                            let got_chars = chars_of(got.as_str());
                            if want_chars.len() > 0 && !same_chars(&got_chars, &want_chars) {
                                assert(role == role_at(i as int));
                                assert(files.dom().contains(role_at(i as int)));
                                assert(expected@ == files[role_at(i as int)]);
                                assert(cur[i as int] == Some(now@));
                                assert(tail_of(files[role_at(i as int)]).len() > 0);
                                assert(tail_of(now@) != tail_of(files[role_at(i as int)]));
                                assert(drifted_from(files, cur));
                                return true;
                            }
                        },
                        None => {},
                    }
                },
                None => {},
            }
            i = i + 1;
        }
        false
    }
}

/// What was just committed is not drift: when every role of the set reads
/// back as the path it was committed with, nothing has drifted.
pub proof fn law_committed_is_not_drift(files: Map<Role, Seq<char>>, current: Seq<Option<Seq<char>>>)
    requires
        current.len() == 17,
        forall|i: int| 0 <= i < 17 && files.dom().contains(#[trigger] role_at(i)) ==> current[i] == Some(files[role_at(i)]),
    ensures
        !drifted_from(files, current),
{
}

/// Two paths that differ only in which separator they use and in the case
/// of their letters.
pub open spec fn same_but_for_format(s: Seq<char>, t: Seq<char>) -> bool {
    &&& s.len() == t.len()
    &&& forall|i: int| 0 <= i < s.len() ==> (is_sep(#[trigger] s[i]) <==> is_sep(t[i]))
    &&& forall|i: int| 0 <= i < s.len() && !is_sep(s[i]) ==> lower(#[trigger] s[i]) == lower(t[i])
}

/// Runs of components that match once lower-cased.
pub open spec fn same_parts(p: Seq<Seq<char>>, q: Seq<Seq<char>>) -> bool {
    p.len() == q.len() && forall|j: int| 0 <= j < p.len() ==> lower_all(#[trigger] p[j]) == lower_all(q[j])
}

/// Splitting two paths that differ only in format gives components that
/// match once lower-cased.
proof fn lemma_split_same(s: Seq<char>, t: Seq<char>, k: int)
    requires
        same_but_for_format(s, t),
        0 <= k <= s.len(),
    ensures
        same_parts(split_state(s.take(k)).0, split_state(t.take(k)).0),
        lower_all(split_state(s.take(k)).1) == lower_all(split_state(t.take(k)).1),
    decreases k,
{
    if k > 0 {
        lemma_split_same(s, t, k - 1);
        let sk = s.take(k);
        let tk = t.take(k);
        assert(sk.drop_last() =~= s.take(k - 1));
        assert(tk.drop_last() =~= t.take(k - 1));
        assert(sk.last() == s[k - 1]);
        assert(tk.last() == t[k - 1]);
        let (ds, cs) = split_state(s.take(k - 1));
        let (dt, ct) = split_state(t.take(k - 1));
        assert(is_sep(s[k - 1]) <==> is_sep(t[k - 1]));
        if is_sep(s[k - 1]) {
            assert(cs.len() == lower_all(cs).len());
            assert(ct.len() == lower_all(ct).len());
            if cs.len() > 0 {
                assert(same_parts(ds.push(cs), dt.push(ct))) by {
                    assert forall|j: int| 0 <= j < ds.push(cs).len() implies lower_all(#[trigger] ds.push(cs)[j])
                        == lower_all(dt.push(ct)[j]) by {
                        if j < ds.len() {
                            assert(lower_all(ds[j]) == lower_all(dt[j]));
                        }
                    }
                }
            }
            assert(lower_all(Seq::<char>::empty()) =~= Seq::<char>::empty());
        } else {
            assert(lower(s[k - 1]) == lower(t[k - 1]));
            assert(lower_all(cs.push(s[k - 1])) =~= lower_all(cs).push(lower(s[k - 1])));
            assert(lower_all(ct.push(t[k - 1])) =~= lower_all(ct).push(lower(t[k - 1])));
        }
    }
}

/// Lower-casing distributes over joining.
proof fn lemma_joined_same(p: Seq<Seq<char>>, q: Seq<Seq<char>>)
    requires
        same_parts(p, q),
    ensures
        lower_all(joined(p)) == lower_all(joined(q)),
    decreases p.len(),
{
    if p.len() == 1 {
        assert(lower_all(p[0]) == lower_all(q[0]));
    } else if p.len() > 1 {
        let (p0, q0) = (p.drop_last(), q.drop_last());
        assert(same_parts(p0, q0)) by {
            assert forall|j: int| 0 <= j < p0.len() implies lower_all(#[trigger] p0[j]) == lower_all(q0[j]) by {
                assert(lower_all(p[j]) == lower_all(q[j]));
            }
        }
        lemma_joined_same(p0, q0);
        assert(lower_all(p.last()) == lower_all(q[q.len() - 1]));
        let (a, b) = (joined(p0), p.last());
        let (c, d) = (joined(q0), q.last());
        assert(lower_all(a + seq!['\\'] + b) =~= lower_all(a) + seq!['\\'] + lower_all(b));
        assert(lower_all(c + seq!['\\'] + d) =~= lower_all(c) + seq!['\\'] + lower_all(d));
    }
}

/// Separator and case are formatting, not identity: two paths that differ
/// only in those have the same tail, so a cursor written once with
/// backslashes and once with forward slashes, or in another case, is the
/// same cursor.
pub proof fn law_tail_ignores_format(s: Seq<char>, t: Seq<char>)
    requires
        same_but_for_format(s, t),
    ensures
        tail_of(s) == tail_of(t),
{
    lemma_split_same(s, t, s.len() as int);
    assert(s.take(s.len() as int) =~= s);
    assert(t.take(t.len() as int) =~= t);
    let (ds, cs) = split_state(s);
    let (dt, ct) = split_state(t);
    assert(cs.len() == lower_all(cs).len() && ct.len() == lower_all(ct).len());
    let (ps, pt) = (components(s), components(t));
    assert(same_parts(ps, pt)) by {
        if cs.len() > 0 {
            assert forall|j: int| 0 <= j < ps.len() implies lower_all(#[trigger] ps[j]) == lower_all(pt[j]) by {
                if j < ds.len() {
                    assert(lower_all(ds[j]) == lower_all(dt[j]));
                }
            }
        }
    }
    let ls = if ps.len() <= 3 { ps } else { ps.skip(ps.len() - 3) };
    let lt = if pt.len() <= 3 { pt } else { pt.skip(pt.len() - 3) };
    assert(same_parts(ls, lt)) by {
        assert forall|j: int| 0 <= j < ls.len() implies lower_all(#[trigger] ls[j]) == lower_all(lt[j]) by {
            if ps.len() > 3 {
                assert(ls[j] == ps[j + ps.len() - 3]);
                assert(lower_all(ps[j + ps.len() - 3]) == lower_all(pt[j + pt.len() - 3]));
            } else {
                assert(lower_all(ps[j]) == lower_all(pt[j]));
            }
        }
    }
    lemma_joined_same(ls, lt);
}

} // verus!

verus! {

/// What the first bytes of a cursor file say it is.
#[derive(Debug, Clone, Copy, PartialEq, Eq, Structural)]
pub enum FileKind {
    /// The file could not be read.
    Unreadable,
    /// Fewer than twelve bytes: too short to be either kind.
    TooShort,
    /// RIFF with an `ACON` form type: an animated cursor.
    Ani,
    /// An icon directory of type 2 with at least one image: a static cursor.
    Cur,
    /// An icon directory of type 1, which Windows will not use as a cursor.
    Icon,
    /// Anything else.
    NotACursor,
}

impl FileKind {
    /// How the audit reports it.
    pub fn describe(self) -> (text: &'static str)
        ensures
            text@ == kind_text(self),
    {
        match self {
            FileKind::Unreadable => "unreadable",
            FileKind::TooShort => "too short",
            FileKind::Ani => "ani",
            FileKind::Cur => "cur",
            FileKind::Icon => "an icon, not a cursor",
            FileKind::NotACursor => "not a cursor file",
        }
    }
}

pub open spec fn kind_text(k: FileKind) -> Seq<char> {
    match k {
        FileKind::Unreadable => "unreadable"@,
        FileKind::TooShort => "too short"@,
        FileKind::Ani => "ani"@,
        FileKind::Cur => "cur"@,
        FileKind::Icon => "an icon, not a cursor"@,
        FileKind::NotACursor => "not a cursor file"@,
    }
}

/// A little-endian 16-bit field.
pub open spec fn le_u16(b: Seq<u8>, at: int) -> int {
    b[at] as int + 256 * (b[at + 1] as int)
}

/// The kind a file's bytes declare, read rather than inferred from the
/// extension: a `.cur` that is really a PNG loads as nothing.
pub open spec fn kind_of(bytes: Option<Seq<u8>>) -> FileKind {
    match bytes {
        None => FileKind::Unreadable,
        Some(b) => if b.len() < 12 {
            FileKind::TooShort
        } else if b.take(4) == seq![0x52u8, 0x49, 0x46, 0x46] && b.subrange(8, 12) == seq![0x41u8, 0x43, 0x4f, 0x4e] {
            FileKind::Ani
        } else if le_u16(b, 0) == 0 && le_u16(b, 2) == 2 && le_u16(b, 4) > 0 {
            FileKind::Cur
        } else if le_u16(b, 0) == 0 && le_u16(b, 2) == 1 {
            FileKind::Icon
        } else {
            FileKind::NotACursor
        },
    }
}

/// What a cursor file's first bytes say it is; `None` when it could not be
/// read.
pub fn describe_cursor_file(bytes: Option<&Vec<u8>>) -> (kind: FileKind)
    ensures
        kind == kind_of(match bytes { Some(b) => Some(b@), None => None }),
{
    let b = match bytes {
        Some(b) => b,
        None => return FileKind::Unreadable,
    };
    if b.len() < 12 {
        return FileKind::TooShort;
    }
    let riff = b[0] == 0x52 && b[1] == 0x49 && b[2] == 0x46 && b[3] == 0x46;
    let acon = b[8] == 0x41 && b[9] == 0x43 && b[10] == 0x4f && b[11] == 0x4e;
    proof {
        if riff {
            assert(b@.take(4) =~= seq![0x52u8, 0x49, 0x46, 0x46]);
        } else {
            assert(b@.take(4) != seq![0x52u8, 0x49, 0x46, 0x46]) by {
                if b@.take(4) == seq![0x52u8, 0x49, 0x46, 0x46] {
                    assert(b@.take(4)[0] == b@[0] && b@.take(4)[1] == b@[1] && b@.take(4)[2] == b@[2] && b@.take(4)[3] == b@[3]);
                }
            }
        }
        if acon {
            assert(b@.subrange(8, 12) =~= seq![0x41u8, 0x43, 0x4f, 0x4e]);
        } else {
            assert(b@.subrange(8, 12) != seq![0x41u8, 0x43, 0x4f, 0x4e]) by {
                if b@.subrange(8, 12) == seq![0x41u8, 0x43, 0x4f, 0x4e] {
                    assert(b@.subrange(8, 12)[0] == b@[8] && b@.subrange(8, 12)[1] == b@[9] && b@.subrange(8, 12)[2] == b@[10] && b@.subrange(8, 12)[3] == b@[11]);
                }
            }
        }
    }
    if riff && acon {
        return FileKind::Ani;
    }
    let reserved = b[0] as u32 + 256 * (b[1] as u32);
    let kind = b[2] as u32 + 256 * (b[3] as u32);
    let count = b[4] as u32 + 256 * (b[5] as u32);
    if reserved == 0 && kind == 2 && count > 0 {
        FileKind::Cur
    } else if reserved == 0 && kind == 1 {
        FileKind::Icon
    } else {
        FileKind::NotACursor
    }
}

/// One role's audit, from what was read of it: its registry value (empty
/// when absent), where that resolves to, whether the file is there, and what
/// its bytes say it is. An absent value is Windows drawing its own pointer,
/// which is not a fault; a set one is sound only when the file is there and
/// is a cursor or an animated cursor.
pub fn audit_role(role: crate::roles::Role, value: String, resolved: String, exists: bool, kind: FileKind) -> (out: RoleAudit)
    ensures
        out.role@ == crate::roles::role_name(role),
        out.value == value,
        value@.len() == 0 ==> !out.set && !out.exists && out.ok && out.resolved@.len() == 0 && out.format@
            == "windows default"@,
        value@.len() > 0 ==> out.set && out.exists == exists && out.resolved == resolved && out.format@ == (if exists {
            kind_text(kind)
        } else {
            "missing"@
        }) && out.ok == (exists && (kind == FileKind::Cur || kind == FileKind::Ani)),
{
    let name = copy_text(role.registry_value());
    let empty = chars_of(value.as_str()).len() == 0;
    if empty {
        return RoleAudit {
            role: name,
            value,
            resolved: String::new(),
            set: false,
            exists: false,
            format: copy_text("windows default"),
            ok: true,
        };
    }
    let format = if exists { copy_text(kind.describe()) } else { copy_text("missing") };
    let ok = exists && (kind == FileKind::Cur || kind == FileKind::Ani);
    RoleAudit { role: name, value, resolved, set: true, exists, format, ok }
}

} // verus!
