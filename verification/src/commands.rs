//! The decisions behind the commands the front end can call: which roles an
//! apply mode covers, what size a request comes to, which links may be
//! opened, and what the changelog says of a version.
//!
//! The front end hands over values, never locations, and each is checked
//! here before anything acts on it.

use vstd::prelude::*;
use crate::roles::{Role, ALL_ROLES, RECOMMENDED_ROLES};
use crate::settings::{ApplyMode, MIN_CURSOR_PX, MAX_CURSOR_PX};
use crate::engine::{is_nearest, clamped};
use crate::error::AppError;
use crate::text::{chars_of, same_chars};
use crate::pipeline::nearest_size;

verus! {

/// The one role an arrow-only apply covers.
pub const ARROW_ONLY: [Role; 1] = [Role::Arrow];

/// The roles an apply mode covers, in the order the Pointers tab lists them.
pub open spec fn mode_roles(mode: ApplyMode) -> Seq<Role> {
    match mode {
        ApplyMode::ArrowOnly => seq![Role::Arrow],
        ApplyMode::Recommended => RECOMMENDED_ROLES@,
        ApplyMode::All | ApplyMode::Blend => ALL_ROLES@,
    }
}

/// The roles an apply mode covers. Roles left out are deleted from the
/// scheme, which is how Windows is told to use its own. A complete pack has
/// nothing to blend with, so blending covers every role.
pub fn roles_for(mode: ApplyMode) -> (roles: &'static [Role])
    ensures
        roles@ == mode_roles(mode),
{
    match mode {
        ApplyMode::ArrowOnly => {
            let r = ARROW_ONLY.as_slice();
            assert(r@ =~= seq![Role::Arrow]);
            r
        }
        ApplyMode::Recommended => RECOMMENDED_ROLES.as_slice(),
        ApplyMode::All | ApplyMode::Blend => ALL_ROLES.as_slice(),
    }
}

/// The size to render a request at. Zero, and only zero, means "not
/// specified": then the size is the one inherited (the configured size, or
/// what Windows reports), as [`crate::engine::effective_size`] settles it.
/// Any other request is held to the offered range and snapped to the ladder,
/// the same as every other way a size reaches the renderer.
pub fn effective_size(requested: u32, inherited: Option<u32>) -> (size: u32)
    ensures
        requested == 0 ==> is_nearest(size, clamped(match inherited { Some(a) => a as int, None => 32 })),
        requested != 0 ==> is_nearest(size, clamped(requested as int)),
{
    if requested == 0 {
        return crate::engine::effective_size(inherited);
    }
    let held: u32 = if requested < MIN_CURSOR_PX {
        MIN_CURSOR_PX
    } else if requested > MAX_CURSOR_PX {
        MAX_CURSOR_PX
    } else {
        requested
    };
    nearest_size(held)
}

/// Every URL the app is allowed to hand to a browser.
pub const ALLOWED_EXTERNAL: [&'static str; 4] = [
    "https://github.com/notfeylo/cursed",
    "https://github.com/notfeylo/cursed/issues",
    "https://github.com/notfeylo/cursed/releases",
    "https://github.com/notfeylo/cursed/releases/latest",
];

/// A link on the allow-list, matched whole.
pub open spec fn allowed_link(url: Seq<char>) -> bool {
    exists|i: int| 0 <= i < 4 && (#[trigger] ALLOWED_EXTERNAL@[i])@ == url
}

/// Whether a link may be opened: only one of ours, matched exactly. A
/// command that opened any URL would be a launcher reachable from web
/// content.
pub fn check_external(url: &str) -> (out: Result<(), AppError>)
    ensures
        out is Ok <==> allowed_link(url@),
        out is Err ==> out == Err::<(), AppError>(AppError::LinkNotAllowed),
{
    let wanted = chars_of(url);
    let mut i: usize = 0;
    while i < 4
        invariant
            i <= 4,
            wanted@ == url@,
            forall|k: int| 0 <= k < i ==> (#[trigger] ALLOWED_EXTERNAL@[k])@ != url@,
        decreases 4 - i,
    {
        let candidate = chars_of(ALLOWED_EXTERNAL[i]);
        if same_chars(&candidate, &wanted) {
            assert((ALLOWED_EXTERNAL@[i as int])@ == url@);
            return Ok(());
        }
        i = i + 1;
    }
    Err(AppError::LinkNotAllowed)
}

} // verus!

verus! {

/// A character `char::is_whitespace` accepts: Unicode White_Space.
pub open spec fn is_space(c: char) -> bool {
    ('\t' <= c && c <= '\r') || c == ' ' || c == '\u{85}' || c == '\u{A0}' || c == '\u{1680}' || ('\u{2000}'
        <= c && c <= '\u{200A}') || c == '\u{2028}' || c == '\u{2029}' || c == '\u{202F}' || c == '\u{205F}' || c
        == '\u{3000}'
}

fn space(c: char) -> (b: bool)
    ensures
        b == is_space(c),
{
    ('\t' <= c && c <= '\r') || c == ' ' || c == '\u{85}' || c == '\u{A0}' || c == '\u{1680}' || ('\u{2000}'
        <= c && c <= '\u{200A}') || c == '\u{2028}' || c == '\u{2029}' || c == '\u{202F}' || c == '\u{205F}' || c
        == '\u{3000}'
}

/// How many whitespace characters `s` begins with.
pub open spec fn lead(s: Seq<char>) -> int
    decreases s.len(),
{
    if s.len() > 0 && is_space(s[0]) { 1 + lead(s.skip(1)) } else { 0 }
}

/// How many whitespace characters `s` ends with.
pub open spec fn trail(s: Seq<char>) -> int
    decreases s.len(),
{
    if s.len() > 0 && is_space(s.last()) { 1 + trail(s.drop_last()) } else { 0 }
}

/// `s` without whitespace at either end, as `str::trim` gives it.
pub open spec fn trimmed(s: Seq<char>) -> Seq<char> {
    let t = s.skip(lead(s));
    t.take(t.len() - trail(t))
}

/// How many `v` characters `s` begins with.
pub open spec fn vees(s: Seq<char>) -> int
    decreases s.len(),
{
    if s.len() > 0 && s[0] == 'v' { 1 + vees(s.skip(1)) } else { 0 }
}

/// Where the first line feed of `s` is, or its length when it has none.
pub open spec fn nl_index(s: Seq<char>) -> int
    decreases s.len(),
{
    if s.len() == 0 || s[0] == '\n' { 0 } else { 1 + nl_index(s.skip(1)) }
}

/// How many characters `s` begins with before its first whitespace.
pub open spec fn word_len(s: Seq<char>) -> int
    decreases s.len(),
{
    if s.len() == 0 || is_space(s[0]) { 0 } else { 1 + word_len(s.skip(1)) }
}

proof fn lemma_lead(s: Seq<char>, k: int)
    requires
        0 <= k <= s.len(),
        forall|j: int| 0 <= j < k ==> is_space(#[trigger] s[j]),
        k == s.len() || !is_space(s[k]),
    ensures
        lead(s) == k,
    decreases k,
{
    if k > 0 {
        let t = s.skip(1);
        assert forall|j: int| 0 <= j < k - 1 implies is_space(#[trigger] t[j]) by {
            assert(t[j] == s[j + 1]);
        }
        if k - 1 < t.len() {
            assert(t[k - 1] == s[k]);
        }
        lemma_lead(t, k - 1);
    }
}

proof fn lemma_trail(s: Seq<char>, k: int)
    requires
        0 <= k <= s.len(),
        forall|j: int| s.len() - k <= j < s.len() ==> is_space(#[trigger] s[j]),
        k == s.len() || !is_space(s[s.len() - k - 1]),
    ensures
        trail(s) == k,
    decreases k,
{
    if k > 0 {
        let t = s.drop_last();
        assert(is_space(s[s.len() - 1]));
        assert forall|j: int| t.len() - (k - 1) <= j < t.len() implies is_space(#[trigger] t[j]) by {
            assert(t[j] == s[j]);
        }
        if k - 1 < t.len() {
            assert(t[t.len() - (k - 1) - 1] == s[s.len() - k - 1]);
        }
        lemma_trail(t, k - 1);
    }
}

proof fn lemma_vees(s: Seq<char>, k: int)
    requires
        0 <= k <= s.len(),
        forall|j: int| 0 <= j < k ==> #[trigger] s[j] == 'v',
        k == s.len() || s[k] != 'v',
    ensures
        vees(s) == k,
    decreases k,
{
    if k > 0 {
        let t = s.skip(1);
        assert forall|j: int| 0 <= j < k - 1 implies #[trigger] t[j] == 'v' by {
            assert(t[j] == s[j + 1]);
        }
        if k - 1 < t.len() {
            assert(t[k - 1] == s[k]);
        }
        lemma_vees(t, k - 1);
    }
}

proof fn lemma_nl_index(s: Seq<char>, k: int)
    requires
        0 <= k <= s.len(),
        forall|j: int| 0 <= j < k ==> #[trigger] s[j] != '\n',
        k == s.len() || s[k] == '\n',
    ensures
        nl_index(s) == k,
    decreases k,
{
    if k > 0 {
        let t = s.skip(1);
        assert forall|j: int| 0 <= j < k - 1 implies #[trigger] t[j] != '\n' by {
            assert(t[j] == s[j + 1]);
        }
        if k - 1 < t.len() {
            assert(t[k - 1] == s[k]);
        }
        lemma_nl_index(t, k - 1);
    }
}

proof fn lemma_word_len(s: Seq<char>, k: int)
    requires
        0 <= k <= s.len(),
        forall|j: int| 0 <= j < k ==> !is_space(#[trigger] s[j]),
        k == s.len() || is_space(s[k]),
    ensures
        word_len(s) == k,
    decreases k,
{
    if k > 0 {
        let t = s.skip(1);
        assert forall|j: int| 0 <= j < k - 1 implies !is_space(#[trigger] t[j]) by {
            assert(t[j] == s[j + 1]);
        }
        if k - 1 < t.len() {
            assert(t[k - 1] == s[k]);
        }
        lemma_word_len(t, k - 1);
    }
}

pub proof fn lemma_nl_bounds(s: Seq<char>)
    ensures
        0 <= nl_index(s) <= s.len(),
        nl_index(s) < s.len() ==> s[nl_index(s)] == '\n',
    decreases s.len(),
{
    if s.len() > 0 && s[0] != '\n' {
        lemma_nl_bounds(s.skip(1));
    }
}

/// The lines of `s` as `str::lines` gives them: split at each line feed, a
/// carriage return before it dropped, and no empty line after a final feed.
pub open spec fn lines(s: Seq<char>) -> Seq<Seq<char>>
    decreases s.len(),
{
    if s.len() == 0 {
        Seq::empty()
    } else {
        let i = nl_index(s);
        proof {
            lemma_nl_bounds(s);
        }
        if i >= s.len() {
            seq![s]
        } else {
            let line = s.take(i);
            let line = if line.len() > 0 && line.last() == '\r' { line.drop_last() } else { line };
            seq![line] + lines(s.skip(i + 1))
        }
    }
}

/// The line that opens each changelog section.
pub open spec fn heading_mark() -> Seq<char> {
    seq!['#', '#', ' ']
}

/// A heading line: one that starts with `## `.
pub open spec fn is_heading(line: Seq<char>) -> bool {
    crate::text::starts_with(line, heading_mark())
}

/// A heading whose first word after `## ` is `version`.
pub open spec fn names_version(line: Seq<char>, version: Seq<char>) -> bool {
    is_heading(line) && {
        let rest = line.skip(3);
        let t = rest.skip(lead(rest));
        t.take(word_len(t)) == version
    }
}

/// The first line from `i` on that is the heading of `version`, or the
/// number of lines when there is none.
pub open spec fn find_heading(ls: Seq<Seq<char>>, version: Seq<char>, i: int) -> int
    decreases ls.len() - i,
{
    if i >= ls.len() || i < 0 { ls.len() as int } else if names_version(ls[i], version) { i } else { find_heading(ls, version, i + 1) }
}

/// The first heading line from `i` on, or the number of lines.
pub open spec fn section_end(ls: Seq<Seq<char>>, i: int) -> int
    decreases ls.len() - i,
{
    if i >= ls.len() || i < 0 { ls.len() as int } else if is_heading(ls[i]) { i } else { section_end(ls, i + 1) }
}

/// A `---` rule, which separates entries and is not content.
pub open spec fn is_rule(line: Seq<char>) -> bool {
    trimmed(line) == seq!['-', '-', '-']
}

/// Lines `from` to `to` without the rules among them.
pub open spec fn body(ls: Seq<Seq<char>>, from: int, to: int) -> Seq<Seq<char>>
    decreases to - from,
{
    if to <= from {
        Seq::empty()
    } else {
        let b = body(ls, from, to - 1);
        if is_rule(ls[to - 1]) { b } else { b.push(ls[to - 1]) }
    }
}

/// Lines joined with line feeds between them.
pub open spec fn joined_lines(ls: Seq<Seq<char>>) -> Seq<char>
    decreases ls.len(),
{
    if ls.len() == 0 {
        Seq::empty()
    } else if ls.len() == 1 {
        ls[0]
    } else {
        joined_lines(ls.drop_last()) + seq!['\n'] + ls.last()
    }
}

/// The version a request names: trimmed, and without the leading `v` a git
/// tag spells it with.
pub open spec fn wanted_version(version: Seq<char>) -> Seq<char> {
    let t = trimmed(version);
    t.skip(vees(t))
}

/// The notes of `version` in a changelog: the lines after its `## ` heading
/// up to the next one, rules left out, joined and trimmed. Nothing when the
/// version is empty, has no section, or the section is empty.
pub open spec fn release_notes(changelog: Seq<char>, version: Seq<char>) -> Option<Seq<char>> {
    let w = wanted_version(version);
    let ls = lines(changelog);
    let h = find_heading(ls, w, 0);
    if w.len() == 0 || h >= ls.len() {
        None
    } else {
        let text = trimmed(joined_lines(body(ls, h + 1, section_end(ls, h + 1))));
        if text.len() == 0 { None } else { Some(text) }
    }
}

/// The text of each line.
pub open spec fn rows(v: Seq<Vec<char>>) -> Seq<Seq<char>> {
    v.map_values(|r: Vec<char>| r@)
}

fn copy_range(s: &Vec<char>, from: usize, to: usize) -> (out: Vec<char>)
    requires
        from <= to <= s@.len(),
    ensures
        out@ == s@.subrange(from as int, to as int),
{
    let mut out: Vec<char> = Vec::new();
    let mut i: usize = from;
    while i < to
        invariant
            from <= i <= to,
            to <= s@.len(),
            out@ == s@.subrange(from as int, i as int),
        decreases to - i,
    {
        out.push(s[i]);
        assert(out@ =~= s@.subrange(from as int, i as int + 1));
        i = i + 1;
    }
    out
}

/// `s` without whitespace at either end.
fn trim_chars(s: &Vec<char>) -> (out: Vec<char>)
    ensures
        out@ == trimmed(s@),
{
    let mut a: usize = 0;
    while a < s.len() && space(s[a])
        invariant
            a <= s@.len(),
            forall|j: int| 0 <= j < a ==> is_space(#[trigger] s@[j]),
        decreases s@.len() - a,
    {
        a = a + 1;
    }
    proof {
        lemma_lead(s@, a as int);
    }
    let mut b: usize = s.len();
    while b > a && space(s[b - 1])
        invariant
            a <= b <= s@.len(),
            forall|j: int| b <= j < s@.len() ==> is_space(#[trigger] s@[j]),
        decreases b - a,
    {
        b = b - 1;
    }
    let ghost t = s@.skip(a as int);
    proof {
        assert forall|j: int| t.len() - (s@.len() - b) <= j < t.len() implies is_space(#[trigger] t[j]) by {
            assert(t[j] == s@[j + a]);
        }
        if b > a {
            assert(t[t.len() - (s@.len() - b) - 1] == s@[b - 1]);
        }
        lemma_trail(t, s@.len() - b);
        assert(t.take(t.len() - trail(t)) =~= s@.subrange(a as int, b as int));
    }
    copy_range(s, a, b)
}

/// The lines of a text, as `str::lines` splits it.
fn split_lines(s: &Vec<char>) -> (out: Vec<Vec<char>>)
    ensures
        rows(out@) == lines(s@),
{
    let mut out: Vec<Vec<char>> = Vec::new();
    let mut p: usize = 0;
    assert(s@.skip(0) =~= s@);
    assert(rows(out@) =~= Seq::<Seq<char>>::empty());
    assert(rows(out@) + lines(s@.skip(0)) =~= lines(s@));
    while p < s.len()
        invariant
            p <= s@.len(),
            rows(out@) + lines(s@.skip(p as int)) == lines(s@),
        decreases s@.len() - p,
    {
        let ghost rest = s@.skip(p as int);
        let mut j: usize = p;
        while j < s.len() && s[j] != '\n'
            invariant
                p <= j <= s@.len(),
                forall|k: int| p <= k < j ==> #[trigger] s@[k] != '\n',
            decreases s@.len() - j,
        {
            j = j + 1;
        }
        proof {
            assert forall|k: int| 0 <= k < j - p implies #[trigger] rest[k] != '\n' by {
                assert(rest[k] == s@[k + p]);
            }
            if j < s.len() {
                assert(rest[j - p] == s@[j as int]);
            }
            lemma_nl_index(rest, j - p);
        }
        let ghost before = out@;
        if j == s.len() {
            let line = copy_range(s, p, j);
            assert(line@ =~= rest);
            out.push(line);
            assert(lines(rest) == seq![rest]);
            p = j;
            assert(s@.skip(p as int) =~= Seq::<char>::empty());
            assert(rows(out@) =~= rows(before).push(rest));
            assert(rows(out@) + lines(s@.skip(p as int)) =~= rows(before) + lines(rest));
        } else {
            let end = if j > p && s[j - 1] == '\r' { j - 1 } else { j };
            let line = copy_range(s, p, end);
            let ghost taken = rest.take(j - p);
            assert(line@ =~= (if taken.len() > 0 && taken.last() == '\r' { taken.drop_last() } else { taken }));
            out.push(line);
            assert(rest.skip(j - p + 1) =~= s@.skip(j as int + 1));
            assert(lines(rest) == seq![line@] + lines(s@.skip(j as int + 1)));
            p = j + 1;
            assert(rows(out@) =~= rows(before).push(line@));
            assert(rows(out@) + lines(s@.skip(p as int)) =~= rows(before) + lines(rest));
        }
    }
    assert(s@.skip(p as int) =~= Seq::<char>::empty());
    assert(rows(out@) =~= rows(out@) + lines(s@.skip(p as int)));
    out
}

/// Whether a line is a `## ` heading.
fn heading(line: &Vec<char>) -> (b: bool)
    ensures
        b == is_heading(line@),
{
    let b = line.len() >= 3 && line[0] == '#' && line[1] == '#' && line[2] == ' ';
    proof {
        if line@.len() >= 3 {
            if b {
                assert(line@.take(3) =~= heading_mark());
            } else {
                assert(line@.take(3)[0] != '#' || line@.take(3)[1] != '#' || line@.take(3)[2] != ' ');
            }
        }
    }
    b
}

/// Whether a line is the heading of `version`.
fn heads(line: &Vec<char>, version: &Vec<char>) -> (b: bool)
    ensures
        b == names_version(line@, version@),
{
    if !heading(line) {
        return false;
    }
    let mut a: usize = 3;
    while a < line.len() && space(line[a])
        invariant
            3 <= a <= line@.len(),
            forall|j: int| 3 <= j < a ==> is_space(#[trigger] line@[j]),
        decreases line@.len() - a,
    {
        a = a + 1;
    }
    let ghost rest = line@.skip(3);
    proof {
        assert forall|j: int| 0 <= j < a - 3 implies is_space(#[trigger] rest[j]) by {
            assert(rest[j] == line@[j + 3]);
        }
        if a < line.len() {
            assert(rest[a - 3] == line@[a as int]);
        }
        lemma_lead(rest, a - 3);
    }
    let mut e: usize = a;
    while e < line.len() && !space(line[e])
        invariant
            a <= e <= line@.len(),
            forall|j: int| a <= j < e ==> !is_space(#[trigger] line@[j]),
        decreases line@.len() - e,
    {
        e = e + 1;
    }
    let ghost t = rest.skip(a - 3);
    proof {
        assert forall|j: int| 0 <= j < e - a implies !is_space(#[trigger] t[j]) by {
            assert(t[j] == line@[j + a]);
        }
        if e < line.len() {
            assert(t[e - a] == line@[e as int]);
        }
        lemma_word_len(t, e - a);
    }
    let word = copy_range(line, a, e);
    assert(word@ =~= t.take(word_len(t)));
    crate::text::same_chars(&word, version)
}

/// Pulls one `## <version>` section out of a changelog.
///
/// Matched on the version's whole first word, so `1.2.0` finds neither the
/// `1.20.0` section nor a `1.2.0-rc1` one; a leading `v` is how a tag spells
/// the same version. A version with no section is an ordinary state, not a
/// failure, and gives nothing.
pub fn release_notes_for(changelog: &str, version: &str) -> (out: Option<String>)
    ensures
        match out {
            Some(t) => release_notes(changelog@, version@) == Some(t@),
            None => release_notes(changelog@, version@) is None,
        },
{
    let v = chars_of(version);
    let tv = trim_chars(&v);
    let mut k: usize = 0;
    while k < tv.len() && tv[k] == 'v'
        invariant
            k <= tv@.len(),
            forall|j: int| 0 <= j < k ==> #[trigger] tv@[j] == 'v',
        decreases tv@.len() - k,
    {
        k = k + 1;
    }
    proof {
        lemma_vees(tv@, k as int);
    }
    let wanted = crate::text::chars_from(&tv, k);
    assert(wanted@ == wanted_version(version@));
    if wanted.len() == 0 {
        return None;
    }
    let text = chars_of(changelog);
    let ls = split_lines(&text);
    let ghost lsv = rows(ls@);
    let mut h: usize = 0;
    while h < ls.len() && !heads(&ls[h], &wanted)
        invariant
            h <= ls@.len(),
            lsv == rows(ls@),
            lsv.len() == ls@.len(),
            find_heading(lsv, wanted@, h as int) == find_heading(lsv, wanted@, 0),
        decreases ls@.len() - h,
    {
        assert(lsv[h as int] == ls@[h as int]@);
        h = h + 1;
    }
    if h == ls.len() {
        return None;
    }
    assert(lsv[h as int] == ls@[h as int]@);
    assert(find_heading(lsv, wanted@, 0) == h);
    let mut kept: Vec<Vec<char>> = Vec::new();
    let mut i: usize = h + 1;
    while i < ls.len() && !heading(&ls[i])
        invariant
            h + 1 <= i <= ls@.len(),
            lsv == rows(ls@),
            lsv.len() == ls@.len(),
            rows(kept@) == body(lsv, h as int + 1, i as int),
            section_end(lsv, i as int) == section_end(lsv, h as int + 1),
        decreases ls@.len() - i,
    {
        assert(lsv[i as int] == ls@[i as int]@);
        let line = trim_chars(&ls[i]);
        let rule = line.len() == 3 && line[0] == '-' && line[1] == '-' && line[2] == '-';
        assert(rule == is_rule(lsv[i as int])) by {
            if line@.len() == 3 && !rule {
                assert(line@[0] != '-' || line@[1] != '-' || line@[2] != '-');
            }
            if rule {
                assert(line@ =~= seq!['-', '-', '-']);
            }
        }
        if !rule {
            let copy = copy_range(&ls[i], 0, ls[i].len());
            assert(copy@ =~= lsv[i as int]);
            let ghost before = kept@;
            kept.push(copy);
            assert(rows(kept@) =~= rows(before).push(lsv[i as int]));
        }
        i = i + 1;
    }
    if i < ls.len() {
        assert(lsv[i as int] == ls@[i as int]@);
    }
    assert(section_end(lsv, i as int) == i);
    let mut joined: Vec<char> = Vec::new();
    let mut q: usize = 0;
    while q < kept.len()
        invariant
            q <= kept@.len(),
            joined@ == joined_lines(rows(kept@).take(q as int)),
        decreases kept@.len() - q,
    {
        let ghost before = joined@;
        if q > 0 {
            joined.push('\n');
        }
        let line = &kept[q];
        let mut c: usize = 0;
        while c < line.len()
            invariant
                c <= line@.len(),
                joined@ == (if q > 0 { before + seq!['\n'] } else { before }) + line@.take(c as int),
            decreases line@.len() - c,
        {
            joined.push(line[c]);
            assert(joined@ =~= (if q > 0 { before + seq!['\n'] } else { before }) + line@.take(c as int + 1));
            c = c + 1;
        }
        assert(line@.take(line@.len() as int) =~= line@);
        let ghost r = rows(kept@);
        assert(r.take(q as int + 1).drop_last() =~= r.take(q as int));
        assert(r.take(q as int + 1).last() == line@);
        if q == 0 {
            assert(joined@ =~= joined_lines(r.take(1)));
        }
        q = q + 1;
    }
    assert(rows(kept@).take(kept@.len() as int) =~= rows(kept@));
    let notes = trim_chars(&joined);
    if notes.len() == 0 {
        return None;
    }
    Some(crate::text::string_of(&notes))
}

} // verus!
