//! The first-run snapshot of the machine's own pointers, and what restoring
//! it means.
//!
//! The rule kept here: the library must never be the reason a machine ends up
//! with a pointer nobody asked for. A snapshot is taken once, adopted from the
//! other channel when that channel took it first, and replaced by the stock
//! Windows scheme — never by a cursor of ours — when the real one is lost.

use vstd::prelude::*;
use crate::roles::{Role, ALL_ROLES, role_name, role_at, lemma_role_index};
use crate::text::{chars_of, string_of, push_char, starts_with, has_prefix};
use crate::channel::{SCHEME_PREFIX, DATA_DIR, legacy_scheme_prefix, legacy_prefix_text};
use crate::cursor::{lower, lower_all, scheme_prefix, opt_texts};

verus! {

/// Where a snapshot's contents came from, and therefore what restoring it
/// means.
#[derive(Debug, Clone, Copy, PartialEq, Eq, Structural)]
pub enum Provenance {
    /// Read off the machine before anything of ours was written to it.
    Captured,
    /// Copied from the other channel's capture of this same machine.
    Adopted,
    /// Not a capture: the machine's original was gone before this channel
    /// saw it, so restoring returns the stock Windows scheme.
    Lost,
}

impl Provenance {
    /// Whether this describes the machine's real pointers from before the
    /// app.
    pub fn is_real(self) -> (b: bool)
        ensures
            b == !(self is Lost),
    {
        match self {
            Provenance::Lost => false,
            _ => true,
        }
    }
}

impl Default for Provenance {
    /// A snapshot that says nothing of where it came from predates the field,
    /// and every such snapshot was a real capture.
    fn default() -> (p: Self)
        ensures
            p == Provenance::Captured,
    {
        Provenance::Captured
    }
}

/// The pointer scheme as it was before the app touched it.
pub struct OriginalScheme {
    /// Registry value name and value, exactly as read. An empty value means
    /// the value was absent.
    pub values: Vec<(String, String)>,
    pub cursor_base_size: Option<u32>,
    pub scheme_name: String,
    pub captured_at: String,
    pub provenance: Provenance,
}

/// The value names and values of a snapshot, as text.
pub open spec fn entries(values: Seq<(String, String)>) -> Seq<(Seq<char>, Seq<char>)> {
    values.map_values(|e: (String, String)| (e.0@, e.1@))
}

/// The stand-in for a lost capture: every role present and empty, which is
/// how the registry is told to use Windows' own pointers, and no scheme name
/// or base size to restore.
pub open spec fn is_stand_in(s: OriginalScheme, captured_at: Seq<char>) -> bool {
    &&& entries(s.values@) == Seq::new(17, |i: int| (role_name(role_at(i)), Seq::<char>::empty()))
    &&& s.cursor_base_size is None
    &&& s.scheme_name@.len() == 0
    &&& s.captured_at@ == captured_at
    &&& s.provenance == Provenance::Lost
}

/// The snapshot that stands in for a machine whose original pointers were
/// lost before this channel could record them.
///
/// Recording the cursor on screen instead would file one of ours as the
/// machine's original, for ever; the stock scheme is a real, working end
/// state, and it is labelled as what it is.
pub fn stand_in_for_lost_capture(captured_at: String) -> (out: OriginalScheme)
    ensures
        is_stand_in(out, captured_at@),
{
    let mut values: Vec<(String, String)> = Vec::new();
    let mut i: usize = 0;
    while i < 17
        invariant
            i <= 17,
            entries(values@) == Seq::new(i as nat, |k: int| (role_name(role_at(k)), Seq::<char>::empty())),
        decreases 17 - i,
    {
        let role = ALL_ROLES[i];
        proof {
            lemma_role_index(role_at(i as int));
        }
        assert(role == role_at(i as int));
        let name = crate::text::copy_text(role.registry_value());
        let empty = String::new();
        let ghost before = values@;
        let ghost pair = (name@, empty@);
        assert(pair == (role_name(role_at(i as int)), Seq::<char>::empty()));
        values.push((name, empty));
        assert(values@ == before.push((name, empty)));
        assert(entries(values@) =~= entries(before).push(pair));
        assert(entries(values@) =~= Seq::new((i + 1) as nat, |k: int| (role_name(role_at(k)), Seq::<char>::empty())));
        i = i + 1;
    }
    OriginalScheme {
        values,
        cursor_base_size: None,
        scheme_name: String::new(),
        captured_at,
        provenance: Provenance::Lost,
    }
}

/// The label a snapshot copied from the other channel carries here.
///
/// A real capture becomes an adopted one; a snapshot the other channel
/// recorded as lost stays lost, because it is the same machine.
pub open spec fn adopted_label(p: Provenance) -> Provenance {
    if p == Provenance::Captured { Provenance::Adopted } else { p }
}

/// Taking over a snapshot never changes what it is worth: an adopted
/// snapshot is real exactly when the one taken over was, and a lost one
/// stays lost.
pub proof fn law_adopting_keeps_worth(p: Provenance)
    ensures
        (adopted_label(p) is Lost) == (p is Lost),
        adopted_label(adopted_label(p)) == adopted_label(p),
{
}

/// Relabels a snapshot taken over from the other channel. Only the label
/// changes; the recorded scheme is kept as it was.
pub fn adopt(snapshot: OriginalScheme) -> (out: OriginalScheme)
    ensures
        out.values == snapshot.values,
        out.cursor_base_size == snapshot.cursor_base_size,
        out.scheme_name == snapshot.scheme_name,
        out.captured_at == snapshot.captured_at,
        out.provenance == adopted_label(snapshot.provenance),
{
    let mut adopted = snapshot;
    if adopted.provenance == Provenance::Captured {
        adopted.provenance = Provenance::Adopted;
    }
    adopted
}

/// What the snapshot on record is worth. With no snapshot at all this is a
/// first run, and a first run has lost nothing.
pub fn provenance(snapshot: Option<&OriginalScheme>) -> (p: Provenance)
    ensures
        p == match snapshot {
            Some(s) => s.provenance,
            None => Provenance::Captured,
        },
{
    match snapshot {
        Some(s) => s.provenance,
        None => Provenance::Captured,
    }
}

/// The first step taken to make sure a snapshot exists.
#[derive(Debug, Clone, Copy, PartialEq, Eq, Structural)]
pub enum CaptureStep {
    /// A snapshot is on record and readable: use it.
    UseExisting,
    /// Take over the other channel's snapshot of this machine.
    AdoptForeign,
    /// The original is gone and one of our cursors is on screen: record the
    /// stock scheme in its place.
    StandIn,
    /// Read what is on the machine now and record it as the original.
    CaptureFresh,
}

/// What a first launch does about the snapshot, given what it found.
///
/// A snapshot on record is never replaced by a fresh capture while it can be
/// read. Without one, the other channel's is taken over before anything is
/// read off the machine; and a pointer that is already ours is never
/// recorded as the machine's original.
pub fn capture_step(snapshot_exists: bool, snapshot_readable: bool, foreign_parses: bool, ours_applied: bool) -> (step: CaptureStep)
    ensures
        step == (if snapshot_exists {
            if snapshot_readable { CaptureStep::UseExisting } else { CaptureStep::CaptureFresh }
        } else if foreign_parses {
            CaptureStep::AdoptForeign
        } else if ours_applied {
            CaptureStep::StandIn
        } else {
            CaptureStep::CaptureFresh
        }),
{
    if snapshot_exists {
        if snapshot_readable { CaptureStep::UseExisting } else { CaptureStep::CaptureFresh }
    } else if foreign_parses {
        CaptureStep::AdoptForeign
    } else if ours_applied {
        CaptureStep::StandIn
    } else {
        CaptureStep::CaptureFresh
    }
}

/// The backup copy's name: the snapshot's own with `.bak` appended.
pub open spec fn backup_name(file: Seq<char>) -> Seq<char> {
    file + ".bak"@
}

/// Where the store keeps the backup of a file.
pub fn backup_of(file: &str) -> (out: String)
    ensures
        out@ == backup_name(file@),
{
    let chars = chars_of(file);
    let mut out = string_of(&chars);
    push_char(&mut out, '.');
    push_char(&mut out, 'b');
    push_char(&mut out, 'a');
    push_char(&mut out, 'k');
    proof {
        reveal_strlit(".bak");
        assert(out@ =~= file@ + ".bak"@);
    }
    out
}

/// Backslashes for forward slashes, and lower case: how a registry path is
/// compared against a folder.
pub open spec fn normalised(s: Seq<char>) -> Seq<char> {
    s.map_values(|c: char| lower(if c == '/' { '\\' } else { c }))
}

/// A scheme name that one of this app's builds registered.
pub open spec fn our_scheme_name(name: Seq<char>) -> bool {
    name.len() > 0 && (starts_with(name, scheme_prefix()) || (!crate::channel::IS_DEV && starts_with(name, legacy_prefix_text())))
}

/// A role value that points inside one of the given folders.
pub open spec fn points_into(value: Seq<char>, roots: Seq<Seq<char>>) -> bool {
    value.len() > 0 && exists|j: int| 0 <= j < roots.len() && starts_with(normalised(value), #[trigger] roots[j])
}

/// The text of each string.
pub open spec fn texts(v: Seq<String>) -> Seq<Seq<char>> {
    v.map_values(|r: String| r@)
}

/// Whether the pointers on the machine are ones the app put there: the
/// scheme is named as ours, or some role's file lies inside one of our
/// folders (given in lower case with backslashes).
pub open spec fn ours_applied(name: Seq<char>, roots: Seq<Seq<char>>, values: Seq<Option<Seq<char>>>) -> bool {
    our_scheme_name(name)
        || exists|i: int| 0 <= i < values.len() && (#[trigger] values[i]) is Some && points_into(values[i]->Some_0, roots)
}

fn normalise(value: &str) -> (out: Vec<char>)
    ensures
        out@ == normalised(value@),
{
    let chars = chars_of(value);
    let mut out: Vec<char> = Vec::new();
    let mut i: usize = 0;
    while i < chars.len()
        invariant
            i <= chars@.len(),
            chars@ == value@,
            out@ == normalised(chars@.take(i as int)),
        decreases chars@.len() - i,
    {
        let c = chars[i];
        let d = if c == '/' { '\\' } else { c };
        let e = if 'A' <= d && d <= 'Z' {
            let v = (d as u32) + 32;
            proof { assert(0x61 <= v <= 0x7a); }
            ((v as u8) as char)
        } else {
            d
        };
        assert(e == lower(if c == '/' { '\\' } else { c }));
        out.push(e);
        assert(chars@.take(i as int + 1) =~= chars@.take(i as int).push(c));
        assert(out@ =~= normalised(chars@.take(i as int + 1)));
        i = i + 1;
    }
    assert(chars@.take(chars@.len() as int) =~= chars@);
    out
}

/// The form in which the app's own data folder appears in a registry value
/// that was written unexpanded: `%appdata%\` and the folder, in lower case.
pub open spec fn appdata_root() -> Seq<char> {
    lower_all("%appdata%\\"@ + DATA_DIR@)
}

/// The unexpanded data-folder root, in the form role values are compared
/// against.
pub fn appdata_root_text() -> (out: String)
    ensures
        out@ == appdata_root(),
{
    let head = chars_of("%appdata%\\");
    let dir = chars_of(DATA_DIR);
    let mut all: Vec<char> = Vec::new();
    let mut i: usize = 0;
    while i < head.len()
        invariant
            i <= head@.len(),
            all@ == head@.take(i as int),
        decreases head@.len() - i,
    {
        all.push(head[i]);
        assert(all@ =~= head@.take(i as int + 1));
        i = i + 1;
    }
    assert(head@.take(head@.len() as int) =~= head@);
    let mut j: usize = 0;
    while j < dir.len()
        invariant
            j <= dir@.len(),
            all@ == head@ + dir@.take(j as int),
        decreases dir@.len() - j,
    {
        all.push(dir[j]);
        assert(all@ =~= head@ + dir@.take(j as int + 1));
        j = j + 1;
    }
    assert(dir@.take(dir@.len() as int) =~= dir@);
    let joined = string_of(&all);
    let lowered = normalise(joined.as_str());
    proof {
        reveal_strlit("%appdata%\\");
        reveal_strlit("Cursed");
        assert(normalised(all@) =~= lower_all(all@));
    }
    string_of(&lowered)
}

/// Whether the pointers currently on the machine are ones the app put
/// there.
///
/// Two signals, because either alone has a hole: a theme change can rename
/// the scheme while leaving our files in place, and a single role applied
/// and reset leaves our name with no file. A false positive costs a snapshot;
/// a false negative records one of our cursors as the original for ever.
/// `roots` are our folders, in lower case with backslashes; `values` are the
/// roles' registry values, `None` where one could not be read.
pub fn looks_like_ours(scheme_name: &str, roots: &Vec<String>, values: &Vec<Option<String>>) -> (b: bool)
    ensures
        b == ours_applied(scheme_name@, texts(roots@), opt_texts(values@)),
{
    let ghost rs = texts(roots@);
    let ghost vs = opt_texts(values@);
    let name = chars_of(scheme_name);
    if name.len() > 0 {
        let ours = chars_of(SCHEME_PREFIX);
        proof {
            reveal_strlit("Cursed \u{2014} ");
        }
        assert(ours@ == scheme_prefix());
        if has_prefix(&name, &ours) {
            return true;
        }
        match legacy_scheme_prefix() {
            Some(old) => {
                let old_chars = chars_of(old);
                if has_prefix(&name, &old_chars) {
                    return true;
                }
            }
            None => {}
        }
    }
    assert(!our_scheme_name(scheme_name@));
    let mut i: usize = 0;
    while i < values.len()
        invariant
            i <= values@.len(),
            vs == opt_texts(values@),
            rs == texts(roots@),
            forall|k: int| 0 <= k < i ==> !((#[trigger] vs[k]) is Some && points_into(vs[k]->Some_0, rs)),
        decreases values@.len() - i,
    {
        let item: &Option<String> = &values[i];
        match item {
            Some(value) => {
                assert(vs[i as int] == Some(value@));
                let vc = chars_of(value.as_str());
                if vc.len() > 0 {
                    let norm = normalise(value.as_str());
                    let mut j: usize = 0;
                    while j < roots.len()
                        invariant
                            j <= roots@.len(),
                            norm@ == normalised(value@),
                            value@.len() > 0,
                            0 <= i < vs.len(),
                            vs[i as int] == Some(value@),
                            vs == opt_texts(values@),
                            rs == texts(roots@),
                            forall|q: int| 0 <= q < j ==> !starts_with(normalised(value@), #[trigger] rs[q]),
                        decreases roots@.len() - j,
                    {
                        let root = chars_of(roots[j].as_str());
                        if has_prefix(&norm, &root) {
                            assert(starts_with(normalised(value@), rs[j as int]));
                            assert(points_into(vs[i as int]->Some_0, rs));
                            assert(ours_applied(scheme_name@, rs, vs));
                            return true;
                        }
                        j = j + 1;
                    }
                    assert(!points_into(value@, rs));
                }
                assert(vs[i as int] == Some(value@));
            }
            None => {}
        }
        i = i + 1;
    }
    false
}

} // verus!
