//! A pointer scheme: one file per role.
//!
//! A scheme is written to `HKCU\Control Panel\Cursors` role by role; a role
//! the set does not define has its value deleted, which is how Windows
//! spells "use the built-in cursor for this role".

use vstd::prelude::*;
use crate::roles::{Role, ALL_ROLES, role_index, role_at, lemma_role_index};
use crate::text::{append, chars_from, chars_of, has_prefix, starts_with, string_of};

verus! {

/// A pointer scheme: the path of the file each role uses, for the roles it
/// defines.
#[derive(Debug)]
pub struct CursorSet {
    /// One slot per role, in [`ALL_ROLES`] order.
    slots: Vec<Option<String>>,
}

impl CursorSet {
    #[verifier::type_invariant]
    spec fn slot_per_role(&self) -> bool {
        self.slots@.len() == 17
    }

    /// The file of each role the set defines.
    pub closed spec fn files(&self) -> Map<Role, Seq<char>> {
        Map::new(
            |r: Role| self.slots@[role_index(r)] is Some,
            |r: Role| self.slots@[role_index(r)]->Some_0@,
        )
    }

    /// A set that defines no role.
    pub fn new() -> (out: CursorSet)
        ensures
            out.files() == Map::<Role, Seq<char>>::empty(),
    {
        let slots = empty_slots();
        let out = CursorSet { slots };
        assert(out.files() =~= Map::<Role, Seq<char>>::empty()) by {
            assert forall|r: Role| !out.files().dom().contains(r) by {
                lemma_role_index(r);
            }
        }
        out
    }

    /// Sets the file a role uses, replacing any it had.
    pub fn insert(&mut self, role: Role, path: String)
        ensures
            final(self).files() == old(self).files().insert(role, path@),
    {
        proof {
            use_type_invariant(&*self);
            lemma_role_index(role);
        }
        let i = role_slot(role);
        let ghost before = self.files();
        let mut slots = empty_slots();
        std::mem::swap(&mut slots, &mut self.slots);
        slots.set(i, Some(path));
        self.slots = slots;
        proof {
            assert forall|r: Role| #![auto] role_index(r) == i ==> r == role by {
                lemma_role_index(r);
            }
        }
        assert(self.files() =~= before.insert(role, path@));
    }

    /// The file a role uses, if the set defines it.
    pub fn get(&self, role: Role) -> (out: Option<&String>)
        ensures
            match out {
                Some(p) => self.files().dom().contains(role) && p@ == self.files()[role],
                None => !self.files().dom().contains(role),
            },
    {
        proof {
            use_type_invariant(self);
            lemma_role_index(role);
        }
        let i = role_slot(role);
        match &self.slots[i] {
            Some(p) => Some(p),
            None => None,
        }
    }

    /// Whether every role is defined.
    pub fn is_complete(&self) -> (b: bool)
        ensures
            b == forall|r: Role| self.files().dom().contains(r),
    {
        proof {
            use_type_invariant(self);
        }
        let mut i: usize = 0;
        while i < 17
            invariant
                self.slots@.len() == 17,
                i <= 17,
                forall|j: int| 0 <= j < i ==> self.slots@[j] is Some,
            decreases 17 - i,
        {
            if self.slots[i].is_none() {
                proof {
                    lemma_role_index(role_at(i as int));
                    assert(role_index(role_at(i as int)) == i) by {
                        lemma_role_at_index(i as int);
                    }
                    assert(!self.files().dom().contains(role_at(i as int)));
                }
                return false;
            }
            i = i + 1;
        }
        proof {
            assert forall|r: Role| self.files().dom().contains(r) by {
                lemma_role_index(r);
            }
        }
        true
    }

    /// Names the roles the set does not define, in [`ALL_ROLES`] order. A
    /// half-applied scheme is the failure mode this exists to catch.
    pub fn missing(&self) -> (out: Vec<Role>)
        ensures
            out@ == missing_roles(self.files(), 17),
    {
        proof {
            use_type_invariant(self);
        }
        let mut out: Vec<Role> = Vec::new();
        let mut i: usize = 0;
        while i < 17
            invariant
                self.slots@.len() == 17,
                i <= 17,
                out@ == missing_roles(self.files(), i as int),
            decreases 17 - i,
        {
            let r = ALL_ROLES[i];
            proof {
                lemma_role_at_index(i as int);
                assert(r == role_at(i as int));
            }
            if self.slots[i].is_none() {
                out.push(r);
            }
            i = i + 1;
        }
        out
    }
}

impl Default for CursorSet {
    fn default() -> (out: Self)
        ensures
            out.files() == Map::<Role, Seq<char>>::empty(),
    {
        CursorSet::new()
    }
}

/// The roles among the first `k` of [`ALL_ROLES`] that `files` does not
/// define, in order.
pub open spec fn missing_roles(files: Map<Role, Seq<char>>, k: int) -> Seq<Role>
    decreases k,
{
    if k <= 0 {
        Seq::empty()
    } else if files.dom().contains(role_at(k - 1)) {
        missing_roles(files, k - 1)
    } else {
        missing_roles(files, k - 1).push(role_at(k - 1))
    }
}

proof fn lemma_missing_upto(files: Map<Role, Seq<char>>, k: int)
    requires
        0 <= k <= 17,
    ensures
        forall|r: Role| #[trigger] missing_roles(files, k).contains(r) <==> (role_index(r) < k && !files.dom().contains(r)),
    decreases k,
{
    if k > 0 {
        lemma_missing_upto(files, k - 1);
        lemma_role_at_index(k - 1);
        let prev = missing_roles(files, k - 1);
        assert forall|r: Role| #[trigger] missing_roles(files, k).contains(r) <==> (role_index(r) < k && !files.dom().contains(r)) by {
            lemma_role_index(r);
            if !files.dom().contains(role_at(k - 1)) {
                let cur = prev.push(role_at(k - 1));
                assert(cur.contains(r) <==> (prev.contains(r) || r == role_at(k - 1))) by {
                    if cur.contains(r) {
                        let j = choose|j: int| 0 <= j < cur.len() && cur[j] == r;
                        if j < prev.len() {
                            assert(prev[j] == r);
                        }
                    }
                    if prev.contains(r) {
                        let j = choose|j: int| 0 <= j < prev.len() && prev[j] == r;
                        assert(cur[j] == r);
                    }
                    if r == role_at(k - 1) {
                        assert(cur[prev.len() as int] == r);
                    }
                }
            }
        }
    }
}

/// The roles a set is missing are exactly the roles it does not define, so
/// the list of missing roles is empty exactly when the set is complete.
pub proof fn law_missing_names_exactly_the_undefined_roles(files: Map<Role, Seq<char>>)
    ensures
        forall|r: Role| #[trigger] missing_roles(files, 17).contains(r) <==> !files.dom().contains(r),
        (missing_roles(files, 17).len() == 0) <==> (forall|r: Role| #[trigger] files.dom().contains(r)),
{
    lemma_missing_upto(files, 17);
    assert forall|r: Role| #[trigger] missing_roles(files, 17).contains(r) <==> !files.dom().contains(r) by {
        lemma_role_index(r);
    }
    let m = missing_roles(files, 17);
    if m.len() == 0 {
        assert forall|r: Role| #[trigger] files.dom().contains(r) by {
            if !files.dom().contains(r) {
                assert(m.contains(r));
            }
        }
    } else {
        assert(m.contains(m[0]));
        assert(!files.dom().contains(m[0]));
    }
}

/// Seventeen empty slots.
fn empty_slots() -> (slots: Vec<Option<String>>)
    ensures
        slots@.len() == 17,
        forall|j: int| 0 <= j < 17 ==> slots@[j] is None,
{
    let mut slots: Vec<Option<String>> = Vec::new();
    let mut i: usize = 0;
    while i < 17
        invariant
            i <= 17,
            slots@.len() == i,
            forall|j: int| 0 <= j < i ==> slots@[j] is None,
        decreases 17 - i,
    {
        slots.push(None);
        i = i + 1;
    }
    slots
}

/// Each position names the role whose position it is.
pub proof fn lemma_role_at_index(i: int)
    requires
        0 <= i < 17,
    ensures
        role_index(role_at(i)) == i,
        ALL_ROLES@[i] == role_at(i),
{
}

/// The slot of a role.
fn role_slot(role: Role) -> (i: usize)
    ensures
        i == role_index(role),
        i < 17,
{
    match role {
        Role::Arrow => 0,
        Role::Help => 1,
        Role::AppStarting => 2,
        Role::Wait => 3,
        Role::Crosshair => 4,
        Role::IBeam => 5,
        Role::NWPen => 6,
        Role::No => 7,
        Role::SizeNS => 8,
        Role::SizeWE => 9,
        Role::SizeNWSE => 10,
        Role::SizeNESW => 11,
        Role::SizeAll => 12,
        Role::UpArrow => 13,
        Role::Hand => 14,
        Role::Pin => 15,
        Role::Person => 16,
    }
}

/// The `CursorBaseSize` written for a requested size: what Windows' own
/// pointer-size setting accepts, 32 to 256.
pub fn base_size_for(size: u32) -> (out: u32)
    ensures
        out == if size < 32 { 32 } else if size > 256 { 256 } else { size },
{
    if size < 32 {
        32
    } else if size > 256 {
        256
    } else {
        size
    }
}

} // verus!

verus! {

/// `s` with every `/` turned into `\`.
pub open spec fn backslashed(s: Seq<char>) -> Seq<char> {
    Seq::new(s.len(), |i: int| if s[i] == '/' { '\\' } else { s[i] })
}

/// `s` without the backslashes it ends with.
pub open spec fn trimmed_backslashes(s: Seq<char>) -> Seq<char>
    decreases s.len(),
{
    if s.len() > 0 && s.last() == '\\' {
        trimmed_backslashes(s.drop_last())
    } else {
        s
    }
}

/// How a file path is written into the registry: with backslashes, and with
/// the user's roaming folder written as `%APPDATA%`, so the scheme survives
/// a profile that moves. `appdata` is that folder, when it is known.
pub open spec fn expandable(text: Seq<char>, appdata: Option<Seq<char>>) -> Seq<char> {
    let t = backslashed(text);
    match appdata {
        Some(a) => {
            let a2 = backslashed(a);
            if a2.len() == 0 {
                t
            } else if starts_with(t, a2) {
                "%APPDATA%"@ + t.skip(a2.len() as int)
            } else if starts_with(t, trimmed_backslashes(a2)) {
                "%APPDATA%"@ + t.skip(trimmed_backslashes(a2).len() as int)
            } else {
                t
            }
        },
        None => t,
    }
}

fn backslashed_chars(s: &Vec<char>) -> (out: Vec<char>)
    ensures
        out@ == backslashed(s@),
{
    let mut out: Vec<char> = Vec::new();
    let mut i: usize = 0;
    while i < s.len()
        invariant
            i <= s@.len(),
            out@ == backslashed(s@).take(i as int),
        decreases s@.len() - i,
    {
        let c = s[i];
        out.push(if c == '/' { '\\' } else { c });
        assert(out@ =~= backslashed(s@).take(i as int + 1));
        i = i + 1;
    }
    assert(backslashed(s@).take(s@.len() as int) =~= backslashed(s@));
    out
}

fn trim_backslashes(s: &Vec<char>) -> (out: Vec<char>)
    ensures
        out@ == trimmed_backslashes(s@),
{
    let mut n = s.len();
    assert(s@.take(n as int) =~= s@);
    while n > 0 && s[n - 1] == '\\'
        invariant
            n <= s@.len(),
            trimmed_backslashes(s@) == trimmed_backslashes(s@.take(n as int)),
        decreases n,
    {
        assert(s@.take(n as int).drop_last() =~= s@.take(n - 1));
        n = n - 1;
    }
    let mut out: Vec<char> = Vec::new();
    let mut i: usize = 0;
    while i < n
        invariant
            n <= s@.len(),
            i <= n,
            out@ == s@.take(i as int),
        decreases n - i,
    {
        out.push(s[i]);
        assert(out@ =~= s@.take(i as int + 1));
        i = i + 1;
    }
    assert(!(n > 0 && s@.take(n as int).last() == '\\'));
    out
}

/// A path as the registry should hold it: backslashes throughout, and the
/// roaming folder, when the path lies in it, written as `%APPDATA%`.
pub fn expandable_path(text: &str, appdata: Option<&str>) -> (out: String)
    ensures
        out@ == expandable(text@, match appdata {
            Some(a) => Some(a@),
            None => None::<Seq<char>>,
        }),
{
    let text_chars = chars_of(text);
    let t = backslashed_chars(&text_chars);
    match appdata {
        Some(a) => {
            let a_chars = chars_of(a);
            let a2 = backslashed_chars(&a_chars);
            if a2.len() == 0 {
                return string_of(&t);
            }
            if has_prefix(&t, &a2) {
                let rest = chars_from(&t, a2.len());
                let mut out = String::new();
                append(&mut out, "%APPDATA%");
                let r = string_of(&rest);
                append(&mut out, r.as_str());
                return out;
            }
            let trimmed = trim_backslashes(&a2);
            if has_prefix(&t, &trimmed) {
                let rest = chars_from(&t, trimmed.len());
                let mut out = String::new();
                append(&mut out, "%APPDATA%");
                let r = string_of(&rest);
                append(&mut out, r.as_str());
                return out;
            }
            string_of(&t)
        },
        None => string_of(&t),
    }
}

/// The UTF-16 code units of a character: one below U+10000, a surrogate
/// pair above.
pub open spec fn utf16_units(c: char) -> Seq<int> {
    let v = (c as u32) as int;
    if v < 0x10000 {
        seq![v]
    } else {
        seq![0xD800 + (v - 0x10000) / 1024, 0xDC00 + (v - 0x10000) % 1024]
    }
}

/// Little-endian bytes of a run of 16-bit units.
pub open spec fn units_le(us: Seq<int>) -> Seq<u8>
    decreases us.len(),
{
    if us.len() == 0 {
        Seq::empty()
    } else {
        units_le(us.drop_last()) + seq![(us.last() % 256) as u8, (us.last() / 256) as u8]
    }
}

/// The UTF-16 units of a run of characters.
pub open spec fn utf16_of(cs: Seq<char>) -> Seq<int>
    decreases cs.len(),
{
    if cs.len() == 0 {
        Seq::empty()
    } else {
        utf16_of(cs.drop_last()) + utf16_units(cs.last())
    }
}

/// The data of an expandable string value: the text in UTF-16,
/// little-endian, then a UTF-16 NUL.
pub open spec fn expand_sz_data(text: Seq<char>) -> Seq<u8> {
    units_le(utf16_of(text)) + seq![0u8, 0u8]
}

fn push_unit(out: &mut Vec<u8>, unit: u32)
    requires
        unit < 0x10000,
    ensures
        final(out)@ == old(out)@ + seq![(unit % 256) as u8, (unit / 256) as u8],
{
    out.push((unit % 256) as u8);
    out.push((unit / 256) as u8);
    assert(final(out)@ =~= old(out)@ + seq![(unit % 256) as u8, (unit / 256) as u8]);
}

proof fn lemma_units_le_push(us: Seq<int>, u: int)
    ensures
        units_le(us.push(u)) == units_le(us) + seq![(u % 256) as u8, (u / 256) as u8],
{
    assert(us.push(u).drop_last() =~= us);
}

proof fn lemma_units_le_concat(us: Seq<int>, vs: Seq<int>)
    ensures
        units_le(us + vs) == units_le(us) + units_le(vs),
    decreases vs.len(),
{
    if vs.len() == 0 {
        assert(us + vs =~= us);
        assert(units_le(us) + units_le(vs) =~= units_le(us));
    } else {
        lemma_units_le_concat(us, vs.drop_last());
        assert((us + vs).drop_last() =~= us + vs.drop_last());
        assert(units_le(us) + units_le(vs) =~= units_le(us) + units_le(vs.drop_last()) + seq![
            (vs.last() % 256) as u8,
            (vs.last() / 256) as u8,
        ]);
    }
}

/// The registry data of an expandable string: UTF-16, little-endian, with a
/// UTF-16 NUL at the end.
pub fn expand_sz_bytes(text: &str) -> (out: Vec<u8>)
    ensures
        out@ == expand_sz_data(text@),
{
    let chars = chars_of(text);
    let mut out: Vec<u8> = Vec::new();
    let mut i: usize = 0;
    while i < chars.len()
        invariant
            chars@ == text@,
            i <= chars@.len(),
            out@ == units_le(utf16_of(chars@.take(i as int))),
        decreases chars@.len() - i,
    {
        let c = chars[i];
        let v = c as u32;
        proof {
            vstd::utf8::char_is_scalar(c);
        }
        assert(v <= 0x10FFFF);
        let ghost before = out@;
        proof {
            assert(chars@.take(i as int + 1).drop_last() =~= chars@.take(i as int));
            assert(chars@.take(i as int + 1).last() == c);
            lemma_units_le_concat(utf16_of(chars@.take(i as int)), utf16_units(c));
        }
        if v < 0x10000 {
            push_unit(&mut out, v);
            proof {
                lemma_units_le_push(Seq::empty(), v as int);
                assert(seq![v as int] =~= Seq::<int>::empty().push(v as int));
                assert(units_le(Seq::<int>::empty()) =~= Seq::<u8>::empty());
                assert(utf16_units(c) == seq![v as int]);
                assert(out@ =~= before + units_le(utf16_units(c)));
            }
        } else {
            let u = v - 0x10000;
            let hi = 0xD800 + u / 1024;
            let lo = 0xDC00 + u % 1024;
            push_unit(&mut out, hi);
            push_unit(&mut out, lo);
            proof {
                lemma_units_le_push(Seq::empty(), hi as int);
                lemma_units_le_push(seq![hi as int], lo as int);
                assert(seq![hi as int, lo as int] =~= seq![hi as int].push(lo as int));
                assert(seq![hi as int] =~= Seq::<int>::empty().push(hi as int));
                assert(units_le(Seq::<int>::empty()) =~= Seq::<u8>::empty());
                assert(utf16_units(c) == seq![hi as int, lo as int]);
                assert(out@ =~= before + units_le(utf16_units(c)));
            }
        }
        i = i + 1;
    }
    assert(chars@.take(chars@.len() as int) =~= chars@);
    out.push(0);
    out.push(0);
    out
}

} // verus!
