//! The closed set of Windows pointer roles.
//!
//! The frontend can only ever name a variant of [`Role`]. It never supplies a
//! registry value name or an OCR id: those come from the tables here.

use vstd::prelude::*;
use crate::error::AppError;

verus! {

/// The complete, closed set of Windows pointer roles.
#[derive(Debug, Clone, Copy, PartialEq, Eq, Structural, PartialOrd, Ord, Hash)]
pub enum Role {
    Arrow,
    Help,
    AppStarting,
    Wait,
    Crosshair,
    IBeam,
    NWPen,
    No,
    SizeNS,
    SizeWE,
    SizeNWSE,
    SizeNESW,
    SizeAll,
    UpArrow,
    Hand,
    Pin,
    Person,
}

/// Every role, in the order the Windows Pointers tab lists them.
pub const ALL_ROLES: [Role; 17] = [
    Role::Arrow,
    Role::Help,
    Role::AppStarting,
    Role::Wait,
    Role::Crosshair,
    Role::IBeam,
    Role::NWPen,
    Role::No,
    Role::SizeNS,
    Role::SizeWE,
    Role::SizeNWSE,
    Role::SizeNESW,
    Role::SizeAll,
    Role::UpArrow,
    Role::Hand,
    Role::Pin,
    Role::Person,
]; 

/// The size at which the link hand and the text I-beam stop growing: the
/// Windows base metric.
pub const UNSCALED_ROLE_PX: u32 = 32;

/// The roles a "Recommended" custom-cursor application touches.
pub const RECOMMENDED_ROLES: [Role; 3] = [Role::Arrow, Role::Hand, Role::Crosshair];

/// The position of a role in [`ALL_ROLES`].
pub open spec fn role_index(r: Role) -> int {
    match r {
        Role::Arrow => 0,
        Role::Help => 1,
        Role::AppStarting => 2,
        Role::Wait => 3,
        Role::Crosshair => 4,
        Role::IBeam => 5,
        Role::NWPen => 6,
        Role::No => 7,
        Role::SizeNS => 8,
        Role::SizeWE => 9,
        Role::SizeNWSE => 10,
        Role::SizeNESW => 11,
        Role::SizeAll => 12,
        Role::UpArrow => 13,
        Role::Hand => 14,
        Role::Pin => 15,
        Role::Person => 16,
    }
}

/// The role at a position of [`ALL_ROLES`].
pub open spec fn role_at(i: int) -> Role {
    if i == 0 {
        Role::Arrow
    } else if i == 1 {
        Role::Help
    } else if i == 2 {
        Role::AppStarting
    } else if i == 3 {
        Role::Wait
    } else if i == 4 {
        Role::Crosshair
    } else if i == 5 {
        Role::IBeam
    } else if i == 6 {
        Role::NWPen
    } else if i == 7 {
        Role::No
    } else if i == 8 {
        Role::SizeNS
    } else if i == 9 {
        Role::SizeWE
    } else if i == 10 {
        Role::SizeNWSE
    } else if i == 11 {
        Role::SizeNESW
    } else if i == 12 {
        Role::SizeAll
    } else if i == 13 {
        Role::UpArrow
    } else if i == 14 {
        Role::Hand
    } else if i == 15 {
        Role::Pin
    } else {
        Role::Person
    }
}

/// The `HKCU\Control Panel\Cursors` value name of a role.
pub open spec fn role_name(r: Role) -> Seq<char> {
    match r {
        Role::Arrow => "Arrow"@,
        Role::Help => "Help"@,
        Role::AppStarting => "AppStarting"@,
        Role::Wait => "Wait"@,
        Role::Crosshair => "Crosshair"@,
        Role::IBeam => "IBeam"@,
        Role::NWPen => "NWPen"@,
        Role::No => "No"@,
        Role::SizeNS => "SizeNS"@,
        Role::SizeWE => "SizeWE"@,
        Role::SizeNWSE => "SizeNWSE"@,
        Role::SizeNESW => "SizeNESW"@,
        Role::SizeAll => "SizeAll"@,
        Role::UpArrow => "UpArrow"@,
        Role::Hand => "Hand"@,
        Role::Pin => "Pin"@,
        Role::Person => "Person"@,
    }
}

/// The `OCR_*` / `IDC_*` identifier of a role.
pub open spec fn role_ocr(r: Role) -> u32 {
    match r {
        Role::Arrow => 32512,
        Role::Help => 32651,
        Role::AppStarting => 32650,
        Role::Wait => 32514,
        Role::Crosshair => 32515,
        Role::IBeam => 32513,
        Role::NWPen => 32631,
        Role::No => 32648,
        Role::SizeNS => 32645,
        Role::SizeWE => 32644,
        Role::SizeNWSE => 32642,
        Role::SizeNESW => 32643,
        Role::SizeAll => 32646,
        Role::UpArrow => 32516,
        Role::Hand => 32649,
        Role::Pin => 32671,
        Role::Person => 32672,
    }
}

/// Each role is handed to `SetSystemCursor` under the id Windows gives the
/// pointer of that name: `OCR_NORMAL` 32512, `OCR_IBEAM` 32513, `OCR_WAIT`
/// 32514, `OCR_CROSS` 32515, `OCR_UP` 32516, the pen 32631, `OCR_SIZENWSE`
/// 32642, `OCR_SIZENESW` 32643, `OCR_SIZEWE` 32644, `OCR_SIZENS` 32645,
/// `OCR_SIZEALL` 32646, `OCR_NO` 32648, `OCR_HAND` 32649,
/// `OCR_APPSTARTING` 32650, `OCR_HELP` 32651, `IDC_PIN` 32671 and
/// `IDC_PERSON` 32672.
pub proof fn law_ocr_ids_are_the_windows_constants()
    ensures
        role_ocr(Role::Arrow) == 32512,
        role_ocr(Role::IBeam) == 32513,
        role_ocr(Role::Wait) == 32514,
        role_ocr(Role::Crosshair) == 32515,
        role_ocr(Role::UpArrow) == 32516,
        role_ocr(Role::NWPen) == 32631,
        role_ocr(Role::SizeNWSE) == 32642,
        role_ocr(Role::SizeNESW) == 32643,
        role_ocr(Role::SizeWE) == 32644,
        role_ocr(Role::SizeNS) == 32645,
        role_ocr(Role::SizeAll) == 32646,
        role_ocr(Role::No) == 32648,
        role_ocr(Role::Hand) == 32649,
        role_ocr(Role::AppStarting) == 32650,
        role_ocr(Role::Help) == 32651,
        role_ocr(Role::Pin) == 32671,
        role_ocr(Role::Person) == 32672,
{
}

/// The label the Windows Pointers tab shows for a role.
pub open spec fn role_label(r: Role) -> Seq<char> {
    match r {
        Role::Arrow => "Normal select"@,
        Role::Help => "Help select"@,
        Role::AppStarting => "Working in background"@,
        Role::Wait => "Busy"@,
        Role::Crosshair => "Precision select"@,
        Role::IBeam => "Text select"@,
        Role::NWPen => "Handwriting"@,
        Role::No => "Unavailable"@,
        Role::SizeNS => "Vertical resize"@,
        Role::SizeWE => "Horizontal resize"@,
        Role::SizeNWSE => "Diagonal resize 1"@,
        Role::SizeNESW => "Diagonal resize 2"@,
        Role::SizeAll => "Move"@,
        Role::UpArrow => "Alternate select"@,
        Role::Hand => "Link select"@,
        Role::Pin => "Location select"@,
        Role::Person => "Person select"@,
    }
}

/// The roles `SetSystemCursor` does not document: resource ids Windows
/// honours after a reload but not as a live override.
pub open spec fn best_effort(r: Role) -> bool {
    r == Role::NWPen || r == Role::Pin || r == Role::Person
}

/// The roles Windows animates by default.
pub open spec fn animatable(r: Role) -> bool {
    r == Role::Wait || r == Role::AppStarting
}

/// Positions and roles correspond one to one.
pub proof fn lemma_role_index(r: Role)
    ensures
        0 <= role_index(r) < 17,
        role_at(role_index(r)) == r,
        ALL_ROLES@[role_index(r)] == r,
{
}

impl Role {
    /// The `HKCU\Control Panel\Cursors` value name. Fixed strings only.
    pub fn registry_value(self) -> (name: &'static str)
        ensures
            name@ == role_name(self),
    {
        match self {
            Role::Arrow => "Arrow",
            Role::Help => "Help",
            Role::AppStarting => "AppStarting",
            Role::Wait => "Wait",
            Role::Crosshair => "Crosshair",
            Role::IBeam => "IBeam",
            Role::NWPen => "NWPen",
            Role::No => "No",
            Role::SizeNS => "SizeNS",
            Role::SizeWE => "SizeWE",
            Role::SizeNWSE => "SizeNWSE",
            Role::SizeNESW => "SizeNESW",
            Role::SizeAll => "SizeAll",
            Role::UpArrow => "UpArrow",
            Role::Hand => "Hand",
            Role::Pin => "Pin",
            Role::Person => "Person",
        }
    }

    /// The `OCR_*` / `IDC_*` identifier `SetSystemCursor` expects.
    pub fn ocr_id(self) -> (id: u32)
        ensures
            id == role_ocr(self),
    {
        match self {
            Role::Arrow => 32512,
            Role::Help => 32651,
            Role::AppStarting => 32650,
            Role::Wait => 32514,
            Role::Crosshair => 32515,
            Role::IBeam => 32513,
            Role::NWPen => 32631,
            Role::No => 32648,
            Role::SizeNS => 32645,
            Role::SizeWE => 32644,
            Role::SizeNWSE => 32642,
            Role::SizeNESW => 32643,
            Role::SizeAll => 32646,
            Role::UpArrow => 32516,
            Role::Hand => 32649,
            Role::Pin => 32671,
            Role::Person => 32672,
        }
    }

    /// Whether `SetSystemCursor` may legitimately refuse this role: `NWPen`,
    /// `Pin` and `Person` are `IDC_*` resource ids, real scheme roles that
    /// Windows honours after a reload but not as a live in-session override.
    pub fn live_layer_is_best_effort(self) -> (b: bool)
        ensures
            b == best_effort(self),
    {
        match self {
            Role::NWPen | Role::Pin | Role::Person => true,
            _ => false,
        }
    }

    /// The size this role is drawn at. The size control scales the pointer;
    /// the link hand and the text I-beam are tools and stop growing at
    /// [`UNSCALED_ROLE_PX`]. It is a cap, so a small pointer keeps a small
    /// hand.
    pub fn size_from(self, requested: u32) -> (size: u32)
        ensures
            size == if (self == Role::Hand || self == Role::IBeam) && requested > UNSCALED_ROLE_PX {
                UNSCALED_ROLE_PX
            } else {
                requested
            },
    {
        match self {
            Role::Hand | Role::IBeam => if requested < UNSCALED_ROLE_PX { requested } else { UNSCALED_ROLE_PX },
            _ => requested,
        }
    }

    /// Filename stem used for this role inside a pack directory.
    pub fn file_stem(self) -> (stem: &'static str)
        ensures
            stem@ == role_name(self),
    {
        self.registry_value()
    }

    /// The label the Windows Pointers tab shows.
    pub fn label(self) -> (text: &'static str)
        ensures
            text@ == role_label(self),
    {
        match self {
            Role::Arrow => "Normal select",
            Role::Help => "Help select",
            Role::AppStarting => "Working in background",
            Role::Wait => "Busy",
            Role::Crosshair => "Precision select",
            Role::IBeam => "Text select",
            Role::NWPen => "Handwriting",
            Role::No => "Unavailable",
            Role::SizeNS => "Vertical resize",
            Role::SizeWE => "Horizontal resize",
            Role::SizeNWSE => "Diagonal resize 1",
            Role::SizeNESW => "Diagonal resize 2",
            Role::SizeAll => "Move",
            Role::UpArrow => "Alternate select",
            Role::Hand => "Link select",
            Role::Pin => "Location select",
            Role::Person => "Person select",
        }
    }

    /// Roles Windows animates by default. A pack may ship `.ani` for these.
    pub fn is_animatable(self) -> (b: bool)
        ensures
            b == animatable(self),
    {
        match self {
            Role::Wait | Role::AppStarting => true,
            _ => false,
        }
    }

    /// Parses a role name exactly. Anything unrecognised is refused rather
    /// than defaulted: a silent fallback to `Arrow` would let a malformed
    /// caller quietly rewrite the wrong pointer.
    pub fn parse(name: &str) -> (out: Result<Role, AppError>)
        ensures
            match out {
                Ok(r) => role_name(r) == name@,
                Err(e) => e == AppError::UnknownRole && forall|r: Role| role_name(r) != name@,
            },
    {
        let mut i: usize = 0;
        while i < 17
            invariant
                i <= 17,
                forall|j: int| 0 <= j < i ==> role_name(#[trigger] role_at(j)) != name@,
            decreases 17 - i,
        {
            let r = ALL_ROLES[i];
            assert(r == role_at(i as int));
            if same_text(r.registry_value(), name) {
                return Ok(r);
            }
            i = i + 1;
        }
        proof {
            assert forall|r: Role| role_name(r) != name@ by {
                lemma_role_index(r);
                assert(role_name(role_at(role_index(r))) != name@);
            }
        }
        Err(AppError::UnknownRole)
    }
}

/// Whether two strings hold the same text.
pub fn same_text(a: &str, b: &str) -> (same: bool)
    ensures
        same == (a@ == b@),
{
    let x = a.as_bytes();
    let y = b.as_bytes();
    proof {
        vstd::utf8::encode_utf8_decode_utf8(a@);
        vstd::utf8::encode_utf8_decode_utf8(b@);
    }
    if x.len() != y.len() {
        return false;
    }
    let mut i: usize = 0;
    while i < x.len()
        invariant
            x@ == vstd::utf8::encode_utf8(a@),
            y@ == vstd::utf8::encode_utf8(b@),
            x@.len() == y@.len(),
            i <= x@.len(),
            forall|j: int| 0 <= j < i ==> x@[j] == y@[j],
        decreases x@.len() - i,
    {
        if x[i] != y[i] {
            return false;
        }
        i = i + 1;
    }
    assert(x@ =~= y@);
    true
}

/// No two roles share a registry value name.
pub proof fn law_role_names_distinct(r1: Role, r2: Role)
    requires
        role_name(r1) == role_name(r2),
    ensures
        r1 == r2,
{
    match r1 {
        Role::Arrow => lemma_named_arrow(r2),
        Role::Help => lemma_named_help(r2),
        Role::AppStarting => lemma_named_appstarting(r2),
        Role::Wait => lemma_named_wait(r2),
        Role::Crosshair => lemma_named_crosshair(r2),
        Role::IBeam => lemma_named_ibeam(r2),
        Role::NWPen => lemma_named_nwpen(r2),
        Role::No => lemma_named_no(r2),
        Role::SizeNS => lemma_named_sizens(r2),
        Role::SizeWE => lemma_named_sizewe(r2),
        Role::SizeNWSE => lemma_named_sizenwse(r2),
        Role::SizeNESW => lemma_named_sizenesw(r2),
        Role::SizeAll => lemma_named_sizeall(r2),
        Role::UpArrow => lemma_named_uparrow(r2),
        Role::Hand => lemma_named_hand(r2),
        Role::Pin => lemma_named_pin(r2),
        Role::Person => lemma_named_person(r2),
    }
}

/// Only `Arrow` is named "Arrow".
proof fn lemma_named_arrow(r: Role)
    requires
        role_name(r) == "Arrow"@,
    ensures
        r == Role::Arrow,
{
    reveal_strlit("Arrow");
    reveal_strlit("Help");
    reveal_strlit("AppStarting");
    reveal_strlit("Wait");
    reveal_strlit("Crosshair");
    reveal_strlit("IBeam");
    reveal_strlit("NWPen");
    reveal_strlit("No");
    reveal_strlit("SizeNS");
    reveal_strlit("SizeWE");
    reveal_strlit("SizeNWSE");
    reveal_strlit("SizeNESW");
    reveal_strlit("SizeAll");
    reveal_strlit("UpArrow");
    reveal_strlit("Hand");
    reveal_strlit("Pin");
    reveal_strlit("Person");
    match r {
        Role::Arrow => {},
        Role::Help => { assert("Arrow"@.len() != "Help"@.len()); },
        Role::AppStarting => { assert("Arrow"@.len() != "AppStarting"@.len()); },
        Role::Wait => { assert("Arrow"@.len() != "Wait"@.len()); },
        Role::Crosshair => { assert("Arrow"@.len() != "Crosshair"@.len()); },
        Role::IBeam => { assert("Arrow"@[0] != "IBeam"@[0]); },
        Role::NWPen => { assert("Arrow"@[0] != "NWPen"@[0]); },
        Role::No => { assert("Arrow"@.len() != "No"@.len()); },
        Role::SizeNS => { assert("Arrow"@.len() != "SizeNS"@.len()); },
        Role::SizeWE => { assert("Arrow"@.len() != "SizeWE"@.len()); },
        Role::SizeNWSE => { assert("Arrow"@.len() != "SizeNWSE"@.len()); },
        Role::SizeNESW => { assert("Arrow"@.len() != "SizeNESW"@.len()); },
        Role::SizeAll => { assert("Arrow"@.len() != "SizeAll"@.len()); },
        Role::UpArrow => { assert("Arrow"@.len() != "UpArrow"@.len()); },
        Role::Hand => { assert("Arrow"@.len() != "Hand"@.len()); },
        Role::Pin => { assert("Arrow"@.len() != "Pin"@.len()); },
        Role::Person => { assert("Arrow"@.len() != "Person"@.len()); },
    }
}

/// Only `Help` is named "Help".
proof fn lemma_named_help(r: Role)
    requires
        role_name(r) == "Help"@,
    ensures
        r == Role::Help,
{
    reveal_strlit("Arrow");
    reveal_strlit("Help");
    reveal_strlit("AppStarting");
    reveal_strlit("Wait");
    reveal_strlit("Crosshair");
    reveal_strlit("IBeam");
    reveal_strlit("NWPen");
    reveal_strlit("No");
    reveal_strlit("SizeNS");
    reveal_strlit("SizeWE");
    reveal_strlit("SizeNWSE");
    reveal_strlit("SizeNESW");
    reveal_strlit("SizeAll");
    reveal_strlit("UpArrow");
    reveal_strlit("Hand");
    reveal_strlit("Pin");
    reveal_strlit("Person");
    match r {
        Role::Arrow => { assert("Help"@.len() != "Arrow"@.len()); },
        Role::Help => {},
        Role::AppStarting => { assert("Help"@.len() != "AppStarting"@.len()); },
        Role::Wait => { assert("Help"@[0] != "Wait"@[0]); },
        Role::Crosshair => { assert("Help"@.len() != "Crosshair"@.len()); },
        Role::IBeam => { assert("Help"@.len() != "IBeam"@.len()); },
        Role::NWPen => { assert("Help"@.len() != "NWPen"@.len()); },
        Role::No => { assert("Help"@.len() != "No"@.len()); },
        Role::SizeNS => { assert("Help"@.len() != "SizeNS"@.len()); },
        Role::SizeWE => { assert("Help"@.len() != "SizeWE"@.len()); },
        Role::SizeNWSE => { assert("Help"@.len() != "SizeNWSE"@.len()); },
        Role::SizeNESW => { assert("Help"@.len() != "SizeNESW"@.len()); },
        Role::SizeAll => { assert("Help"@.len() != "SizeAll"@.len()); },
        Role::UpArrow => { assert("Help"@.len() != "UpArrow"@.len()); },
        Role::Hand => { assert("Help"@[1] != "Hand"@[1]); },
        Role::Pin => { assert("Help"@.len() != "Pin"@.len()); },
        Role::Person => { assert("Help"@.len() != "Person"@.len()); },
    }
}

/// Only `AppStarting` is named "AppStarting".
proof fn lemma_named_appstarting(r: Role)
    requires
        role_name(r) == "AppStarting"@,
    ensures
        r == Role::AppStarting,
{
    reveal_strlit("Arrow");
    reveal_strlit("Help");
    reveal_strlit("AppStarting");
    reveal_strlit("Wait");
    reveal_strlit("Crosshair");
    reveal_strlit("IBeam");
    reveal_strlit("NWPen");
    reveal_strlit("No");
    reveal_strlit("SizeNS");
    reveal_strlit("SizeWE");
    reveal_strlit("SizeNWSE");
    reveal_strlit("SizeNESW");
    reveal_strlit("SizeAll");
    reveal_strlit("UpArrow");
    reveal_strlit("Hand");
    reveal_strlit("Pin");
    reveal_strlit("Person");
    match r {
        Role::Arrow => { assert("AppStarting"@.len() != "Arrow"@.len()); },
        Role::Help => { assert("AppStarting"@.len() != "Help"@.len()); },
        Role::AppStarting => {},
        Role::Wait => { assert("AppStarting"@.len() != "Wait"@.len()); },
        Role::Crosshair => { assert("AppStarting"@.len() != "Crosshair"@.len()); },
        Role::IBeam => { assert("AppStarting"@.len() != "IBeam"@.len()); },
        Role::NWPen => { assert("AppStarting"@.len() != "NWPen"@.len()); },
        Role::No => { assert("AppStarting"@.len() != "No"@.len()); },
        Role::SizeNS => { assert("AppStarting"@.len() != "SizeNS"@.len()); },
        Role::SizeWE => { assert("AppStarting"@.len() != "SizeWE"@.len()); },
        Role::SizeNWSE => { assert("AppStarting"@.len() != "SizeNWSE"@.len()); },
        Role::SizeNESW => { assert("AppStarting"@.len() != "SizeNESW"@.len()); },
        Role::SizeAll => { assert("AppStarting"@.len() != "SizeAll"@.len()); },
        Role::UpArrow => { assert("AppStarting"@.len() != "UpArrow"@.len()); },
        Role::Hand => { assert("AppStarting"@.len() != "Hand"@.len()); },
        Role::Pin => { assert("AppStarting"@.len() != "Pin"@.len()); },
        Role::Person => { assert("AppStarting"@.len() != "Person"@.len()); },
    }
}

/// Only `Wait` is named "Wait".
proof fn lemma_named_wait(r: Role)
    requires
        role_name(r) == "Wait"@,
    ensures
        r == Role::Wait,
{
    reveal_strlit("Arrow");
    reveal_strlit("Help");
    reveal_strlit("AppStarting");
    reveal_strlit("Wait");
    reveal_strlit("Crosshair");
    reveal_strlit("IBeam");
    reveal_strlit("NWPen");
    reveal_strlit("No");
    reveal_strlit("SizeNS");
    reveal_strlit("SizeWE");
    reveal_strlit("SizeNWSE");
    reveal_strlit("SizeNESW");
    reveal_strlit("SizeAll");
    reveal_strlit("UpArrow");
    reveal_strlit("Hand");
    reveal_strlit("Pin");
    reveal_strlit("Person");
    match r {
        Role::Arrow => { assert("Wait"@.len() != "Arrow"@.len()); },
        Role::Help => { assert("Wait"@[0] != "Help"@[0]); },
        Role::AppStarting => { assert("Wait"@.len() != "AppStarting"@.len()); },
        Role::Wait => {},
        Role::Crosshair => { assert("Wait"@.len() != "Crosshair"@.len()); },
        Role::IBeam => { assert("Wait"@.len() != "IBeam"@.len()); },
        Role::NWPen => { assert("Wait"@.len() != "NWPen"@.len()); },
        Role::No => { assert("Wait"@.len() != "No"@.len()); },
        Role::SizeNS => { assert("Wait"@.len() != "SizeNS"@.len()); },
        Role::SizeWE => { assert("Wait"@.len() != "SizeWE"@.len()); },
        Role::SizeNWSE => { assert("Wait"@.len() != "SizeNWSE"@.len()); },
        Role::SizeNESW => { assert("Wait"@.len() != "SizeNESW"@.len()); },
        Role::SizeAll => { assert("Wait"@.len() != "SizeAll"@.len()); },
        Role::UpArrow => { assert("Wait"@.len() != "UpArrow"@.len()); },
        Role::Hand => { assert("Wait"@[0] != "Hand"@[0]); },
        Role::Pin => { assert("Wait"@.len() != "Pin"@.len()); },
        Role::Person => { assert("Wait"@.len() != "Person"@.len()); },
    }
}

/// Only `Crosshair` is named "Crosshair".
proof fn lemma_named_crosshair(r: Role)
    requires
        role_name(r) == "Crosshair"@,
    ensures
        r == Role::Crosshair,
{
    reveal_strlit("Arrow");
    reveal_strlit("Help");
    reveal_strlit("AppStarting");
    reveal_strlit("Wait");
    reveal_strlit("Crosshair");
    reveal_strlit("IBeam");
    reveal_strlit("NWPen");
    reveal_strlit("No");
    reveal_strlit("SizeNS");
    reveal_strlit("SizeWE");
    reveal_strlit("SizeNWSE");
    reveal_strlit("SizeNESW");
    reveal_strlit("SizeAll");
    reveal_strlit("UpArrow");
    reveal_strlit("Hand");
    reveal_strlit("Pin");
    reveal_strlit("Person");
    match r {
        Role::Arrow => { assert("Crosshair"@.len() != "Arrow"@.len()); },
        Role::Help => { assert("Crosshair"@.len() != "Help"@.len()); },
        Role::AppStarting => { assert("Crosshair"@.len() != "AppStarting"@.len()); },
        Role::Wait => { assert("Crosshair"@.len() != "Wait"@.len()); },
        Role::Crosshair => {},
        Role::IBeam => { assert("Crosshair"@.len() != "IBeam"@.len()); },
        Role::NWPen => { assert("Crosshair"@.len() != "NWPen"@.len()); },
        Role::No => { assert("Crosshair"@.len() != "No"@.len()); },
        Role::SizeNS => { assert("Crosshair"@.len() != "SizeNS"@.len()); },
        Role::SizeWE => { assert("Crosshair"@.len() != "SizeWE"@.len()); },
        Role::SizeNWSE => { assert("Crosshair"@.len() != "SizeNWSE"@.len()); },
        Role::SizeNESW => { assert("Crosshair"@.len() != "SizeNESW"@.len()); },
        Role::SizeAll => { assert("Crosshair"@.len() != "SizeAll"@.len()); },
        Role::UpArrow => { assert("Crosshair"@.len() != "UpArrow"@.len()); },
        Role::Hand => { assert("Crosshair"@.len() != "Hand"@.len()); },
        Role::Pin => { assert("Crosshair"@.len() != "Pin"@.len()); },
        Role::Person => { assert("Crosshair"@.len() != "Person"@.len()); },
    }
}

/// Only `IBeam` is named "IBeam".
proof fn lemma_named_ibeam(r: Role)
    requires
        role_name(r) == "IBeam"@,
    ensures
        r == Role::IBeam,
{
    reveal_strlit("Arrow");
    reveal_strlit("Help");
    reveal_strlit("AppStarting");
    reveal_strlit("Wait");
    reveal_strlit("Crosshair");
    reveal_strlit("IBeam");
    reveal_strlit("NWPen");
    reveal_strlit("No");
    reveal_strlit("SizeNS");
    reveal_strlit("SizeWE");
    reveal_strlit("SizeNWSE");
    reveal_strlit("SizeNESW");
    reveal_strlit("SizeAll");
    reveal_strlit("UpArrow");
    reveal_strlit("Hand");
    reveal_strlit("Pin");
    reveal_strlit("Person");
    match r {
        Role::Arrow => { assert("IBeam"@[0] != "Arrow"@[0]); },
        Role::Help => { assert("IBeam"@.len() != "Help"@.len()); },
        Role::AppStarting => { assert("IBeam"@.len() != "AppStarting"@.len()); },
        Role::Wait => { assert("IBeam"@.len() != "Wait"@.len()); },
        Role::Crosshair => { assert("IBeam"@.len() != "Crosshair"@.len()); },
        Role::IBeam => {},
        Role::NWPen => { assert("IBeam"@[0] != "NWPen"@[0]); },
        Role::No => { assert("IBeam"@.len() != "No"@.len()); },
        Role::SizeNS => { assert("IBeam"@.len() != "SizeNS"@.len()); },
        Role::SizeWE => { assert("IBeam"@.len() != "SizeWE"@.len()); },
        Role::SizeNWSE => { assert("IBeam"@.len() != "SizeNWSE"@.len()); },
        Role::SizeNESW => { assert("IBeam"@.len() != "SizeNESW"@.len()); },
        Role::SizeAll => { assert("IBeam"@.len() != "SizeAll"@.len()); },
        Role::UpArrow => { assert("IBeam"@.len() != "UpArrow"@.len()); },
        Role::Hand => { assert("IBeam"@.len() != "Hand"@.len()); },
        Role::Pin => { assert("IBeam"@.len() != "Pin"@.len()); },
        Role::Person => { assert("IBeam"@.len() != "Person"@.len()); },
    }
}

/// Only `NWPen` is named "NWPen".
proof fn lemma_named_nwpen(r: Role)
    requires
        role_name(r) == "NWPen"@,
    ensures
        r == Role::NWPen,
{
    reveal_strlit("Arrow");
    reveal_strlit("Help");
    reveal_strlit("AppStarting");
    reveal_strlit("Wait");
    reveal_strlit("Crosshair");
    reveal_strlit("IBeam");
    reveal_strlit("NWPen");
    reveal_strlit("No");
    reveal_strlit("SizeNS");
    reveal_strlit("SizeWE");
    reveal_strlit("SizeNWSE");
    reveal_strlit("SizeNESW");
    reveal_strlit("SizeAll");
    reveal_strlit("UpArrow");
    reveal_strlit("Hand");
    reveal_strlit("Pin");
    reveal_strlit("Person");
    match r {
        Role::Arrow => { assert("NWPen"@[0] != "Arrow"@[0]); },
        Role::Help => { assert("NWPen"@.len() != "Help"@.len()); },
        Role::AppStarting => { assert("NWPen"@.len() != "AppStarting"@.len()); },
        Role::Wait => { assert("NWPen"@.len() != "Wait"@.len()); },
        Role::Crosshair => { assert("NWPen"@.len() != "Crosshair"@.len()); },
        Role::IBeam => { assert("NWPen"@[0] != "IBeam"@[0]); },
        Role::NWPen => {},
        Role::No => { assert("NWPen"@.len() != "No"@.len()); },
        Role::SizeNS => { assert("NWPen"@.len() != "SizeNS"@.len()); },
        Role::SizeWE => { assert("NWPen"@.len() != "SizeWE"@.len()); },
        Role::SizeNWSE => { assert("NWPen"@.len() != "SizeNWSE"@.len()); },
        Role::SizeNESW => { assert("NWPen"@.len() != "SizeNESW"@.len()); },
        Role::SizeAll => { assert("NWPen"@.len() != "SizeAll"@.len()); },
        Role::UpArrow => { assert("NWPen"@.len() != "UpArrow"@.len()); },
        Role::Hand => { assert("NWPen"@.len() != "Hand"@.len()); },
        Role::Pin => { assert("NWPen"@.len() != "Pin"@.len()); },
        Role::Person => { assert("NWPen"@.len() != "Person"@.len()); },
    }
}

/// Only `No` is named "No".
proof fn lemma_named_no(r: Role)
    requires
        role_name(r) == "No"@,
    ensures
        r == Role::No,
{
    reveal_strlit("Arrow");
    reveal_strlit("Help");
    reveal_strlit("AppStarting");
    reveal_strlit("Wait");
    reveal_strlit("Crosshair");
    reveal_strlit("IBeam");
    reveal_strlit("NWPen");
    reveal_strlit("No");
    reveal_strlit("SizeNS");
    reveal_strlit("SizeWE");
    reveal_strlit("SizeNWSE");
    reveal_strlit("SizeNESW");
    reveal_strlit("SizeAll");
    reveal_strlit("UpArrow");
    reveal_strlit("Hand");
    reveal_strlit("Pin");
    reveal_strlit("Person");
    match r {
        Role::Arrow => { assert("No"@.len() != "Arrow"@.len()); },
        Role::Help => { assert("No"@.len() != "Help"@.len()); },
        Role::AppStarting => { assert("No"@.len() != "AppStarting"@.len()); },
        Role::Wait => { assert("No"@.len() != "Wait"@.len()); },
        Role::Crosshair => { assert("No"@.len() != "Crosshair"@.len()); },
        Role::IBeam => { assert("No"@.len() != "IBeam"@.len()); },
        Role::NWPen => { assert("No"@.len() != "NWPen"@.len()); },
        Role::No => {},
        Role::SizeNS => { assert("No"@.len() != "SizeNS"@.len()); },
        Role::SizeWE => { assert("No"@.len() != "SizeWE"@.len()); },
        Role::SizeNWSE => { assert("No"@.len() != "SizeNWSE"@.len()); },
        Role::SizeNESW => { assert("No"@.len() != "SizeNESW"@.len()); },
        Role::SizeAll => { assert("No"@.len() != "SizeAll"@.len()); },
        Role::UpArrow => { assert("No"@.len() != "UpArrow"@.len()); },
        Role::Hand => { assert("No"@.len() != "Hand"@.len()); },
        Role::Pin => { assert("No"@.len() != "Pin"@.len()); },
        Role::Person => { assert("No"@.len() != "Person"@.len()); },
    }
}

/// Only `SizeNS` is named "SizeNS".
proof fn lemma_named_sizens(r: Role)
    requires
        role_name(r) == "SizeNS"@,
    ensures
        r == Role::SizeNS,
{
    reveal_strlit("Arrow");
    reveal_strlit("Help");
    reveal_strlit("AppStarting");
    reveal_strlit("Wait");
    reveal_strlit("Crosshair");
    reveal_strlit("IBeam");
    reveal_strlit("NWPen");
    reveal_strlit("No");
    reveal_strlit("SizeNS");
    reveal_strlit("SizeWE");
    reveal_strlit("SizeNWSE");
    reveal_strlit("SizeNESW");
    reveal_strlit("SizeAll");
    reveal_strlit("UpArrow");
    reveal_strlit("Hand");
    reveal_strlit("Pin");
    reveal_strlit("Person");
    match r {
        Role::Arrow => { assert("SizeNS"@.len() != "Arrow"@.len()); },
        Role::Help => { assert("SizeNS"@.len() != "Help"@.len()); },
        Role::AppStarting => { assert("SizeNS"@.len() != "AppStarting"@.len()); },
        Role::Wait => { assert("SizeNS"@.len() != "Wait"@.len()); },
        Role::Crosshair => { assert("SizeNS"@.len() != "Crosshair"@.len()); },
        Role::IBeam => { assert("SizeNS"@.len() != "IBeam"@.len()); },
        Role::NWPen => { assert("SizeNS"@.len() != "NWPen"@.len()); },
        Role::No => { assert("SizeNS"@.len() != "No"@.len()); },
        Role::SizeNS => {},
        Role::SizeWE => { assert("SizeNS"@[4] != "SizeWE"@[4]); },
        Role::SizeNWSE => { assert("SizeNS"@.len() != "SizeNWSE"@.len()); },
        Role::SizeNESW => { assert("SizeNS"@.len() != "SizeNESW"@.len()); },
        Role::SizeAll => { assert("SizeNS"@.len() != "SizeAll"@.len()); },
        Role::UpArrow => { assert("SizeNS"@.len() != "UpArrow"@.len()); },
        Role::Hand => { assert("SizeNS"@.len() != "Hand"@.len()); },
        Role::Pin => { assert("SizeNS"@.len() != "Pin"@.len()); },
        Role::Person => { assert("SizeNS"@[0] != "Person"@[0]); },
    }
}

/// Only `SizeWE` is named "SizeWE".
proof fn lemma_named_sizewe(r: Role)
    requires
        role_name(r) == "SizeWE"@,
    ensures
        r == Role::SizeWE,
{
    reveal_strlit("Arrow");
    reveal_strlit("Help");
    reveal_strlit("AppStarting");
    reveal_strlit("Wait");
    reveal_strlit("Crosshair");
    reveal_strlit("IBeam");
    reveal_strlit("NWPen");
    reveal_strlit("No");
    reveal_strlit("SizeNS");
    reveal_strlit("SizeWE");
    reveal_strlit("SizeNWSE");
    reveal_strlit("SizeNESW");
    reveal_strlit("SizeAll");
    reveal_strlit("UpArrow");
    reveal_strlit("Hand");
    reveal_strlit("Pin");
    reveal_strlit("Person");
    match r {
        Role::Arrow => { assert("SizeWE"@.len() != "Arrow"@.len()); },
        Role::Help => { assert("SizeWE"@.len() != "Help"@.len()); },
        Role::AppStarting => { assert("SizeWE"@.len() != "AppStarting"@.len()); },
        Role::Wait => { assert("SizeWE"@.len() != "Wait"@.len()); },
        Role::Crosshair => { assert("SizeWE"@.len() != "Crosshair"@.len()); },
        Role::IBeam => { assert("SizeWE"@.len() != "IBeam"@.len()); },
        Role::NWPen => { assert("SizeWE"@.len() != "NWPen"@.len()); },
        Role::No => { assert("SizeWE"@.len() != "No"@.len()); },
        Role::SizeNS => { assert("SizeWE"@[4] != "SizeNS"@[4]); },
        Role::SizeWE => {},
        Role::SizeNWSE => { assert("SizeWE"@.len() != "SizeNWSE"@.len()); },
        Role::SizeNESW => { assert("SizeWE"@.len() != "SizeNESW"@.len()); },
        Role::SizeAll => { assert("SizeWE"@.len() != "SizeAll"@.len()); },
        Role::UpArrow => { assert("SizeWE"@.len() != "UpArrow"@.len()); },
        Role::Hand => { assert("SizeWE"@.len() != "Hand"@.len()); },
        Role::Pin => { assert("SizeWE"@.len() != "Pin"@.len()); },
        Role::Person => { assert("SizeWE"@[0] != "Person"@[0]); },
    }
}

/// Only `SizeNWSE` is named "SizeNWSE".
proof fn lemma_named_sizenwse(r: Role)
    requires
        role_name(r) == "SizeNWSE"@,
    ensures
        r == Role::SizeNWSE,
{
    reveal_strlit("Arrow");
    reveal_strlit("Help");
    reveal_strlit("AppStarting");
    reveal_strlit("Wait");
    reveal_strlit("Crosshair");
    reveal_strlit("IBeam");
    reveal_strlit("NWPen");
    reveal_strlit("No");
    reveal_strlit("SizeNS");
    reveal_strlit("SizeWE");
    reveal_strlit("SizeNWSE");
    reveal_strlit("SizeNESW");
    reveal_strlit("SizeAll");
    reveal_strlit("UpArrow");
    reveal_strlit("Hand");
    reveal_strlit("Pin");
    reveal_strlit("Person");
    match r {
        Role::Arrow => { assert("SizeNWSE"@.len() != "Arrow"@.len()); },
        Role::Help => { assert("SizeNWSE"@.len() != "Help"@.len()); },
        Role::AppStarting => { assert("SizeNWSE"@.len() != "AppStarting"@.len()); },
        Role::Wait => { assert("SizeNWSE"@.len() != "Wait"@.len()); },
        Role::Crosshair => { assert("SizeNWSE"@.len() != "Crosshair"@.len()); },
        Role::IBeam => { assert("SizeNWSE"@.len() != "IBeam"@.len()); },
        Role::NWPen => { assert("SizeNWSE"@.len() != "NWPen"@.len()); },
        Role::No => { assert("SizeNWSE"@.len() != "No"@.len()); },
        Role::SizeNS => { assert("SizeNWSE"@.len() != "SizeNS"@.len()); },
        Role::SizeWE => { assert("SizeNWSE"@.len() != "SizeWE"@.len()); },
        Role::SizeNWSE => {},
        Role::SizeNESW => { assert("SizeNWSE"@[5] != "SizeNESW"@[5]); },
        Role::SizeAll => { assert("SizeNWSE"@.len() != "SizeAll"@.len()); },
        Role::UpArrow => { assert("SizeNWSE"@.len() != "UpArrow"@.len()); },
        Role::Hand => { assert("SizeNWSE"@.len() != "Hand"@.len()); },
        Role::Pin => { assert("SizeNWSE"@.len() != "Pin"@.len()); },
        Role::Person => { assert("SizeNWSE"@.len() != "Person"@.len()); },
    }
}

/// Only `SizeNESW` is named "SizeNESW".
proof fn lemma_named_sizenesw(r: Role)
    requires
        role_name(r) == "SizeNESW"@,
    ensures
        r == Role::SizeNESW,
{
    reveal_strlit("Arrow");
    reveal_strlit("Help");
    reveal_strlit("AppStarting");
    reveal_strlit("Wait");
    reveal_strlit("Crosshair");
    reveal_strlit("IBeam");
    reveal_strlit("NWPen");
    reveal_strlit("No");
    reveal_strlit("SizeNS");
    reveal_strlit("SizeWE");
    reveal_strlit("SizeNWSE");
    reveal_strlit("SizeNESW");
    reveal_strlit("SizeAll");
    reveal_strlit("UpArrow");
    reveal_strlit("Hand");
    reveal_strlit("Pin");
    reveal_strlit("Person");
    match r {
        Role::Arrow => { assert("SizeNESW"@.len() != "Arrow"@.len()); },
        Role::Help => { assert("SizeNESW"@.len() != "Help"@.len()); },
        Role::AppStarting => { assert("SizeNESW"@.len() != "AppStarting"@.len()); },
        Role::Wait => { assert("SizeNESW"@.len() != "Wait"@.len()); },
        Role::Crosshair => { assert("SizeNESW"@.len() != "Crosshair"@.len()); },
        Role::IBeam => { assert("SizeNESW"@.len() != "IBeam"@.len()); },
        Role::NWPen => { assert("SizeNESW"@.len() != "NWPen"@.len()); },
        Role::No => { assert("SizeNESW"@.len() != "No"@.len()); },
        Role::SizeNS => { assert("SizeNESW"@.len() != "SizeNS"@.len()); },
        Role::SizeWE => { assert("SizeNESW"@.len() != "SizeWE"@.len()); },
        Role::SizeNWSE => { assert("SizeNESW"@[5] != "SizeNWSE"@[5]); },
        Role::SizeNESW => {},
        Role::SizeAll => { assert("SizeNESW"@.len() != "SizeAll"@.len()); },
        Role::UpArrow => { assert("SizeNESW"@.len() != "UpArrow"@.len()); },
        Role::Hand => { assert("SizeNESW"@.len() != "Hand"@.len()); },
        Role::Pin => { assert("SizeNESW"@.len() != "Pin"@.len()); },
        Role::Person => { assert("SizeNESW"@.len() != "Person"@.len()); },
    }
}

/// Only `SizeAll` is named "SizeAll".
proof fn lemma_named_sizeall(r: Role)
    requires
        role_name(r) == "SizeAll"@,
    ensures
        r == Role::SizeAll,
{
    reveal_strlit("Arrow");
    reveal_strlit("Help");
    reveal_strlit("AppStarting");
    reveal_strlit("Wait");
    reveal_strlit("Crosshair");
    reveal_strlit("IBeam");
    reveal_strlit("NWPen");
    reveal_strlit("No");
    reveal_strlit("SizeNS");
    reveal_strlit("SizeWE");
    reveal_strlit("SizeNWSE");
    reveal_strlit("SizeNESW");
    reveal_strlit("SizeAll");
    reveal_strlit("UpArrow");
    reveal_strlit("Hand");
    reveal_strlit("Pin");
    reveal_strlit("Person");
    match r {
        Role::Arrow => { assert("SizeAll"@.len() != "Arrow"@.len()); },
        Role::Help => { assert("SizeAll"@.len() != "Help"@.len()); },
        Role::AppStarting => { assert("SizeAll"@.len() != "AppStarting"@.len()); },
        Role::Wait => { assert("SizeAll"@.len() != "Wait"@.len()); },
        Role::Crosshair => { assert("SizeAll"@.len() != "Crosshair"@.len()); },
        Role::IBeam => { assert("SizeAll"@.len() != "IBeam"@.len()); },
        Role::NWPen => { assert("SizeAll"@.len() != "NWPen"@.len()); },
        Role::No => { assert("SizeAll"@.len() != "No"@.len()); },
        Role::SizeNS => { assert("SizeAll"@.len() != "SizeNS"@.len()); },
        Role::SizeWE => { assert("SizeAll"@.len() != "SizeWE"@.len()); },
        Role::SizeNWSE => { assert("SizeAll"@.len() != "SizeNWSE"@.len()); },
        Role::SizeNESW => { assert("SizeAll"@.len() != "SizeNESW"@.len()); },
        Role::SizeAll => {},
        Role::UpArrow => { assert("SizeAll"@[0] != "UpArrow"@[0]); },
        Role::Hand => { assert("SizeAll"@.len() != "Hand"@.len()); },
        Role::Pin => { assert("SizeAll"@.len() != "Pin"@.len()); },
        Role::Person => { assert("SizeAll"@.len() != "Person"@.len()); },
    }
}

/// Only `UpArrow` is named "UpArrow".
proof fn lemma_named_uparrow(r: Role)
    requires
        role_name(r) == "UpArrow"@,
    ensures
        r == Role::UpArrow,
{
    reveal_strlit("Arrow");
    reveal_strlit("Help");
    reveal_strlit("AppStarting");
    reveal_strlit("Wait");
    reveal_strlit("Crosshair");
    reveal_strlit("IBeam");
    reveal_strlit("NWPen");
    reveal_strlit("No");
    reveal_strlit("SizeNS");
    reveal_strlit("SizeWE");
    reveal_strlit("SizeNWSE");
    reveal_strlit("SizeNESW");
    reveal_strlit("SizeAll");
    reveal_strlit("UpArrow");
    reveal_strlit("Hand");
    reveal_strlit("Pin");
    reveal_strlit("Person");
    match r {
        Role::Arrow => { assert("UpArrow"@.len() != "Arrow"@.len()); },
        Role::Help => { assert("UpArrow"@.len() != "Help"@.len()); },
        Role::AppStarting => { assert("UpArrow"@.len() != "AppStarting"@.len()); },
        Role::Wait => { assert("UpArrow"@.len() != "Wait"@.len()); },
        Role::Crosshair => { assert("UpArrow"@.len() != "Crosshair"@.len()); },
        Role::IBeam => { assert("UpArrow"@.len() != "IBeam"@.len()); },
        Role::NWPen => { assert("UpArrow"@.len() != "NWPen"@.len()); },
        Role::No => { assert("UpArrow"@.len() != "No"@.len()); },
        Role::SizeNS => { assert("UpArrow"@.len() != "SizeNS"@.len()); },
        Role::SizeWE => { assert("UpArrow"@.len() != "SizeWE"@.len()); },
        Role::SizeNWSE => { assert("UpArrow"@.len() != "SizeNWSE"@.len()); },
        Role::SizeNESW => { assert("UpArrow"@.len() != "SizeNESW"@.len()); },
        Role::SizeAll => { assert("UpArrow"@[0] != "SizeAll"@[0]); },
        Role::UpArrow => {},
        Role::Hand => { assert("UpArrow"@.len() != "Hand"@.len()); },
        Role::Pin => { assert("UpArrow"@.len() != "Pin"@.len()); },
        Role::Person => { assert("UpArrow"@.len() != "Person"@.len()); },
    }
}

/// Only `Hand` is named "Hand".
proof fn lemma_named_hand(r: Role)
    requires
        role_name(r) == "Hand"@,
    ensures
        r == Role::Hand,
{
    reveal_strlit("Arrow");
    reveal_strlit("Help");
    reveal_strlit("AppStarting");
    reveal_strlit("Wait");
    reveal_strlit("Crosshair");
    reveal_strlit("IBeam");
    reveal_strlit("NWPen");
    reveal_strlit("No");
    reveal_strlit("SizeNS");
    reveal_strlit("SizeWE");
    reveal_strlit("SizeNWSE");
    reveal_strlit("SizeNESW");
    reveal_strlit("SizeAll");
    reveal_strlit("UpArrow");
    reveal_strlit("Hand");
    reveal_strlit("Pin");
    reveal_strlit("Person");
    match r {
        Role::Arrow => { assert("Hand"@.len() != "Arrow"@.len()); },
        Role::Help => { assert("Hand"@[1] != "Help"@[1]); },
        Role::AppStarting => { assert("Hand"@.len() != "AppStarting"@.len()); },
        Role::Wait => { assert("Hand"@[0] != "Wait"@[0]); },
        Role::Crosshair => { assert("Hand"@.len() != "Crosshair"@.len()); },
        Role::IBeam => { assert("Hand"@.len() != "IBeam"@.len()); },
        Role::NWPen => { assert("Hand"@.len() != "NWPen"@.len()); },
        Role::No => { assert("Hand"@.len() != "No"@.len()); },
        Role::SizeNS => { assert("Hand"@.len() != "SizeNS"@.len()); },
        Role::SizeWE => { assert("Hand"@.len() != "SizeWE"@.len()); },
        Role::SizeNWSE => { assert("Hand"@.len() != "SizeNWSE"@.len()); },
        Role::SizeNESW => { assert("Hand"@.len() != "SizeNESW"@.len()); },
        Role::SizeAll => { assert("Hand"@.len() != "SizeAll"@.len()); },
        Role::UpArrow => { assert("Hand"@.len() != "UpArrow"@.len()); },
        Role::Hand => {},
        Role::Pin => { assert("Hand"@.len() != "Pin"@.len()); },
        Role::Person => { assert("Hand"@.len() != "Person"@.len()); },
    }
}

/// Only `Pin` is named "Pin".
proof fn lemma_named_pin(r: Role)
    requires
        role_name(r) == "Pin"@,
    ensures
        r == Role::Pin,
{
    reveal_strlit("Arrow");
    reveal_strlit("Help");
    reveal_strlit("AppStarting");
    reveal_strlit("Wait");
    reveal_strlit("Crosshair");
    reveal_strlit("IBeam");
    reveal_strlit("NWPen");
    reveal_strlit("No");
    reveal_strlit("SizeNS");
    reveal_strlit("SizeWE");
    reveal_strlit("SizeNWSE");
    reveal_strlit("SizeNESW");
    reveal_strlit("SizeAll");
    reveal_strlit("UpArrow");
    reveal_strlit("Hand");
    reveal_strlit("Pin");
    reveal_strlit("Person");
    match r {
        Role::Arrow => { assert("Pin"@.len() != "Arrow"@.len()); },
        Role::Help => { assert("Pin"@.len() != "Help"@.len()); },
        Role::AppStarting => { assert("Pin"@.len() != "AppStarting"@.len()); },
        Role::Wait => { assert("Pin"@.len() != "Wait"@.len()); },
        Role::Crosshair => { assert("Pin"@.len() != "Crosshair"@.len()); },
        Role::IBeam => { assert("Pin"@.len() != "IBeam"@.len()); },
        Role::NWPen => { assert("Pin"@.len() != "NWPen"@.len()); },
        Role::No => { assert("Pin"@.len() != "No"@.len()); },
        Role::SizeNS => { assert("Pin"@.len() != "SizeNS"@.len()); },
        Role::SizeWE => { assert("Pin"@.len() != "SizeWE"@.len()); },
        Role::SizeNWSE => { assert("Pin"@.len() != "SizeNWSE"@.len()); },
        Role::SizeNESW => { assert("Pin"@.len() != "SizeNESW"@.len()); },
        Role::SizeAll => { assert("Pin"@.len() != "SizeAll"@.len()); },
        Role::UpArrow => { assert("Pin"@.len() != "UpArrow"@.len()); },
        Role::Hand => { assert("Pin"@.len() != "Hand"@.len()); },
        Role::Pin => {},
        Role::Person => { assert("Pin"@.len() != "Person"@.len()); },
    }
}

/// Only `Person` is named "Person".
proof fn lemma_named_person(r: Role)
    requires
        role_name(r) == "Person"@,
    ensures
        r == Role::Person,
{
    reveal_strlit("Arrow");
    reveal_strlit("Help");
    reveal_strlit("AppStarting");
    reveal_strlit("Wait");
    reveal_strlit("Crosshair");
    reveal_strlit("IBeam");
    reveal_strlit("NWPen");
    reveal_strlit("No");
    reveal_strlit("SizeNS");
    reveal_strlit("SizeWE");
    reveal_strlit("SizeNWSE");
    reveal_strlit("SizeNESW");
    reveal_strlit("SizeAll");
    reveal_strlit("UpArrow");
    reveal_strlit("Hand");
    reveal_strlit("Pin");
    reveal_strlit("Person");
    match r {
        Role::Arrow => { assert("Person"@.len() != "Arrow"@.len()); },
        Role::Help => { assert("Person"@.len() != "Help"@.len()); },
        Role::AppStarting => { assert("Person"@.len() != "AppStarting"@.len()); },
        Role::Wait => { assert("Person"@.len() != "Wait"@.len()); },
        Role::Crosshair => { assert("Person"@.len() != "Crosshair"@.len()); },
        Role::IBeam => { assert("Person"@.len() != "IBeam"@.len()); },
        Role::NWPen => { assert("Person"@.len() != "NWPen"@.len()); },
        Role::No => { assert("Person"@.len() != "No"@.len()); },
        Role::SizeNS => { assert("Person"@[0] != "SizeNS"@[0]); },
        Role::SizeWE => { assert("Person"@[0] != "SizeWE"@[0]); },
        Role::SizeNWSE => { assert("Person"@.len() != "SizeNWSE"@.len()); },
        Role::SizeNESW => { assert("Person"@.len() != "SizeNESW"@.len()); },
        Role::SizeAll => { assert("Person"@.len() != "SizeAll"@.len()); },
        Role::UpArrow => { assert("Person"@.len() != "UpArrow"@.len()); },
        Role::Hand => { assert("Person"@.len() != "Hand"@.len()); },
        Role::Pin => { assert("Person"@.len() != "Pin"@.len()); },
        Role::Person => {},
    }
}

/// No two roles share an OCR id.
pub proof fn law_role_ids_distinct(r1: Role, r2: Role)
    requires
        role_ocr(r1) == role_ocr(r2),
    ensures
        r1 == r2,
{
}

/// Every role's registry value name is one that [`Role::parse`] gives back:
/// parsing is the inverse of naming.
pub proof fn law_parse_inverts_name(r: Role, other: Role)
    requires
        role_name(other) == role_name(r),
    ensures
        other == r,
{
    law_role_names_distinct(other, r);
}

} // verus!
