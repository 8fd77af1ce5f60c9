//! Which of the two installs this library is built for: the user channel.
//!
//! Every name Windows uses to tell two installs apart is derived from the
//! constants here and nowhere else.

use vstd::prelude::*;

verus! {

/// The `%APPDATA%` folder this channel keeps its data in.
pub const DATA_DIR: &'static str = "Cursed";

/// What the channel is called everywhere Windows can see it.
pub const PRODUCT_NAME: &'static str = "Cursed";

pub const IDENTIFIER: &'static str = "dev.feylo.cursed";

/// Searched for in the shipped binary.
pub const MARKER: &'static str = "CURSED-CHANNEL:USER";

pub const NAME: &'static str = "user";

/// This is not the development channel.
pub const IS_DEV: bool = false;

/// Prefixes the entries this channel registers in the Windows Pointers
/// dropdown, so an uninstall can remove exactly its own.
pub const SCHEME_PREFIX: &'static str = "Cursed \u{2014} ";

/// The name of the cross-channel pointer lock. Not channel-scoped: there is
/// one system cursor scheme to own.
pub const POINTER_LOCK: &'static str = "Local\\dev.feylo.cursed.pointer";

/// Where the two channels leave each other notes. Not channel-scoped either.
pub const CROSS_CHANNEL_KEY: &'static str = "Software\\Cursed";

/// The scheme prefix used before the app was renamed.
pub open spec fn legacy_prefix_text() -> Seq<char> {
    "CursorForge \u{2014} "@
}

/// The scheme prefix this channel may clean up on top of its own: the one
/// from before the app was renamed, which only the user channel inherits.
pub fn legacy_scheme_prefix() -> (out: Option<&'static str>)
    ensures
        match out {
            Some(p) => !IS_DEV && p@ == legacy_prefix_text(),
            None => IS_DEV,
        },
{
    if IS_DEV {
        None
    } else {
        Some("CursorForge \u{2014} ")
    }
}

/// Whether this build registers system-wide hotkeys by default. Global
/// shortcuts are first-come-first-served, and the development build yields.
pub fn claims_hotkeys_by_default() -> (b: bool)
    ensures
        b == !IS_DEV,
{
    !IS_DEV
}

/// Whether this build runs the pointer watchdog by default: two watchdogs
/// would fight, and the user channel is the one that defends the scheme.
pub fn guards_pointer_by_default() -> (b: bool)
    ensures
        b == !IS_DEV,
{
    !IS_DEV
}

/// The `%APPDATA%` folder the app used to use, which only the user channel
/// inherits.
pub fn legacy_data_dir() -> (out: Option<&'static str>)
    ensures
        match out {
            Some(d) => !IS_DEV && d@ == "CursorForge"@,
            None => IS_DEV,
        },
{
    if IS_DEV {
        None
    } else {
        Some("CursorForge")
    }
}

} // verus!
