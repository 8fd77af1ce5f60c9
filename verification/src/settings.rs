//! The user's choices that the rest of the library reads.

use vstd::prelude::*;

verus! {

/// The smallest pointer size the size control offers, in pixels.
pub const MIN_CURSOR_PX: u32 = 10;

/// The largest pointer size the size control offers, in pixels: the top of
/// the resolution ladder.
pub const MAX_CURSOR_PX: u32 = 128;

/// Which roles an apply covers.
#[derive(Debug, Clone, Copy, PartialEq, Eq, Structural)]
pub enum ApplyMode {
    /// The arrow and nothing else.
    ArrowOnly,
    /// The roles a person actually notices.
    Recommended,
    /// Every role.
    All,
    /// Every role, blended with what is there; for a complete pack the same
    /// as `All`.
    Blend,
}

} // verus!
