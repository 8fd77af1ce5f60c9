//! Launch on sign-in: an autostarted launch carries a flag that sends it
//! straight to the tray instead of opening a window on someone who just
//! signed in.

use vstd::prelude::*;
use crate::text::{chars_of, same_chars};

verus! {

/// The argument the autostart entry launches the app with.
pub const SILENT_FLAG: &'static str = "--silent";

/// Whether the process was started by the autostart entry: one of its
/// arguments is exactly the silent flag. A substring match would let an
/// unrelated argument send the app to the tray.
pub fn launched_silently(arguments: &Vec<String>) -> (b: bool)
    ensures
        b == exists|i: int| 0 <= i < arguments@.len() && (#[trigger] arguments@[i])@ == SILENT_FLAG@,
{
    let flag = chars_of(SILENT_FLAG);
    let mut i: usize = 0;
    while i < arguments.len()
        invariant
            i <= arguments@.len(),
            flag@ == SILENT_FLAG@,
            forall|k: int| 0 <= k < i ==> (#[trigger] arguments@[k])@ != SILENT_FLAG@,
        decreases arguments@.len() - i,
    {
        let a = chars_of(arguments[i].as_str());
        if same_chars(&a, &flag) {
            assert((arguments@[i as int])@ == SILENT_FLAG@);
            return true;
        }
        i = i + 1;
    }
    false
}

} // verus!
