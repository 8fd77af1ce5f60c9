//! The one thing two channels cannot each have their own of: the pointer
//! scheme, which is a single set of registry values per Windows user.
//!
//! Ownership is a named lock and identity a small advisory record; what is
//! decided from them — who holds the pointer, what the person at the keyboard
//! is told, whose snapshot may be taken over — is decided here.

use vstd::prelude::*;
use crate::channel::NAME;
use crate::text::{append, chars_of, same_chars};

verus! {

/// Who holds the pointer, as the shared record says.
pub struct Holder {
    /// `user` or `dev`.
    pub channel: String,
    /// What to call it in a sentence.
    pub product_name: String,
    pub pid: u32,
    pub since: String,
    /// True when the holder is this very process.
    pub is_us: bool,
}

/// What a channel is called in a sentence.
pub open spec fn product_name_of(channel: Seq<char>) -> Seq<char> {
    if channel == "dev"@ { "Cursed Dev"@ } else { "Cursed"@ }
}

/// The holder described by the record's values: the channel's name (without
/// it nobody has ever said), the process id (0 when absent) and the time it
/// claimed (empty when absent). `our_pid` is this process's id.
pub open spec fn holder_of(channel: Seq<char>, pid: u32, since: Seq<char>, our_pid: u32, h: Holder) -> bool {
    &&& h.channel@ == channel
    &&& h.product_name@ == product_name_of(channel)
    &&& h.pid == pid
    &&& h.since@ == since
    &&& h.is_us == (channel == NAME@ && pid == our_pid)
}

/// Who currently claims the pointer, if the record names anyone.
pub fn holder(channel: Option<String>, pid: Option<u32>, since: Option<String>, our_pid: u32) -> (out: Option<Holder>)
    ensures
        match channel {
            None => out is None,
            Some(c) => out is Some && holder_of(
                c@,
                match pid { Some(p) => p, None => 0 },
                match since { Some(s) => s@, None => Seq::empty() },
                our_pid,
                out->Some_0,
            ),
        },
{
    let name = match channel {
        Some(c) => c,
        None => return None,
    };
    let pid: u32 = match pid {
        Some(p) => p,
        None => 0,
    };
    let since = match since {
        Some(s) => s,
        None => String::new(),
    };
    let chars = chars_of(name.as_str());
    let ours = chars_of(NAME);
    let dev = chars_of("dev");
    let is_us = same_chars(&chars, &ours) && pid == our_pid;
    let mut product_name = String::new();
    if same_chars(&chars, &dev) {
        append(&mut product_name, "Cursed Dev");
    } else {
        append(&mut product_name, "Cursed");
    }
    proof {
        reveal_strlit("dev");
    }
    Some(Holder { channel: name, product_name, pid, since, is_us })
}

/// What this channel tells the person at the keyboard when it stands down.
pub open spec fn notice_text(product_name: Seq<char>) -> Seq<char> {
    product_name + " is currently managing the cursor, so this copy will not defend the scheme."@
}

/// What to say when this channel is not defending the scheme: nothing when it
/// holds the pointer, when nobody claims it, or when the claim is this
/// process's own.
pub fn deferral_notice(owns_pointer: bool, other: Option<Holder>) -> (out: Option<String>)
    ensures
        match other {
            Some(h) if !owns_pointer && !h.is_us => out is Some && out->Some_0@ == notice_text(h.product_name@),
            _ => out is None,
        },
{
    if owns_pointer {
        return None;
    }
    let other = match other {
        Some(h) => h,
        None => return None,
    };
    if other.is_us {
        return None;
    }
    let mut text = String::new();
    append(&mut text, other.product_name.as_str());
    append(&mut text, " is currently managing the cursor, so this copy will not defend the scheme.");
    Some(text)
}

/// Whether the snapshot recorded by `owner` may be taken over: only the
/// other channel's. This channel's own record is never adopted back.
pub fn may_adopt(owner: &str) -> (b: bool)
    ensures
        b == (owner@ != NAME@),
{
    let a = chars_of(owner);
    let b = chars_of(NAME);
    !same_chars(&a, &b)
}

} // verus!
