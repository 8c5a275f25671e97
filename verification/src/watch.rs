//! The vocabulary of watches: who is watching, and how an attempt to watch
//! ended.

use vstd::prelude::*;

verus! {

/// The name of one watch.
#[derive(Clone, Copy, Debug, PartialEq, Eq, Structural, Hash)]
pub struct WatchId {
    pub raw: u64,
}

impl WatchId {
    /// The watch named by `raw`.
    pub fn new(raw: u64) -> (r: WatchId)
        ensures
            r.raw == raw,
    {
        WatchId { raw }
    }
}

/// Why a watch could not be placed.
#[derive(Clone, Copy, Debug, PartialEq, Eq, Structural)]
pub enum WatchError {
    /// Nothing is at the target's path.
    NotFound,
    /// What is at the target's path is no longer the object asked for.
    Gone,
    /// The target may not be watched by this user.
    Permission,
    /// The user's watches are used up.
    NoSpace,
    /// Anything else.
    Io,
}

/// How an attempt to watch ended.
#[derive(Clone, Copy, Debug, PartialEq, Eq, Structural)]
pub enum WatchOutcome {
    /// A new kernel watch on this descriptor.
    Installed(i32),
    /// A further anchor of the kernel watch on this descriptor.
    Aliased(i32),
    /// No watch.
    Failed(WatchError),
}

} // verus!
