//! What the reader's machines ask of the kernel and of their caller, and what
//! comes back.
//!
//! A machine is a value that waits for one answer at a time. Its `ask` says
//! which; the caller does what is asked and hands the answer to `step`, until
//! nothing more is asked.

use vstd::prelude::*;

use crate::error::{Errno, SourceError};

verus! {

/// What a machine waits for.
#[derive(Clone, Copy, Debug, PartialEq, Eq, Structural)]
pub enum Ask {
    /// Open the target of the request at hand.
    Open,
    /// Read the identity of the opened target.
    Stat,
    /// Add a kernel watch on the opened target, with this mask.
    Add(u32),
    /// Remove the kernel watch on this descriptor.
    Remove(i32),
    /// Create an instance to replace the one in use.
    Create,
    /// Read from the instance in use, without blocking.
    Read,
    /// Put the created instance in the place of the one in use.
    Replace,
    /// Say how many bytes the instance in use has queued.
    Queued,
    /// Say whether a teardown has been requested.
    Shutdown,
    /// Nothing: the machine is done.
    Nothing,
}

/// What comes back.
#[derive(Clone, Copy, Debug)]
pub enum Answer<'a> {
    Opened(Result<(), Errno>),
    /// The device and inode of the opened target.
    Stat(Result<(u64, u64), Errno>),
    /// The descriptor that was granted.
    Added(Result<i32, Errno>),
    Removed(Result<(), Errno>),
    Created(Result<(), SourceError>),
    /// The bytes that were read.
    Read(Result<&'a [u8], Errno>),
    Replaced,
    Queued(Result<u64, Errno>),
    Shutdown(bool),
}

/// Whether the answer is of the sort that was asked for.
pub open spec fn fits(ask: Ask, answer: Answer) -> bool {
    match ask {
        Ask::Open => answer is Opened,
        Ask::Stat => answer is Stat,
        Ask::Add(_) => answer is Added,
        Ask::Remove(_) => answer is Removed,
        Ask::Create => answer is Created,
        Ask::Read => answer is Read,
        Ask::Replace => answer is Replaced,
        Ask::Queued => answer is Queued,
        Ask::Shutdown => answer is Shutdown,
        Ask::Nothing => false,
    }
}

} // verus!
