//! What the machines that start a source ask for, and what comes back.

use vstd::prelude::*;

use crate::error::{Errno, IoError, SourceError};
use crate::fanotify::walk::{WalkAnswer, WalkAsk, answers};

verus! {

/// What a machine waits for.
#[derive(Clone, Copy, Debug, PartialEq, Eq, Structural)]
pub enum SpawnAsk {
    /// The canonical path of the root that the caller gave.
    Canonicalize,
    /// Open the path at hand in one call that follows no symlink.
    OpenWhole,
    /// Open the directory that the path at hand is read from: the root of all
    /// paths, or the current one. `last` says whether this is the object asked
    /// for itself.
    OpenAnchor { absolute: bool, last: bool },
    /// Open the name at this place of the path at hand, in what was opened
    /// last.
    OpenName { index: usize, last: bool },
    /// Try `statx` on the pinned root.
    Statx,
    /// Read the filesystem type of the pinned root.
    Statfs,
    /// Read the device and inode of the pinned root.
    Stat,
    /// Read the device and inode of what was opened last.
    StatOpened,
    /// Read the mount of the pinned root.
    Mount,
    /// Read the text of the mount table.
    Mounts,
    /// Read the filesystem identity of the pinned root.
    Fsid,
    /// Read the handle of the pinned root.
    Handle,
    /// Create the inotify instance.
    CreateInstance,
    /// Create what wakes the reader.
    CreateWake,
    /// Start the reader.
    Start,
    /// Read what is at the root's canonical path now.
    Metadata,
    /// What the walk of the root asks for.
    Walk(WalkAsk),
    /// Create a fanotify instance.
    ProbeInit,
    /// Mark the root's filesystem on that instance.
    ProbeMark,
    /// Ask for the handle of the pinned root, in whatever room there is.
    ProbeHandle,
    /// Nothing.
    Nothing,
}

/// What comes back.
#[derive(Debug)]
pub enum SpawnAnswer {
    Canonical(Result<Vec<u8>, IoError>),
    Opened(Result<(), Errno>),
    Statx(Result<(), Errno>),
    Statfs(Result<i64, Errno>),
    /// The device and the inode.
    Stat(Result<(u64, u64), Errno>),
    /// The mask and the mount id of a `statx` result.
    Mount(Result<(u32, u64), Errno>),
    Mounts(Option<String>),
    Fsid(Result<[u8; 8], Errno>),
    Handle(Option<Vec<u8>>),
    Created(Result<(), SourceError>),
    Woken(Result<(), SourceError>),
    Started(Result<(), SourceError>),
    /// Whether it is a directory, its device and its inode.
    Metadata(Result<(bool, u64, u64), IoError>),
    Walked(WalkAnswer),
    Probed(bool),
    /// What the call returned, and its error number if there is one.
    ProbedHandle(i32, Option<i32>),
}

/// Whether the answer is of the sort that was asked for.
pub open spec fn fits(ask: SpawnAsk, answer: SpawnAnswer) -> bool {
    match ask {
        SpawnAsk::Canonicalize => answer is Canonical,
        SpawnAsk::OpenWhole | SpawnAsk::OpenAnchor { .. } | SpawnAsk::OpenName { .. } => answer is
            Opened,
        SpawnAsk::Statx => answer is Statx,
        SpawnAsk::Statfs => answer is Statfs,
        SpawnAsk::Stat | SpawnAsk::StatOpened => answer is Stat,
        SpawnAsk::Mount => answer is Mount,
        SpawnAsk::Mounts => answer is Mounts,
        SpawnAsk::Fsid => answer is Fsid,
        SpawnAsk::Handle => answer is Handle,
        SpawnAsk::CreateInstance => answer is Created,
        SpawnAsk::CreateWake => answer is Woken,
        SpawnAsk::Start => answer is Started,
        SpawnAsk::Metadata => answer is Metadata,
        SpawnAsk::Walk(ask) => answer matches SpawnAnswer::Walked(a) && answers(ask, a),
        SpawnAsk::ProbeInit | SpawnAsk::ProbeMark => answer is Probed,
        SpawnAsk::ProbeHandle => answer is ProbedHandle,
        SpawnAsk::Nothing => false,
    }
}

} // verus!
