//! Error numbers, I/O errors and the failures of a source, as plain values.

use vstd::prelude::*;

verus! {

/// A kernel error. The numbers differ from one architecture to another, so only
/// the errors that nothing is decided by go by theirs.
#[derive(Clone, Copy, Debug, PartialEq, Eq, Structural)]
pub enum Errno {
    /// The operation is not permitted.
    Perm,
    /// There is no such file.
    NoEnt,
    /// A signal interrupted the call.
    Intr,
    /// The descriptor is not open.
    BadF,
    /// There is nothing to be had now.
    Again,
    /// Permission is denied.
    Acces,
    /// It exists already.
    Exist,
    /// It is not a directory.
    NotDir,
    /// An argument is not valid.
    Inval,
    /// Too many descriptors are open.
    MFile,
    /// There is no space left.
    NoSpc,
    /// The kernel lacks the call.
    NoSys,
    /// There is a symlink on the way.
    Loop,
    /// The operation is not supported.
    OpNotSupp,
    /// Any other error, by its number.
    Other(i32),
}

pub const EPERM: Errno = Errno::Perm;

pub const ENOENT: Errno = Errno::NoEnt;

pub const EINTR: Errno = Errno::Intr;

pub const EBADF: Errno = Errno::BadF;

pub const EAGAIN: Errno = Errno::Again;

pub const EACCES: Errno = Errno::Acces;

pub const EEXIST: Errno = Errno::Exist;

pub const ENOTDIR: Errno = Errno::NotDir;

pub const EINVAL: Errno = Errno::Inval;

pub const EMFILE: Errno = Errno::MFile;

pub const ENOSPC: Errno = Errno::NoSpc;

pub const ENOSYS: Errno = Errno::NoSys;

pub const ELOOP: Errno = Errno::Loop;

pub const EOPNOTSUPP: Errno = Errno::OpNotSupp;

/// The number of the error that a buffer is too small for a file handle.
pub const EOVERFLOW: i32 = 75;

/// What sort of I/O error it is.
#[derive(Clone, Copy, Debug, PartialEq, Eq, Structural)]
pub enum IoKind {
    NotFound,
    PermissionDenied,
    Unsupported,
    Other,
}

/// An I/O error that this library raises itself.
#[derive(Clone, Copy, Debug, PartialEq, Eq, Structural)]
pub enum Refusal {
    /// Network and virtual filesystems deliver no reliable events.
    NoReliableEvents,
    /// The kernel lacks `statx`.
    NoStatx,
    /// The watched root exports no file handle.
    RootWithoutHandle,
    /// Another object stands at the watched root's path.
    RootReplaced,
    /// Another object stands at the path of a directory that moved in.
    SubtreeReplaced,
    /// A directory inside the root exports no file handle.
    DirectoryWithoutHandle,
    /// The parent of a revealed location exports no file handle.
    RevealedParentWithoutHandle,
    /// A revealed location exports no file handle.
    RevealedWithoutHandle,
    /// The tree holds more directories than the walk may map.
    DirectoryBudget,
    /// The map has no room left for what a revealed location holds.
    AdmissionBudget,
    /// The tree holds more mount boundaries than the walk may report.
    BoundaryBudget,
}

/// An I/O error.
#[derive(Clone, Copy, Debug, PartialEq, Eq, Structural)]
pub enum IoError {
    /// The kernel's answer to a call.
    Os(Errno),
    /// An error of which only the sort is known.
    Plain(IoKind),
    /// A refusal of this library's own.
    Refused(Refusal),
}

impl IoError {
    /// What sort of error it is.
    pub open spec fn kind_spec(self) -> IoKind {
        match self {
            IoError::Os(e) => if e == ENOENT {
                IoKind::NotFound
            } else if e == EACCES || e == EPERM {
                IoKind::PermissionDenied
            } else if e == ENOSYS || e == EOPNOTSUPP {
                IoKind::Unsupported
            } else {
                IoKind::Other
            },
            IoError::Plain(kind) => kind,
            IoError::Refused(refusal) => match refusal {
                Refusal::RootReplaced | Refusal::SubtreeReplaced => IoKind::NotFound,
                Refusal::DirectoryBudget
                | Refusal::AdmissionBudget
                | Refusal::BoundaryBudget => IoKind::Other,
                _ => IoKind::Unsupported,
            },
        }
    }

    /// What sort of error it is.
    pub fn kind(self) -> (r: IoKind)
        ensures
            r == self.kind_spec(),
    {
        match self {
            IoError::Os(e) => if e == ENOENT {
                IoKind::NotFound
            } else if e == EACCES || e == EPERM {
                IoKind::PermissionDenied
            } else if e == ENOSYS || e == EOPNOTSUPP {
                IoKind::Unsupported
            } else {
                IoKind::Other
            },
            IoError::Plain(kind) => kind,
            IoError::Refused(refusal) => match refusal {
                Refusal::RootReplaced | Refusal::SubtreeReplaced => IoKind::NotFound,
                Refusal::DirectoryBudget
                | Refusal::AdmissionBudget
                | Refusal::BoundaryBudget => IoKind::Other,
                _ => IoKind::Unsupported,
            },
        }
    }
}

/// Which path an error is about.
#[derive(Clone, Copy, Debug, PartialEq, Eq, Structural)]
pub enum RootRef {
    /// The root as the caller gave it.
    Supplied,
    /// The root's canonical path.
    Canonical,
    /// An ancestor of the canonical path, counted from its parent.
    Ancestor(usize),
}

/// Which backend a caller asks for.
#[derive(Clone, Copy, Debug, PartialEq, Eq, Structural)]
pub enum Backend {
    Inotify,
    Fanotify,
    Auto,
    /// A backend of another platform.
    Foreign,
}

/// The steps that show whether fanotify can serve a root.
#[derive(Clone, Copy, Debug, PartialEq, Eq, Structural)]
pub enum ProbeStage {
    /// Creating the instance.
    Init,
    /// Marking the root's filesystem.
    Mark,
    /// Reading the root's file handle.
    Handle,
    /// Mapping the root's directories.
    Walk,
}

/// Why a source did not start, or stopped.
#[derive(Clone, Copy, Debug, PartialEq, Eq, Structural)]
pub enum SourceError {
    NoRoots,
    RootUnavailable { root: RootRef, source: IoError },
    RootReplaced,
    NotADirectory,
    TooManyExclusions { supplied: usize },
    ForeignBackend { requested: Backend },
    BackendProbeFailed { stage: ProbeStage },
    InstanceLimit,
    CreateFailed,
    StartFailed,
    CallbackPanic,
    ReadFailed { source: IoError },
}

/// The sort of an error goes by what happened: nothing was there, or another object was; it
/// was not allowed; the kernel or the filesystem cannot do it; or anything else.
pub proof fn law_an_error_is_of_one_sort(e: IoError)
    ensures
        e.kind_spec() == match e {
            IoError::Plain(kind) => kind,
            IoError::Os(Errno::NoEnt) => IoKind::NotFound,
            IoError::Os(Errno::Acces) => IoKind::PermissionDenied,
            IoError::Os(Errno::Perm) => IoKind::PermissionDenied,
            IoError::Os(Errno::NoSys) => IoKind::Unsupported,
            IoError::Os(Errno::OpNotSupp) => IoKind::Unsupported,
            IoError::Os(_) => IoKind::Other,
            IoError::Refused(Refusal::RootReplaced) => IoKind::NotFound,
            IoError::Refused(Refusal::SubtreeReplaced) => IoKind::NotFound,
            IoError::Refused(Refusal::NoReliableEvents) => IoKind::Unsupported,
            IoError::Refused(Refusal::NoStatx) => IoKind::Unsupported,
            IoError::Refused(Refusal::RootWithoutHandle) => IoKind::Unsupported,
            IoError::Refused(Refusal::DirectoryWithoutHandle) => IoKind::Unsupported,
            IoError::Refused(Refusal::RevealedParentWithoutHandle) => IoKind::Unsupported,
            IoError::Refused(Refusal::RevealedWithoutHandle) => IoKind::Unsupported,
            IoError::Refused(_) => IoKind::Other,
        },
{
}

} // verus!
