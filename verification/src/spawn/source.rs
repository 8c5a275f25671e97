//! Starting a source: from the caller's root and backend to a running reader
//! and what is known of the root.
//!
//! The root is pinned open once, and all that is read of it is read of that
//! pin. Roots that no backend can serve are refused. fanotify is tried out
//! before it is relied on, and where the caller leaves the choice open, inotify
//! takes over from it. Once the reader runs, the pin and the path are looked at
//! again: a root that was replaced meanwhile is not watched.

use vstd::prelude::*;
use vstd::utf8::encode_utf8;

use crate::error::{
    Backend, EINVAL, ENOSYS, EOPNOTSUPP, EOVERFLOW, Errno, IoError, ProbeStage, Refusal, RootRef,
    SourceError,
};
use crate::fanotify::fid::{Fid, FidModel};
use crate::fanotify::tree::{ContextModel, ReseedContext, Walk, WalkModel, copy_list};
use crate::fanotify::walk::{
    DeclinedBoundary, SeedModel, WalkAnswer, WalkError, WalkSeed,
};
use crate::mountinfo::{fs_type_is_remote, is_remote, mount_points, parse_mountinfo};
use crate::path::{ancestor_count, ancestors, components, copy_bytes, views};
use crate::scope::{mnt_id_from_mask, mount_id};
use crate::spawn::opening::{OpenState, Opening, OpeningModel, is_absolute, names_of};
use crate::spawn::protocol::{SpawnAnswer, SpawnAsk, fits};

verus! {

/// Whether the kernel's answer means that it lacks `statx`.
pub open spec fn lacks_statx(err: Errno) -> bool {
    err == ENOSYS || err == EOPNOTSUPP
}

/// Whether the kernel's answer means that it lacks `statx`.
pub fn statx_unavailable(err: Errno) -> (r: bool)
    ensures
        r == lacks_statx(err),
{
    err == ENOSYS || err == EOPNOTSUPP
}

/// The failure of a root whose device, mount or type cannot be read.
pub open spec fn unavailable(source: IoError) -> SourceError {
    SourceError::RootUnavailable { root: RootRef::Canonical, source }
}

/// The failure of a root on which `statx` fails.
pub fn statx_gate_error(err: Errno) -> (r: SourceError)
    ensures
        r == unavailable(
            if lacks_statx(err) {
                IoError::Refused(Refusal::NoStatx)
            } else {
                IoError::Os(err)
            },
        ),
{
    let source = if statx_unavailable(err) {
        IoError::Refused(Refusal::NoStatx)
    } else {
        IoError::Os(err)
    };
    SourceError::RootUnavailable { root: RootRef::Canonical, source }
}

/// The failure of a backend that did not pass a step of its trial.
pub fn probe_error(stage: ProbeStage) -> (r: SourceError)
    ensures
        r == (SourceError::BackendProbeFailed { stage }),
{
    SourceError::BackendProbeFailed { stage }
}

/// Whether a `name_to_handle_at` call has shown that the filesystem exports
/// handles: it succeeded, or it failed only for want of room.
pub open spec fn exports_handles(rc: i32, errno: Option<i32>) -> bool {
    rc == 0 || errno == Some(EOVERFLOW)
}

/// Whether a `name_to_handle_at` call has shown that the filesystem exports
/// handles.
pub fn handle_support_proven(rc: i32, errno: Option<i32>) -> (r: bool)
    ensures
        r == exports_handles(rc, errno),
{
    rc == 0 || matches!(errno, Some(e) if e == EOVERFLOW)
}

/// What an object is told apart by.
#[derive(Clone, Copy, Debug, PartialEq, Eq, Structural)]
pub struct RootIdentity {
    pub dev: u64,
    pub ino: u64,
}

impl RootIdentity {
    /// The identity with this device and inode.
    pub fn new(dev: u64, ino: u64) -> (r: RootIdentity)
        ensures
            r == (RootIdentity { dev, ino }),
    {
        RootIdentity { dev, ino }
    }
}

/// The backend that serves a root.
#[derive(Clone, Copy, Debug, PartialEq, Eq, Structural)]
pub enum BackendKind {
    Inotify,
    Fanotify,
}

/// What a caller asks for.
#[derive(Clone, Copy, Debug, PartialEq, Eq, Structural)]
pub struct SpawnConfig {
    pub backend: Backend,
    /// The most directories that a fanotify root may have.
    pub max_map_directories: Option<usize>,
    /// The most exclusions that are taken.
    pub max_exclusions: usize,
    /// Whether the root is only to be looked at, with no source started on it.
    pub resolve_only: bool,
}

/// What has been read of the pinned root.
#[derive(Clone, Copy, Debug, PartialEq, Eq, Structural)]
pub struct RootFacts {
    pub identity: RootIdentity,
    pub mnt_id: Option<u64>,
}

/// How far a start has come.
#[derive(Clone, Copy, Debug, PartialEq, Eq, Structural)]
pub enum SpawnState {
    Canonicalize,
    /// The canonical path is being pinned open.
    Pin,
    Statx,
    Statfs,
    ProbeInit,
    ProbeMark,
    ProbeHandle,
    /// The root's handle is being read at its true size.
    ProbeEncode,
    Fsid,
    Stat,
    Mount,
    Mounts,
    RootHandle,
    /// The root's directories are being mapped.
    Walk,
    CreateInstance,
    CreateWake,
    Start,
    /// The reader runs; the pinned root is being looked at again.
    Pinned,
    /// The reader runs; the root's path is being looked at again.
    Metadata,
    /// This ancestor is being opened.
    AncestorOpen(usize),
    /// This ancestor is being read.
    AncestorStat(usize),
    /// The reader runs; the root's path is being walked down once more, and the
    /// directory at this depth is being opened in the one before it.
    TraceOpen(usize),
    /// The directory at this depth is being read.
    TraceStat(usize),
    Done,
    /// There is no source; where one was started, it must be stopped.
    Failed { error: SourceError, started: bool },
}

/// One start under way.
#[derive(Debug)]
pub struct Spawn {
    config: SpawnConfig,
    exclusions: Vec<Vec<u8>>,
    /// The backend that is being started.
    kind: BackendKind,
    root: Vec<u8>,
    fsid: Option<[u8; 8]>,
    facts: RootFacts,
    mounts: Vec<Vec<u8>>,
    opening: Opening,
    /// What is needed to walk the root again.
    context: Option<ReseedContext>,
    walk: Option<Walk>,
    seed: WalkSeed,
    ancestors: Vec<RootIdentity>,
    state: SpawnState,
}

/// What a `Spawn` stands for.
#[verifier::ext_equal]
pub struct SpawnModel {
    pub config: SpawnConfig,
    pub exclusions: Seq<Seq<u8>>,
    pub kind: BackendKind,
    pub root: Seq<u8>,
    pub fsid: Option<[u8; 8]>,
    pub facts: RootFacts,
    pub mounts: Seq<Seq<u8>>,
    pub opening: OpeningModel,
    pub context: Option<ContextModel>,
    pub walk: Option<WalkModel>,
    pub seed: SeedModel,
    pub ancestors: Seq<RootIdentity>,
    pub state: SpawnState,
}

impl View for Spawn {
    type V = SpawnModel;

    closed spec fn view(&self) -> SpawnModel {
        SpawnModel {
            config: self.config,
            exclusions: views(self.exclusions@),
            kind: self.kind,
            root: self.root@,
            fsid: self.fsid,
            facts: self.facts,
            mounts: views(self.mounts@),
            opening: self.opening@,
            context: match self.context {
                Some(c) => Some(c@),
                None => None,
            },
            walk: match self.walk {
                Some(w) => Some(w@),
                None => None,
            },
            seed: self.seed@,
            ancestors: self.ancestors@,
            state: self.state,
        }
    }
}

/// A seed with nothing in it.
pub open spec fn no_seed() -> SeedModel {
    SeedModel { entries: Seq::empty(), declined: Seq::empty(), fence_mnt_id: None }
}

impl SpawnModel {
    /// The start in another state.
    pub open spec fn to(self, state: SpawnState) -> SpawnModel {
        SpawnModel { state, ..self }
    }

    /// The start, failed before the reader runs.
    pub open spec fn fail(self, error: SourceError) -> SpawnModel {
        self.to(SpawnState::Failed { error, started: false })
    }

    /// The start, failed while the reader runs.
    pub open spec fn stop(self, error: SourceError) -> SpawnModel {
        self.to(SpawnState::Failed { error, started: !self.config.resolve_only })
    }

    /// The components of the ancestor at `i`, counted from the root's parent.
    pub open spec fn ancestor(self, i: int) -> Seq<Seq<u8>> {
        components(self.root).take(components(self.root).len() - 1 - i)
    }

    /// What is needed to walk the root again, once its handle is known.
    pub open spec fn context_of(self, handle: Seq<u8>) -> ContextModel {
        ContextModel {
            root: self.root,
            fsid: self.fsid->0@,
            root_dev: self.facts.identity.dev,
            root_mnt_id: self.facts.mnt_id,
            root_fid: FidModel { fsid: self.fsid->0@, handle },
            max_directories: self.config.max_map_directories,
            exclusions: self.exclusions,
        }
    }

    /// Whether the ancestors are being read, or have been.
    pub open spec fn climbing(self) -> bool {
        match self.state {
            SpawnState::AncestorOpen(_)
            | SpawnState::AncestorStat(_)
            | SpawnState::TraceOpen(_)
            | SpawnState::TraceStat(_)
            | SpawnState::Done
            | SpawnState::Failed { .. } => true,
            _ => false,
        }
    }

    /// What is known while the start waits.
    pub open spec fn wf(self) -> bool {
        &&& !self.climbing() ==> self.ancestors.len() == 0
        &&& self.fsid is None ==> match self.state {
            SpawnState::Canonicalize
            | SpawnState::Pin
            | SpawnState::Statx
            | SpawnState::Statfs
            | SpawnState::Stat
            | SpawnState::Mount
            | SpawnState::Mounts => self.kind == BackendKind::Inotify,
            SpawnState::RootHandle => false,
            _ => true,
        }
        &&& match self.state {
            SpawnState::Pin => self.opening.wf(),
            SpawnState::Walk => self.walk is Some,
            SpawnState::AncestorOpen(i) => {
                &&& self.kind == BackendKind::Inotify
                &&& self.opening.wf()
                &&& i < ancestor_count(self.root)
                &&& self.ancestors.len() == i
            },
            SpawnState::AncestorStat(i) => {
                &&& self.kind == BackendKind::Inotify
                &&& i < ancestor_count(self.root)
                &&& self.ancestors.len() == i
            },
            SpawnState::TraceOpen(k) | SpawnState::TraceStat(k) => {
                &&& self.opening == OpeningModel::start(components(self.root))
                &&& self.opening.names.len() <= usize::MAX
                &&& k <= self.opening.names.len()
                &&& self.ancestors.len() == k
            },
            SpawnState::Done => self.ancestors.len() == ancestor_count(self.root),
            _ => true,
        }
    }

    /// What the start waits for.
    pub open spec fn ask(self) -> SpawnAsk {
        match self.state {
            SpawnState::Canonicalize => SpawnAsk::Canonicalize,
            SpawnState::Pin | SpawnState::AncestorOpen(_) => self.opening.ask(),
            SpawnState::Statx => SpawnAsk::Statx,
            SpawnState::Statfs => SpawnAsk::Statfs,
            SpawnState::ProbeInit => SpawnAsk::ProbeInit,
            SpawnState::ProbeMark => SpawnAsk::ProbeMark,
            SpawnState::ProbeHandle => SpawnAsk::ProbeHandle,
            SpawnState::ProbeEncode => SpawnAsk::Handle,
            SpawnState::Fsid => SpawnAsk::Fsid,
            SpawnState::Stat => SpawnAsk::Stat,
            SpawnState::Mount => SpawnAsk::Mount,
            SpawnState::Mounts => SpawnAsk::Mounts,
            SpawnState::RootHandle => SpawnAsk::Handle,
            SpawnState::Walk => match self.walk {
                Some(walk) => SpawnAsk::Walk(walk.ask()),
                None => SpawnAsk::Nothing,
            },
            SpawnState::CreateInstance => SpawnAsk::CreateInstance,
            SpawnState::CreateWake => SpawnAsk::CreateWake,
            SpawnState::Start => SpawnAsk::Start,
            SpawnState::Pinned => SpawnAsk::Stat,
            SpawnState::Metadata => SpawnAsk::Metadata,
            SpawnState::AncestorStat(_) | SpawnState::TraceStat(_) => SpawnAsk::StatOpened,
            SpawnState::TraceOpen(k) => if k == 0 {
                SpawnAsk::OpenAnchor {
                    absolute: self.opening.absolute,
                    last: self.opening.names.len() == 0,
                }
            } else {
                SpawnAsk::OpenName {
                    index: (k - 1) as usize,
                    last: k == self.opening.names.len(),
                }
            },
            SpawnState::Done | SpawnState::Failed { .. } => SpawnAsk::Nothing,
        }
    }

    /// A start, at its beginning; without a root there is none.
    pub open spec fn start(
        config: SpawnConfig,
        exclusions: Seq<Seq<u8>>,
        has_root: bool,
    ) -> SpawnModel {
        SpawnModel {
            config,
            exclusions,
            kind: BackendKind::Inotify,
            root: Seq::empty(),
            fsid: None,
            facts: RootFacts { identity: RootIdentity { dev: 0, ino: 0 }, mnt_id: None },
            mounts: Seq::empty(),
            opening: OpeningModel::start(components(Seq::empty())),
            context: None,
            walk: None,
            seed: no_seed(),
            ancestors: Seq::empty(),
            state: if has_root {
                SpawnState::Canonicalize
            } else {
                SpawnState::Failed { error: SourceError::NoRoots, started: false }
            },
        }
    }

    /// Whether more exclusions were given than are taken.
    pub open spec fn too_many_exclusions(self) -> bool {
        self.exclusions.len() > self.config.max_exclusions
    }

    /// The start of an inotify source on the pinned root.
    pub open spec fn begin_inotify(self) -> SpawnModel {
        let s = SpawnModel {
            kind: BackendKind::Inotify,
            context: None,
            walk: None,
            seed: no_seed(),
            ..self
        };
        if self.too_many_exclusions() {
            s.fail(SourceError::TooManyExclusions { supplied: self.exclusions.len() as usize })
        } else {
            s.to(SpawnState::Stat)
        }
    }

    /// The start of a fanotify source on the pinned root.
    pub open spec fn begin_fanotify(self) -> SpawnModel {
        let s = SpawnModel { kind: BackendKind::Fanotify, ..self };
        if self.too_many_exclusions() {
            s.fail(SourceError::TooManyExclusions { supplied: self.exclusions.len() as usize })
        } else {
            s.to(SpawnState::Fsid)
        }
    }

    /// The start once the root is found fit to be watched.
    pub open spec fn admitted(self) -> SpawnModel {
        if self.config.resolve_only {
            self.to(SpawnState::Stat)
        } else {
            match self.config.backend {
                Backend::Inotify => self.begin_inotify(),
                Backend::Fanotify | Backend::Auto => self.to(SpawnState::ProbeInit),
                Backend::Foreign => self.fail(
                    SourceError::ForeignBackend { requested: Backend::Foreign },
                ),
            }
        }
    }

    /// The start once fanotify turned out not to serve the root.
    pub open spec fn unserved(self, stage: ProbeStage) -> SpawnModel {
        if self.config.backend == Backend::Auto {
            self.begin_inotify()
        } else {
            self.fail(SourceError::BackendProbeFailed { stage })
        }
    }

    /// The start once the root is known.
    pub open spec fn known(self) -> SpawnModel {
        if self.config.resolve_only {
            self.surveyed()
        } else if self.kind == BackendKind::Inotify {
            self.to(SpawnState::CreateInstance)
        } else {
            self.to(SpawnState::RootHandle)
        }
    }

    /// The start once the directories that the root lies in are to be read. Of
    /// an inotify source each is opened by a path of its own. A fanotify source
    /// names what it tells by its root's path, so the path is walked down in one
    /// go, which shows where it leads as well.
    pub open spec fn surveyed(self) -> SpawnModel {
        if self.kind == BackendKind::Fanotify {
            let s = SpawnModel { opening: OpeningModel::start(components(self.root)), ..self };
            if s.opening.plain {
                s.to(SpawnState::TraceOpen(0))
            } else {
                s.stop(unavailable(IoError::Os(EINVAL)))
            }
        } else {
            self.climbed()
        }
    }

    /// The error of a walk down the root's path that ended at the depth `k`.
    pub open spec fn lost_at(self, k: int, e: Errno) -> SourceError {
        SourceError::RootUnavailable {
            root: if k == self.opening.names.len() {
                RootRef::Canonical
            } else {
                RootRef::Ancestor((self.opening.names.len() - 1 - k) as usize)
            },
            source: IoError::Os(e),
        }
    }

    /// The start once the directory at the depth `k` of the root's path has been
    /// read: the last one is the root and must be the one that is watched, any
    /// other is a directory that the root lies in.
    pub open spec fn traced(self, k: int, identity: RootIdentity) -> SpawnModel {
        if k < self.opening.names.len() {
            SpawnModel {
                ancestors: self.ancestors.insert(0, identity),
                state: SpawnState::TraceOpen((k + 1) as usize),
                ..self
            }
        } else if identity != self.facts.identity {
            self.stop(SourceError::RootReplaced)
        } else {
            self.to(SpawnState::Done)
        }
    }

    /// The start with as many ancestors read as have been so far.
    pub open spec fn climbed(self) -> SpawnModel {
        let i = self.ancestors.len() as int;
        if i == ancestor_count(self.root) {
            self.to(SpawnState::Done)
        } else {
            SpawnModel {
                opening: OpeningModel::start(self.ancestor(i)),
                state: SpawnState::AncestorOpen(i as usize),
                ..self
            }
        }
    }

    /// The start after a step of the root's walk.
    pub open spec fn walked(self, walk: WalkModel) -> SpawnModel {
        let ended = SpawnModel { walk: None, ..self };
        match walk {
            WalkModel::Done(seed) => SpawnModel { seed, state: SpawnState::CreateWake, ..ended },
            WalkModel::Failed(WalkError::Incomplete(_)) => ended.unserved(ProbeStage::Walk),
            WalkModel::Failed(WalkError::RootGone(source)) => ended.fail(unavailable(source)),
            _ => SpawnModel { walk: Some(walk), ..self },
        }
    }

    /// The start after an answer to the root's walk.
    #[verifier::opaque]
    pub open spec fn walk_step(self, answer: WalkAnswer) -> SpawnModel {
        match self.walk {
            Some(walk) => self.walked(walk.next(answer)),
            None => self,
        }
    }

    /// The start after an answer, up to the choice of the backend.
    #[verifier::opaque]
    pub open spec fn choice_step(self, answer: SpawnAnswer) -> SpawnModel {
        match (self.state, answer) {
            (SpawnState::Canonicalize, SpawnAnswer::Canonical(canonical)) => match canonical {
                Ok(root) => SpawnModel {
                    root: root@,
                    opening: OpeningModel::start(components(root@)),
                    state: SpawnState::Pin,
                    ..self
                },
                Err(source) => self.fail(
                    SourceError::RootUnavailable { root: RootRef::Supplied, source },
                ),
            },
            (SpawnState::Pin, _) => {
                let opening = self.opening.next(answer);
                let s = SpawnModel { opening, ..self };
                match opening.state {
                    OpenState::Done => s.to(SpawnState::Statx),
                    OpenState::Failed(e) => s.fail(unavailable(IoError::Os(e))),
                    _ => s,
                }
            },
            (SpawnState::Statx, SpawnAnswer::Statx(statx)) => match statx {
                Ok(_) => self.to(SpawnState::Statfs),
                Err(e) => self.fail(
                    unavailable(
                        if lacks_statx(e) {
                            IoError::Refused(Refusal::NoStatx)
                        } else {
                            IoError::Os(e)
                        },
                    ),
                ),
            },
            (SpawnState::Statfs, SpawnAnswer::Statfs(statfs)) => match statfs {
                Ok(f_type) => if is_remote(f_type) {
                    self.fail(unavailable(IoError::Refused(Refusal::NoReliableEvents)))
                } else {
                    self.admitted()
                },
                Err(e) => self.fail(unavailable(IoError::Os(e))),
            },
            (SpawnState::ProbeInit, SpawnAnswer::Probed(passed)) => if passed {
                self.to(SpawnState::ProbeMark)
            } else {
                self.unserved(ProbeStage::Init)
            },
            (SpawnState::ProbeMark, SpawnAnswer::Probed(passed)) => if passed {
                self.to(SpawnState::ProbeHandle)
            } else {
                self.unserved(ProbeStage::Mark)
            },
            (SpawnState::ProbeHandle, SpawnAnswer::ProbedHandle(rc, errno)) => if exports_handles(
                rc,
                errno,
            ) {
                self.to(SpawnState::ProbeEncode)
            } else {
                self.unserved(ProbeStage::Handle)
            },
            (SpawnState::ProbeEncode, SpawnAnswer::Handle(handle)) => if handle is Some {
                self.begin_fanotify()
            } else {
                self.unserved(ProbeStage::Handle)
            },
            _ => self,
        }
    }

    /// The start after an answer, from the choice of the backend until the
    /// reader runs.
    #[verifier::opaque]
    pub open spec fn gather_step(self, answer: SpawnAnswer) -> SpawnModel {
        match (self.state, answer) {
            (SpawnState::Fsid, SpawnAnswer::Fsid(fsid)) => match fsid {
                Ok(fsid) => SpawnModel { fsid: Some(fsid), state: SpawnState::Stat, ..self },
                Err(e) => self.fail(unavailable(IoError::Os(e))),
            },
            (SpawnState::Stat, SpawnAnswer::Stat(stat)) => match stat {
                Ok((dev, ino)) => SpawnModel {
                    facts: RootFacts { identity: RootIdentity { dev, ino }, ..self.facts },
                    state: SpawnState::Mount,
                    ..self
                },
                Err(e) => self.fail(unavailable(IoError::Os(e))),
            },
            (SpawnState::Mount, SpawnAnswer::Mount(mount)) => match mount {
                Ok((mask, id)) => SpawnModel {
                    facts: RootFacts { mnt_id: mount_id(mask, id), ..self.facts },
                    state: SpawnState::Mounts,
                    ..self
                },
                Err(e) => self.fail(unavailable(IoError::Os(e))),
            },
            (SpawnState::Mounts, SpawnAnswer::Mounts(content)) => SpawnModel {
                mounts: match content {
                    Some(text) => mount_points(encode_utf8(text@), self.root),
                    None => Seq::empty(),
                },
                ..self
            }.known(),
            (SpawnState::RootHandle, SpawnAnswer::Handle(handle)) => match handle {
                Some(handle) => SpawnModel {
                    context: Some(self.context_of(handle@)),
                    walk: Some(self.context_of(handle@).pinned_walk()),
                    state: SpawnState::Walk,
                    ..self
                },
                None => self.fail(unavailable(IoError::Refused(Refusal::RootWithoutHandle))),
            },
            (SpawnState::Walk, SpawnAnswer::Walked(a)) => self.walk_step(a),
            (SpawnState::CreateInstance, SpawnAnswer::Created(created)) => match created {
                Ok(_) => self.to(SpawnState::CreateWake),
                Err(e) => self.fail(e),
            },
            (SpawnState::CreateWake, SpawnAnswer::Woken(woken)) => match woken {
                Ok(_) => self.to(SpawnState::Start),
                Err(e) => self.fail(e),
            },
            (SpawnState::Start, SpawnAnswer::Started(started)) => match started {
                Ok(_) => self.to(SpawnState::Pinned),
                Err(e) => self.fail(e),
            },
            _ => self,
        }
    }

    /// The start after an answer, once the root is known and the reader runs.
    #[verifier::opaque]
    pub open spec fn confirm_step(self, answer: SpawnAnswer) -> SpawnModel {
        match (self.state, answer) {
            (SpawnState::Pinned, SpawnAnswer::Stat(stat)) => match stat {
                Ok((dev, ino)) => if (RootIdentity { dev, ino }) != self.facts.identity {
                    self.stop(SourceError::RootReplaced)
                } else {
                    self.to(SpawnState::Metadata)
                },
                Err(e) => self.stop(unavailable(IoError::Os(e))),
            },
            (SpawnState::Metadata, SpawnAnswer::Metadata(live)) => match live {
                Ok((is_dir, dev, ino)) => if !is_dir {
                    self.stop(SourceError::NotADirectory)
                } else if (RootIdentity { dev, ino }) != self.facts.identity {
                    self.stop(SourceError::RootReplaced)
                } else {
                    self.surveyed()
                },
                Err(source) => self.stop(unavailable(source)),
            },
            (SpawnState::AncestorOpen(i), _) => {
                let opening = self.opening.next(answer);
                let s = SpawnModel { opening, ..self };
                match opening.state {
                    OpenState::Done => s.to(SpawnState::AncestorStat(i)),
                    OpenState::Failed(e) => s.stop(
                        SourceError::RootUnavailable {
                            root: RootRef::Ancestor(i),
                            source: IoError::Os(e),
                        },
                    ),
                    _ => s,
                }
            },
            (SpawnState::AncestorStat(i), SpawnAnswer::Stat(stat)) => match stat {
                Ok((dev, ino)) => SpawnModel {
                    ancestors: self.ancestors.push(RootIdentity { dev, ino }),
                    ..self
                }.climbed(),
                Err(e) => self.stop(
                    SourceError::RootUnavailable {
                        root: RootRef::Ancestor(i),
                        source: IoError::Os(e),
                    },
                ),
            },
            (SpawnState::TraceOpen(k), SpawnAnswer::Opened(opened)) => match opened {
                Ok(_) => self.to(SpawnState::TraceStat(k)),
                Err(e) => self.stop(self.lost_at(k as int, e)),
            },
            (SpawnState::TraceStat(k), SpawnAnswer::Stat(stat)) => match stat {
                Ok((dev, ino)) => self.traced(k as int, RootIdentity { dev, ino }),
                Err(e) => self.stop(self.lost_at(k as int, e)),
            },
            _ => self,
        }
    }

    /// The start after an answer.
    pub open spec fn next(self, answer: SpawnAnswer) -> SpawnModel {
        match self.state {
            SpawnState::Canonicalize
            | SpawnState::Pin
            | SpawnState::Statx
            | SpawnState::Statfs
            | SpawnState::ProbeInit
            | SpawnState::ProbeMark
            | SpawnState::ProbeHandle
            | SpawnState::ProbeEncode => self.choice_step(answer),
            SpawnState::Pinned
            | SpawnState::Metadata
            | SpawnState::AncestorOpen(_)
            | SpawnState::AncestorStat(_)
            | SpawnState::TraceOpen(_)
            | SpawnState::TraceStat(_) => self.confirm_step(answer),
            _ => self.gather_step(answer),
        }
    }
}

/// What is known of a root once its source runs.
#[derive(Debug)]
pub struct RootMeta {
    pub root: Vec<u8>,
    pub root_dev: u64,
    pub root_mnt_id: Option<u64>,
    /// The mount points beneath the root.
    pub mounts: Vec<Vec<u8>>,
    /// The boundaries that the mapping of the root declined to cross.
    pub declined: Vec<DeclinedBoundary>,
    pub identity: RootIdentity,
    /// The directories the root lies in, the nearest first.
    pub ancestors: Vec<RootIdentity>,
    pub backend: BackendKind,
}

impl Spawn {
    /// The start's invariant.
    pub closed spec fn wf(&self) -> bool {
        self@.wf() && self.parts_wf()
    }

    /// The invariants of its parts.
    closed spec fn parts_wf(&self) -> bool {
        &&& self.opening.wf()
        &&& self.walk matches Some(w) ==> w.wf()
    }

    /// A start, at its beginning.
    pub fn new(config: SpawnConfig, exclusions: Vec<Vec<u8>>, has_root: bool) -> (r: Spawn)
        ensures
            r.wf(),
            r@ == SpawnModel::start(config, views(exclusions@), has_root),
    {
        let nowhere: Vec<u8> = Vec::new();
        let opening = Opening::new(nowhere.as_slice());
        let r = Spawn {
            config,
            exclusions,
            kind: BackendKind::Inotify,
            root: Vec::new(),
            fsid: None,
            facts: RootFacts { identity: RootIdentity { dev: 0, ino: 0 }, mnt_id: None },
            mounts: Vec::new(),
            opening,
            context: None,
            walk: None,
            seed: WalkSeed { entries: Vec::new(), declined: Vec::new(), fence_mnt_id: None },
            ancestors: Vec::new(),
            state: if has_root {
                SpawnState::Canonicalize
            } else {
                SpawnState::Failed { error: SourceError::NoRoots, started: false }
            },
        };
        proof {
            assert(nowhere@ =~= Seq::empty());
            assert(r@.root =~= Seq::empty());
            assert(r@.mounts =~= Seq::empty());
            assert(r@.seed =~= no_seed());
            assert(r@ =~= SpawnModel::start(config, views(exclusions@), has_root));
        }
        r
    }

    /// What the start waits for.
    pub fn ask(&self) -> (r: SpawnAsk)
        requires
            self.wf(),
        ensures
            r == self@.ask(),
    {
        match self.state {
            SpawnState::Canonicalize => SpawnAsk::Canonicalize,
            SpawnState::Pin | SpawnState::AncestorOpen(_) => self.opening.ask(),
            SpawnState::Statx => SpawnAsk::Statx,
            SpawnState::Statfs => SpawnAsk::Statfs,
            SpawnState::ProbeInit => SpawnAsk::ProbeInit,
            SpawnState::ProbeMark => SpawnAsk::ProbeMark,
            SpawnState::ProbeHandle => SpawnAsk::ProbeHandle,
            SpawnState::ProbeEncode => SpawnAsk::Handle,
            SpawnState::Fsid => SpawnAsk::Fsid,
            SpawnState::Stat => SpawnAsk::Stat,
            SpawnState::Mount => SpawnAsk::Mount,
            SpawnState::Mounts => SpawnAsk::Mounts,
            SpawnState::RootHandle => SpawnAsk::Handle,
            SpawnState::Walk => match &self.walk {
                Some(walk) => SpawnAsk::Walk(walk.ask()),
                None => SpawnAsk::Nothing,
            },
            SpawnState::CreateInstance => SpawnAsk::CreateInstance,
            SpawnState::CreateWake => SpawnAsk::CreateWake,
            SpawnState::Start => SpawnAsk::Start,
            SpawnState::Pinned => SpawnAsk::Stat,
            SpawnState::Metadata => SpawnAsk::Metadata,
            SpawnState::AncestorStat(_) | SpawnState::TraceStat(_) => SpawnAsk::StatOpened,
            SpawnState::TraceOpen(k) => if k == 0 {
                SpawnAsk::OpenAnchor {
                    absolute: self.opening.absolute(),
                    last: self.opening.len() == 0,
                }
            } else {
                SpawnAsk::OpenName { index: k - 1, last: k == self.opening.len() }
            },
            SpawnState::Done | SpawnState::Failed { .. } => SpawnAsk::Nothing,
        }
    }

    /// How far the start has come.
    pub fn state(&self) -> (r: SpawnState)
        ensures
            r == self@.state,
    {
        self.state
    }

    /// Fails the start before the reader runs.
    fn fail(&mut self, error: SourceError)
        requires
            old(self).parts_wf(),
        ensures
            final(self).wf(),
            final(self)@ == old(self)@.fail(error),
    {
        self.state = SpawnState::Failed { error, started: false };
    }

    /// Fails the start, while the reader runs if one was started.
    fn stop(&mut self, error: SourceError)
        requires
            old(self).parts_wf(),
        ensures
            final(self).wf(),
            final(self)@ == old(self)@.stop(error),
    {
        self.state = SpawnState::Failed { error, started: !self.config.resolve_only };
    }

    /// Fails the start over the pinned root.
    fn refuse(&mut self, source: IoError)
        requires
            old(self).parts_wf(),
        ensures
            final(self).wf(),
            final(self)@ == old(self)@.fail(unavailable(source)),
    {
        self.fail(SourceError::RootUnavailable { root: RootRef::Canonical, source });
    }

    /// Starts an inotify source on the pinned root.
    fn begin_inotify(&mut self)
        requires
            old(self).parts_wf(),
            old(self)@.ancestors.len() == 0,
        ensures
            final(self).wf(),
            final(self)@ == old(self)@.begin_inotify(),
    {
        self.kind = BackendKind::Inotify;
        self.context = None;
        self.walk = None;
        self.seed = WalkSeed { entries: Vec::new(), declined: Vec::new(), fence_mnt_id: None };
        assert(self@.seed =~= no_seed());
        if self.exclusions.len() > self.config.max_exclusions {
            self.state = SpawnState::Failed {
                error: SourceError::TooManyExclusions { supplied: self.exclusions.len() },
                started: false,
            };
        } else {
            self.state = SpawnState::Stat;
        }
    }

    /// Starts a fanotify source on the pinned root.
    fn begin_fanotify(&mut self)
        requires
            old(self).parts_wf(),
            old(self)@.ancestors.len() == 0,
        ensures
            final(self).wf(),
            final(self)@ == old(self)@.begin_fanotify(),
    {
        self.kind = BackendKind::Fanotify;
        if self.exclusions.len() > self.config.max_exclusions {
            self.state = SpawnState::Failed {
                error: SourceError::TooManyExclusions { supplied: self.exclusions.len() },
                started: false,
            };
        } else {
            self.state = SpawnState::Fsid;
        }
    }

    /// Goes on once the root is found fit to be watched.
    fn accept_root(&mut self)
        requires
            old(self).wf(),
            old(self)@.state is Statfs,
        ensures
            final(self).wf(),
            final(self)@ == old(self)@.admitted(),
    {
        if self.config.resolve_only {
            self.state = SpawnState::Stat;
            return ;
        }
        match self.config.backend {
            Backend::Inotify => {
                self.begin_inotify();
            },
            Backend::Fanotify | Backend::Auto => {
                self.state = SpawnState::ProbeInit;
            },
            Backend::Foreign => {
                self.fail(SourceError::ForeignBackend { requested: Backend::Foreign });
            },
        }
    }

    /// Goes on once fanotify turned out not to serve the root.
    fn give_up_fanotify(&mut self, stage: ProbeStage)
        requires
            old(self).parts_wf(),
            old(self)@.ancestors.len() == 0,
        ensures
            final(self).wf(),
            final(self)@ == old(self)@.unserved(stage),
    {
        if self.config.backend == Backend::Auto {
            self.begin_inotify();
        } else {
            self.fail(probe_error(stage));
        }
    }

    /// Goes on to the next ancestor, or ends.
    fn climb(&mut self)
        requires
            old(self).parts_wf(),
            old(self)@.kind == BackendKind::Inotify,
            old(self)@.ancestors.len() <= ancestor_count(old(self)@.root),
        ensures
            final(self).wf(),
            final(self)@ == old(self)@.climbed(),
    {
        let paths = ancestors(self.root.as_slice());
        let i: usize = self.ancestors.len();
        if i == paths.len() {
            self.state = SpawnState::Done;
        } else {
            assert(components(paths@[i as int]@) == old(self)@.ancestor(i as int));
            self.opening = Opening::new(paths[i].as_slice());
            self.state = SpawnState::AncestorOpen(i);
        }
    }

    /// Goes on to the directories that the root lies in.
    fn survey(&mut self)
        requires
            old(self).parts_wf(),
            old(self)@.ancestors.len() == 0,
        ensures
            final(self).wf(),
            final(self)@ == old(self)@.surveyed(),
    {
        match self.kind {
            BackendKind::Fanotify => {
                self.opening = Opening::new(self.root.as_slice());
                if self.opening.plain() {
                    self.state = SpawnState::TraceOpen(0);
                } else {
                    self.stop(
                        SourceError::RootUnavailable {
                            root: RootRef::Canonical,
                            source: IoError::Os(EINVAL),
                        },
                    );
                }
            },
            BackendKind::Inotify => {
                self.climb();
            },
        }
    }

    /// Fails the walk down the root's path at the depth `k`.
    fn lose_trace(&mut self, k: usize, e: Errno)
        requires
            old(self).parts_wf(),
            k <= old(self)@.opening.names.len(),
        ensures
            final(self).wf(),
            final(self)@ == old(self)@.stop(old(self)@.lost_at(k as int, e)),
    {
        let len: usize = self.opening.len();
        let root = if k == len {
            RootRef::Canonical
        } else {
            RootRef::Ancestor(len - 1 - k)
        };
        self.stop(SourceError::RootUnavailable { root, source: IoError::Os(e) });
    }

    /// Takes the identity of the directory at the depth `k` of the root's path.
    fn take_traced(&mut self, k: usize, identity: RootIdentity)
        requires
            old(self).wf(),
            old(self)@.state == SpawnState::TraceStat(k),
        ensures
            final(self).wf(),
            final(self)@ == old(self)@.traced(k as int, identity),
    {
        if k < self.opening.len() {
            self.ancestors.insert(0, identity);
            self.state = SpawnState::TraceOpen(k + 1);
        } else if identity != self.facts.identity {
            self.stop(SourceError::RootReplaced);
        } else {
            self.state = SpawnState::Done;
        }
    }

    /// Goes on once the root is known.
    fn settle_facts(&mut self)
        requires
            old(self).wf(),
            old(self)@.state is Mounts,
        ensures
            final(self).wf(),
            final(self)@ == old(self)@.known(),
    {
        if self.config.resolve_only {
            self.survey();
        } else if self.kind == BackendKind::Inotify {
            self.state = SpawnState::CreateInstance;
        } else {
            self.state = SpawnState::RootHandle;
        }
    }
}

impl Spawn {
    /// Takes the handle of the pinned root, and starts to map it.
    fn begin_walk(&mut self, handle: Vec<u8>)
        requires
            old(self).wf(),
            old(self)@.state is RootHandle,
        ensures
            final(self).wf(),
            final(self)@ == (SpawnModel {
                context: Some(old(self)@.context_of(handle@)),
                walk: Some(old(self)@.context_of(handle@).pinned_walk()),
                state: SpawnState::Walk,
                ..old(self)@
            }),
    {
        if let Some(fsid) = self.fsid {
            let context = ReseedContext {
                root: copy_bytes(self.root.as_slice()),
                fsid,
                root_dev: self.facts.identity.dev,
                root_mnt_id: self.facts.mnt_id,
                root_fid: Fid::new(fsid, handle),
                max_directories: self.config.max_map_directories,
                exclusions: copy_list(&self.exclusions),
            };
            self.walk = Some(context.seed_at_fd());
            self.context = Some(context);
            self.state = SpawnState::Walk;
        }
    }

    /// Takes an answer to the walk of the root.
    fn step_walk(&mut self, answer: WalkAnswer)
        requires
            old(self).wf(),
            old(self)@.state is Walk,
            fits(old(self)@.ask(), SpawnAnswer::Walked(answer)),
        ensures
            final(self).wf(),
            final(self)@ == old(self)@.walk_step(answer),
    {
        reveal(SpawnModel::walk_step);
        let walk = match self.walk.take() {
            Some(walk) => walk,
            None => {
                return ;
            },
        };
        match walk.step(answer) {
            Walk::Done(seed) => {
                self.seed = seed;
                self.state = SpawnState::CreateWake;
            },
            Walk::Failed(WalkError::Incomplete(_)) => {
                self.give_up_fanotify(ProbeStage::Walk);
            },
            Walk::Failed(WalkError::RootGone(source)) => {
                self.refuse(source);
            },
            walk => {
                self.walk = Some(walk);
            },
        }
    }

    /// Takes an answer to the opening of an ancestor.
    fn step_ancestor(&mut self, i: usize, answer: SpawnAnswer)
        requires
            old(self).wf(),
            old(self)@.state == SpawnState::AncestorOpen(i),
            fits(old(self)@.ask(), answer),
        ensures
            final(self).wf(),
            final(self)@ == old(self)@.confirm_step(answer),
    {
        reveal(SpawnModel::confirm_step);
        self.opening.step(answer);
        match self.opening.ended() {
            Some(Ok(_)) => {
                self.state = SpawnState::AncestorStat(i);
            },
            Some(Err(e)) => {
                self.stop(
                    SourceError::RootUnavailable {
                        root: RootRef::Ancestor(i),
                        source: IoError::Os(e),
                    },
                );
            },
            None => {},
        }
    }

    /// Takes an answer up to the choice of the backend.
    fn choice_on(&mut self, answer: SpawnAnswer)
        requires
            old(self).wf(),
            fits(old(self)@.ask(), answer),
            match old(self)@.state {
                SpawnState::Canonicalize
                | SpawnState::Pin
                | SpawnState::Statx
                | SpawnState::Statfs
                | SpawnState::ProbeInit
                | SpawnState::ProbeMark
                | SpawnState::ProbeHandle
                | SpawnState::ProbeEncode => true,
                _ => false,
            },
        ensures
            final(self).wf(),
            final(self)@ == old(self)@.choice_step(answer),
    {
        reveal(SpawnModel::choice_step);
        match (self.state, answer) {
            (SpawnState::Canonicalize, SpawnAnswer::Canonical(canonical)) => match canonical {
                Ok(root) => {
                    self.opening = Opening::new(root.as_slice());
                    self.root = root;
                    self.state = SpawnState::Pin;
                },
                Err(source) => {
                    self.fail(SourceError::RootUnavailable { root: RootRef::Supplied, source });
                },
            },
            (SpawnState::Pin, answer) => {
                self.opening.step(answer);
                match self.opening.ended() {
                    Some(Ok(_)) => {
                        self.state = SpawnState::Statx;
                    },
                    Some(Err(e)) => {
                        self.refuse(IoError::Os(e));
                    },
                    None => {},
                }
            },
            (SpawnState::Statx, SpawnAnswer::Statx(statx)) => match statx {
                Ok(_) => {
                    self.state = SpawnState::Statfs;
                },
                Err(e) => {
                    self.fail(statx_gate_error(e));
                },
            },
            (SpawnState::Statfs, SpawnAnswer::Statfs(statfs)) => match statfs {
                Ok(f_type) => {
                    if fs_type_is_remote(f_type) {
                        self.refuse(IoError::Refused(Refusal::NoReliableEvents));
                    } else {
                        self.accept_root();
                    }
                },
                Err(e) => {
                    self.refuse(IoError::Os(e));
                },
            },
            (SpawnState::ProbeInit, SpawnAnswer::Probed(passed)) => {
                if passed {
                    self.state = SpawnState::ProbeMark;
                } else {
                    self.give_up_fanotify(ProbeStage::Init);
                }
            },
            (SpawnState::ProbeMark, SpawnAnswer::Probed(passed)) => {
                if passed {
                    self.state = SpawnState::ProbeHandle;
                } else {
                    self.give_up_fanotify(ProbeStage::Mark);
                }
            },
            (SpawnState::ProbeHandle, SpawnAnswer::ProbedHandle(rc, errno)) => {
                if handle_support_proven(rc, errno) {
                    self.state = SpawnState::ProbeEncode;
                } else {
                    self.give_up_fanotify(ProbeStage::Handle);
                }
            },
            (SpawnState::ProbeEncode, SpawnAnswer::Handle(handle)) => {
                if handle.is_some() {
                    self.begin_fanotify();
                } else {
                    self.give_up_fanotify(ProbeStage::Handle);
                }
            },
            _ => {},
        }
    }

    /// Takes an answer until the reader runs.
    fn gather_on(&mut self, answer: SpawnAnswer)
        requires
            old(self).wf(),
            fits(old(self)@.ask(), answer),
            match old(self)@.state {
                SpawnState::Fsid
                | SpawnState::Stat
                | SpawnState::Mount
                | SpawnState::Mounts
                | SpawnState::RootHandle
                | SpawnState::Walk
                | SpawnState::CreateInstance
                | SpawnState::CreateWake
                | SpawnState::Start => true,
                _ => false,
            },
        ensures
            final(self).wf(),
            final(self)@ == old(self)@.gather_step(answer),
    {
        reveal(SpawnModel::gather_step);
        match (self.state, answer) {
            (SpawnState::Fsid, SpawnAnswer::Fsid(fsid)) => match fsid {
                Ok(fsid) => {
                    self.fsid = Some(fsid);
                    self.state = SpawnState::Stat;
                },
                Err(e) => {
                    self.refuse(IoError::Os(e));
                },
            },
            (SpawnState::Stat, SpawnAnswer::Stat(stat)) => match stat {
                Ok((dev, ino)) => {
                    self.facts = RootFacts { identity: RootIdentity::new(dev, ino), ..self.facts };
                    self.state = SpawnState::Mount;
                },
                Err(e) => {
                    self.refuse(IoError::Os(e));
                },
            },
            (SpawnState::Mount, SpawnAnswer::Mount(mount)) => match mount {
                Ok((mask, id)) => {
                    self.facts = RootFacts { mnt_id: mnt_id_from_mask(mask, id), ..self.facts };
                    self.state = SpawnState::Mounts;
                },
                Err(e) => {
                    self.refuse(IoError::Os(e));
                },
            },
            (SpawnState::Mounts, SpawnAnswer::Mounts(content)) => {
                self.mounts = match &content {
                    Some(text) => parse_mountinfo(text.as_str(), self.root.as_slice()),
                    None => Vec::new(),
                };
                assert(content is None ==> self@.mounts =~= Seq::empty());
                self.settle_facts();
            },
            (SpawnState::RootHandle, SpawnAnswer::Handle(handle)) => match handle {
                Some(handle) => {
                    self.begin_walk(handle);
                },
                None => {
                    self.refuse(IoError::Refused(Refusal::RootWithoutHandle));
                },
            },
            (SpawnState::Walk, SpawnAnswer::Walked(answer)) => {
                self.step_walk(answer);
            },
            (SpawnState::CreateInstance, SpawnAnswer::Created(created)) => match created {
                Ok(_) => {
                    self.state = SpawnState::CreateWake;
                },
                Err(e) => {
                    self.fail(e);
                },
            },
            (SpawnState::CreateWake, SpawnAnswer::Woken(woken)) => match woken {
                Ok(_) => {
                    self.state = SpawnState::Start;
                },
                Err(e) => {
                    self.fail(e);
                },
            },
            (SpawnState::Start, SpawnAnswer::Started(started)) => match started {
                Ok(_) => {
                    self.state = SpawnState::Pinned;
                },
                Err(e) => {
                    self.fail(e);
                },
            },
            _ => {},
        }
    }

    /// Takes an answer once the reader runs.
    fn confirm_on(&mut self, answer: SpawnAnswer)
        requires
            old(self).wf(),
            fits(old(self)@.ask(), answer),
            match old(self)@.state {
                SpawnState::Pinned
                | SpawnState::Metadata
                | SpawnState::AncestorOpen(_)
                | SpawnState::AncestorStat(_)
                | SpawnState::TraceOpen(_)
                | SpawnState::TraceStat(_) => true,
                _ => false,
            },
        ensures
            final(self).wf(),
            final(self)@ == old(self)@.confirm_step(answer),
    {
        reveal(SpawnModel::confirm_step);
        match (self.state, answer) {
            (SpawnState::Pinned, SpawnAnswer::Stat(stat)) => match stat {
                Ok((dev, ino)) => {
                    if RootIdentity::new(dev, ino) != self.facts.identity {
                        self.stop(SourceError::RootReplaced);
                    } else {
                        self.state = SpawnState::Metadata;
                    }
                },
                Err(e) => {
                    self.stop(
                        SourceError::RootUnavailable {
                            root: RootRef::Canonical,
                            source: IoError::Os(e),
                        },
                    );
                },
            },
            (SpawnState::Metadata, SpawnAnswer::Metadata(live)) => match live {
                Ok((is_dir, dev, ino)) => {
                    if !is_dir {
                        self.stop(SourceError::NotADirectory);
                    } else if RootIdentity::new(dev, ino) != self.facts.identity {
                        self.stop(SourceError::RootReplaced);
                    } else {
                        self.survey();
                    }
                },
                Err(source) => {
                    self.stop(
                        SourceError::RootUnavailable { root: RootRef::Canonical, source },
                    );
                },
            },
            (SpawnState::AncestorOpen(i), answer) => {
                self.step_ancestor(i, answer);
            },
            (SpawnState::AncestorStat(i), SpawnAnswer::Stat(stat)) => match stat {
                Ok((dev, ino)) => {
                    self.take_ancestor(i, RootIdentity::new(dev, ino));
                },
                Err(e) => {
                    self.stop(
                        SourceError::RootUnavailable {
                            root: RootRef::Ancestor(i),
                            source: IoError::Os(e),
                        },
                    );
                },
            },
            (SpawnState::TraceOpen(k), SpawnAnswer::Opened(opened)) => match opened {
                Ok(_) => {
                    self.state = SpawnState::TraceStat(k);
                },
                Err(e) => {
                    self.lose_trace(k, e);
                },
            },
            (SpawnState::TraceStat(k), SpawnAnswer::Stat(stat)) => match stat {
                Ok((dev, ino)) => {
                    self.take_traced(k, RootIdentity::new(dev, ino));
                },
                Err(e) => {
                    self.lose_trace(k, e);
                },
            },
            _ => {},
        }
    }

    /// Takes an answer.
    pub fn step(&mut self, answer: SpawnAnswer)
        requires
            old(self).wf(),
            fits(old(self)@.ask(), answer),
        ensures
            final(self).wf(),
            final(self)@ == old(self)@.next(answer),
    {
        match self.state {
            SpawnState::Canonicalize
            | SpawnState::Pin
            | SpawnState::Statx
            | SpawnState::Statfs
            | SpawnState::ProbeInit
            | SpawnState::ProbeMark
            | SpawnState::ProbeHandle
            | SpawnState::ProbeEncode => {
                self.choice_on(answer);
            },
            SpawnState::Pinned
            | SpawnState::Metadata
            | SpawnState::AncestorOpen(_)
            | SpawnState::AncestorStat(_)
            | SpawnState::TraceOpen(_)
            | SpawnState::TraceStat(_) => {
                self.confirm_on(answer);
            },
            SpawnState::Done | SpawnState::Failed { .. } => {},
            _ => {
                self.gather_on(answer);
            },
        }
    }

    /// Takes the identity of an ancestor.
    fn take_ancestor(&mut self, i: usize, identity: RootIdentity)
        requires
            old(self).wf(),
            old(self)@.state == SpawnState::AncestorStat(i),
        ensures
            final(self).wf(),
            final(self)@ == (SpawnModel {
                ancestors: old(self)@.ancestors.push(identity),
                ..old(self)@
            }).climbed(),
    {
        self.ancestors.push(identity);
        self.climb();
    }
}

impl Spawn {
    /// The root's canonical path, once it is known.
    pub fn root(&self) -> (r: &[u8])
        ensures
            r@ == self@.root,
    {
        self.root.as_slice()
    }

    /// The opening of the path at hand.
    pub fn opening(&self) -> (r: &Opening)
        requires
            self.wf(),
        ensures
            r@ == self@.opening,
            r.wf(),
    {
        &self.opening
    }

    /// The backend that is being started.
    pub fn kind(&self) -> (r: BackendKind)
        ensures
            r == self@.kind,
    {
        self.kind
    }

    /// The walk of the root, while it is under way.
    pub fn walk(&self) -> (r: Option<&Walk>)
        ensures
            match r {
                Some(w) => self@.walk == Some(w@),
                None => self@.walk is None,
            },
    {
        self.walk.as_ref()
    }

    /// What the walk of the root has found.
    pub fn seed(&self) -> (r: &WalkSeed)
        ensures
            r@ == self@.seed,
    {
        &self.seed
    }

    /// What is needed to walk the root again.
    pub fn context(&self) -> (r: Option<&ReseedContext>)
        ensures
            match r {
                Some(c) => self@.context == Some(c@),
                None => self@.context is None,
            },
    {
        self.context.as_ref()
    }

    /// What is known of the root, once the start is done.
    pub fn into_meta(self) -> (r: Option<RootMeta>)
        ensures
            r is Some <==> self@.state is Done,
            r matches Some(meta) ==> {
                &&& meta.root@ == self@.root
                &&& meta.root_dev == self@.facts.identity.dev
                &&& meta.root_mnt_id == self@.facts.mnt_id
                &&& views(meta.mounts@) == self@.mounts
                &&& meta.declined@.map_values(|d: DeclinedBoundary| d@) == self@.seed.declined
                &&& meta.identity == self@.facts.identity
                &&& meta.ancestors@ == self@.ancestors
                &&& meta.backend == self@.kind
            },
    {
        match self.state {
            SpawnState::Done => Some(
                RootMeta {
                    root: self.root,
                    root_dev: self.facts.identity.dev,
                    root_mnt_id: self.facts.mnt_id,
                    mounts: self.mounts,
                    declined: self.seed.declined,
                    identity: self.facts.identity,
                    ancestors: self.ancestors,
                    backend: self.kind,
                },
            ),
            _ => None,
        }
    }
}

/// Whether the reader of the source that is being started runs.
pub open spec fn reader_runs(s: SpawnModel) -> bool {
    !s.config.resolve_only && match s.state {
        SpawnState::Pinned
        | SpawnState::Metadata
        | SpawnState::AncestorOpen(_)
        | SpawnState::AncestorStat(_)
        | SpawnState::TraceOpen(_)
        | SpawnState::TraceStat(_)
        | SpawnState::Done => true,
        SpawnState::Failed { started, .. } => started,
        _ => false,
    }
}

/// What a step of the root's walk may lead to.
proof fn lemma_walk_step(s: SpawnModel, answer: WalkAnswer)
    requires
        s.state is Walk,
        s.walk is Some,
    ensures
        ({
            let n = s.walk_step(answer);
            &&& n.config == s.config
            &&& match n.state {
                SpawnState::Walk | SpawnState::CreateWake => n.kind == s.kind,
                SpawnState::Stat => s.config.backend == Backend::Auto,
                SpawnState::Failed { error, started } => {
                    &&& !started
                    &&& error is TooManyExclusions || error is RootUnavailable
                        || s.config.backend != Backend::Auto
                },
                _ => false,
            }
        }),
{
    reveal(SpawnModel::walk_step);
    lemma_walked(s, s.walk->0.next(answer));
}

proof fn lemma_walked(s: SpawnModel, walk: WalkModel)
    requires
        s.state is Walk,
    ensures
        ({
            let n = s.walked(walk);
            &&& n.config == s.config
            &&& match n.state {
                SpawnState::Walk | SpawnState::CreateWake => n.kind == s.kind,
                SpawnState::Stat => s.config.backend == Backend::Auto,
                SpawnState::Failed { error, started } => {
                    &&& !started
                    &&& error is TooManyExclusions || error is RootUnavailable
                        || s.config.backend != Backend::Auto
                },
                _ => false,
            }
        }),
{
}

proof fn lemma_no_reader_at_first(s: SpawnModel, answer: SpawnAnswer)
    requires
        !reader_runs(s),
        s.wf(),
    ensures
        !reader_runs(s.choice_step(answer)),
        s.choice_step(answer).config == s.config,
{
    reveal(SpawnModel::choice_step);
}

proof fn lemma_reader_starts_once(s: SpawnModel, answer: SpawnAnswer)
    requires
        !reader_runs(s),
        s.wf(),
        fits(s.ask(), answer),
    ensures
        reader_runs(s.gather_step(answer)) == (!s.config.resolve_only && s.state is Start
            && answer->Started_0 is Ok),
        s.gather_step(answer).config == s.config,
{
    reveal(SpawnModel::gather_step);
    if let (SpawnState::Walk, SpawnAnswer::Walked(a)) = (s.state, answer) {
        lemma_walk_step(s, a);
    }
}

proof fn lemma_reader_stays(s: SpawnModel, answer: SpawnAnswer)
    requires
        s.wf(),
    ensures
        s.state is Pinned || s.state is Metadata || s.state is AncestorOpen || s.state is
            AncestorStat || s.state is TraceOpen || s.state is TraceStat ==> reader_runs(
            s.confirm_step(answer),
        ) == reader_runs(s),
        s.confirm_step(answer).config == s.config,
{
    reveal(SpawnModel::confirm_step);
}

/// A reader is never lost: it runs from the moment it was started, and a start
/// that fails afterwards says that it is to be stopped, while one that fails
/// before says that there is none.
pub proof fn law_a_started_reader_is_accounted_for(s: SpawnModel, answer: SpawnAnswer)
    requires
        s.wf(),
        fits(s.ask(), answer),
    ensures
        reader_runs(s.next(answer)) == (reader_runs(s) || (!s.config.resolve_only && s.state
            is Start && answer->Started_0 is Ok)),
        s.next(answer).config == s.config,
{
    match s.state {
        SpawnState::Pinned
        | SpawnState::Metadata
        | SpawnState::AncestorOpen(_)
        | SpawnState::AncestorStat(_)
        | SpawnState::TraceOpen(_)
        | SpawnState::TraceStat(_) => {
            lemma_reader_stays(s, answer);
        },
        SpawnState::Done | SpawnState::Failed { .. } => {},
        SpawnState::Canonicalize
        | SpawnState::Pin
        | SpawnState::Statx
        | SpawnState::Statfs
        | SpawnState::ProbeInit
        | SpawnState::ProbeMark
        | SpawnState::ProbeHandle
        | SpawnState::ProbeEncode => {
            lemma_no_reader_at_first(s, answer);
        },
        _ => {
            lemma_reader_starts_once(s, answer);
        },
    }
}

/// Where the choice of the backend is left open, no failed trial of fanotify
/// fails the start.
pub proof fn law_an_open_choice_falls_back(s: SpawnModel, answer: SpawnAnswer)
    requires
        s.config.backend == Backend::Auto,
        s.wf(),
        fits(s.ask(), answer),
        s.next(answer).state is Failed,
        s.state is ProbeInit || s.state is ProbeMark || s.state is ProbeHandle || s.state is
            ProbeEncode || s.state is Walk,
    ensures
        s.next(answer).state->error is TooManyExclusions || s.next(answer).state->error is
            RootUnavailable,
{
    reveal(SpawnModel::choice_step);
    reveal(SpawnModel::gather_step);
    if let (SpawnState::Walk, SpawnAnswer::Walked(a)) = (s.state, answer) {
        lemma_walk_step(s, a);
    }
}

/// Where fanotify is asked for, inotify never serves: the source that starts is
/// a fanotify one.
pub proof fn law_a_demand_for_fanotify_is_kept(s: SpawnModel, answer: SpawnAnswer)
    requires
        s.config.backend == Backend::Fanotify,
        !s.config.resolve_only,
        s.wf(),
        fits(s.ask(), answer),
        needs_kind(s),
    ensures
        needs_kind(s.next(answer)),
        s.next(answer).state is Done ==> s.next(answer).kind == BackendKind::Fanotify,
{
    reveal(SpawnModel::choice_step);
    reveal(SpawnModel::gather_step);
    reveal(SpawnModel::confirm_step);
    if let (SpawnState::Walk, SpawnAnswer::Walked(a)) = (s.state, answer) {
        lemma_walk_step(s, a);
    }
}

/// Whether the start has got past its trial only as a fanotify source.
pub open spec fn needs_kind(s: SpawnModel) -> bool {
    match s.state {
        SpawnState::Canonicalize
        | SpawnState::Pin
        | SpawnState::Statx
        | SpawnState::Statfs
        | SpawnState::ProbeInit
        | SpawnState::ProbeMark
        | SpawnState::ProbeHandle
        | SpawnState::ProbeEncode
        | SpawnState::Failed { .. } => true,
        _ => s.kind == BackendKind::Fanotify,
    }
}

/// A root that was replaced while the reader started is not watched: where the
/// pin or the path shows another object than was read at first, or none, the
/// start fails, and so it does where the walk down the path of a fanotify source
/// does not get to its end, or to another object.
pub proof fn law_a_replaced_root_is_not_watched(s: SpawnModel, answer: SpawnAnswer)
    requires
        fits(s.ask(), answer),
        match (s.state, answer) {
            (SpawnState::Pinned, SpawnAnswer::Stat(stat)) => stat != Ok::<(u64, u64), Errno>(
                (s.facts.identity.dev, s.facts.identity.ino),
            ),
            (SpawnState::Metadata, SpawnAnswer::Metadata(live)) => live != Ok::<
                (bool, u64, u64),
                IoError,
            >((true, s.facts.identity.dev, s.facts.identity.ino)),
            (SpawnState::TraceOpen(_), SpawnAnswer::Opened(opened)) => opened is Err,
            (SpawnState::TraceStat(k), SpawnAnswer::Stat(stat)) => if k
                < s.opening.names.len() {
                stat is Err
            } else {
                stat != Ok::<(u64, u64), Errno>((s.facts.identity.dev, s.facts.identity.ino))
            },
            _ => false,
        },
    ensures
        s.next(answer).state is Failed,
        s.next(answer).state->started == !s.config.resolve_only,
{
    reveal(SpawnModel::confirm_step);
}

/// A fanotify start ends with a look at its path: it is done only as the walk
/// down the root's path, behind the last of the directories that the root lies
/// in, shows the object that was read at first.
pub proof fn law_a_fanotify_start_ends_at_its_path(s: SpawnModel, answer: SpawnAnswer)
    requires
        s.wf(),
        fits(s.ask(), answer),
        s.next(answer).state is Done,
        s.next(answer).kind == BackendKind::Fanotify,
    ensures
        s.state == SpawnState::TraceStat(s.opening.names.len() as usize),
        s.ancestors.len() == ancestor_count(s.root),
        answer matches SpawnAnswer::Stat(stat) && stat == Ok::<(u64, u64), Errno>(
            (s.facts.identity.dev, s.facts.identity.ino),
        ),
{
    reveal(SpawnModel::choice_step);
    reveal(SpawnModel::gather_step);
    reveal(SpawnModel::confirm_step);
    if let (SpawnState::Walk, SpawnAnswer::Walked(a)) = (s.state, answer) {
        lemma_walk_step(s, a);
    }
}

impl SpawnModel {
    /// The start after the answers.
    pub open spec fn run(self, given: Seq<SpawnAnswer>) -> SpawnModel
        decreases given.len(),
    {
        if given.len() == 0 {
            self
        } else {
            self.next(given.first()).run(given.drop_first())
        }
    }

    /// Whether the answers, one after the other, are what the start asks for.
    pub open spec fn served(self, given: Seq<SpawnAnswer>) -> bool
        decreases given.len(),
    {
        given.len() == 0 || (fits(self.ask(), given.first()) && self.next(given.first()).served(
            given.drop_first(),
        ))
    }
}

/// Whether the answer is that something was opened.
pub open spec fn was_opened(answer: SpawnAnswer) -> bool {
    answer matches SpawnAnswer::Opened(Ok(_))
}

/// Whether the answer shows the object with this identity.
pub open spec fn shows(answer: SpawnAnswer, identity: RootIdentity) -> bool {
    &&& answer matches SpawnAnswer::Stat(Ok((dev, ino)))
    &&& identity == (RootIdentity { dev, ino })
}

/// Whether the answers show that the directory at the depth `k` was opened, and
/// that it is this one.
pub open spec fn shows_at(given: Seq<SpawnAnswer>, k: int, identity: RootIdentity) -> bool {
    was_opened(given[2 * k]) && shows(given[2 * k + 1], identity)
}

/// Whether the answers are those of a walk down to the depth `k`, which has gone
/// through these directories, the last one first.
pub open spec fn shows_down_to(
    given: Seq<SpawnAnswer>,
    ancestors: Seq<RootIdentity>,
    k: int,
) -> bool {
    &&& ancestors.len() == k
    &&& given.len() >= 2 * k
    &&& forall|i: int| 0 <= i < k ==> shows_at(given, k - 1 - i, #[trigger] ancestors[i])
}

proof fn lemma_shown_before(
    past: Seq<SpawnAnswer>,
    answer: SpawnAnswer,
    ancestors: Seq<RootIdentity>,
    k: int,
)
    requires
        shows_down_to(past, ancestors, k),
    ensures
        shows_down_to(past.push(answer), ancestors, k),
{
    let seen = past.push(answer);
    assert forall|i: int| 0 <= i < k implies shows_at(
        seen,
        k - 1 - i,
        #[trigger] ancestors[i],
    ) by {
        let at = k - 1 - i;
        assert(shows_at(past, at, ancestors[i]));
        assert(seen[2 * at] == past[2 * at]);
        assert(seen[2 * at + 1] == past[2 * at + 1]);
    }
}

proof fn lemma_shown_next(
    seen: Seq<SpawnAnswer>,
    ancestors: Seq<RootIdentity>,
    k: int,
    identity: RootIdentity,
)
    requires
        0 <= k,
        shows_down_to(seen, ancestors, k),
        seen.len() == 2 * k + 2,
        shows_at(seen, k, identity),
    ensures
        shows_down_to(seen, ancestors.insert(0, identity), k + 1),
{
    let after = ancestors.insert(0, identity);
    assert forall|i: int| 0 <= i < k + 1 implies shows_at(seen, k - i, #[trigger] after[i]) by {
        if i > 0 {
            assert(after[i] == ancestors[i - 1]);
            assert(shows_at(seen, k - 1 - (i - 1), ancestors[i - 1]));
        }
    }
}

/// What the answers so far have shown a start that walks down its path.
spec fn has_traced(s: SpawnModel, past: Seq<SpawnAnswer>) -> bool {
    match s.state {
        SpawnState::TraceOpen(k) => past.len() == 2 * k && shows_down_to(
            past,
            s.ancestors,
            k as int,
        ),
        SpawnState::TraceStat(k) => past.len() == 2 * k + 1 && shows_down_to(
            past,
            s.ancestors,
            k as int,
        ) && was_opened(past[2 * k]),
        SpawnState::Done => {
            let n = s.opening.names.len() as int;
            &&& past.len() == 2 * n + 2
            &&& shows_down_to(past, s.ancestors, n)
            &&& was_opened(past[2 * n])
            &&& shows(past[2 * n + 1], s.facts.identity)
        },
        _ => true,
    }
}

proof fn lemma_trace_step(s: SpawnModel, past: Seq<SpawnAnswer>, answer: SpawnAnswer)
    requires
        s.wf(),
        s.state is TraceOpen || s.state is TraceStat,
        fits(s.ask(), answer),
        has_traced(s, past),
    ensures
        ({
            let n = s.next(answer);
            &&& has_traced(n, past.push(answer))
            &&& n.state is TraceOpen || n.state is TraceStat || n.state is Done || n.state is
                Failed
            &&& n.state is TraceOpen || n.state is TraceStat ==> n.wf()
            &&& n.opening == s.opening
            &&& n.facts == s.facts
        }),
{
    reveal(SpawnModel::confirm_step);
    let n = s.next(answer);
    let seen = past.push(answer);
    match s.state {
        SpawnState::TraceOpen(k) => {
            lemma_shown_before(past, answer, s.ancestors, k as int);
        },
        SpawnState::TraceStat(k) => {
            lemma_shown_before(past, answer, s.ancestors, k as int);
            assert(seen[2 * k] == past[2 * k]);
            if let SpawnAnswer::Stat(Ok((dev, ino))) = answer {
                let identity = RootIdentity { dev, ino };
                assert(shows_at(seen, k as int, identity));
                lemma_shown_next(seen, s.ancestors, k as int, identity);
            }
        },
        _ => {},
    }
}

proof fn lemma_trace_runs(s: SpawnModel, past: Seq<SpawnAnswer>, given: Seq<SpawnAnswer>)
    requires
        s.wf(),
        s.state is TraceOpen || s.state is TraceStat,
        s.served(given),
        has_traced(s, past),
        s.run(given).state is Done,
    ensures
        has_traced(s.run(given), past + given),
        s.run(given).opening == s.opening,
        s.run(given).facts == s.facts,
    decreases given.len(),
{
    assert(given.len() > 0);
    let n = s.next(given.first());
    let rest = given.drop_first();
    lemma_trace_step(s, past, given.first());
    assert(past + given =~= past.push(given.first()) + rest);
    if n.state is TraceOpen || n.state is TraceStat {
        lemma_trace_runs(n, past.push(given.first()), rest);
    } else {
        assert(n.served(rest));
        assert(rest.len() == 0);
        assert(n.run(rest) == n);
        assert(past + given =~= past.push(given.first()));
    }
}

/// A fanotify start proves its path in one walk: from the top of the path, each
/// directory was opened in the one before it and then read, up to the root
/// itself. The ancestors of the source are what that walk showed, the nearest
/// first, and what it showed at the end of the path is the object that was read
/// at first.
pub proof fn law_a_fanotify_start_is_one_walk_down(s: SpawnModel, given: Seq<SpawnAnswer>)
    requires
        s.wf(),
        s.state == SpawnState::TraceOpen(0),
        s.served(given),
        s.run(given).state is Done,
    ensures
        ({
            let depth = s.opening.names.len() as int;
            &&& depth == ancestor_count(s.root)
            &&& given.len() == 2 * depth + 2
            &&& shows_down_to(given, s.run(given).ancestors, depth)
            &&& was_opened(given[2 * depth])
            &&& shows(given[2 * depth + 1], s.facts.identity)
        }),
{
    lemma_trace_runs(s, Seq::empty(), given);
    assert(Seq::<SpawnAnswer>::empty() + given =~= given);
}

/// A walk down the root's path asks for its top first and then for its names,
/// one after the other, each opened in what was opened last.
pub proof fn law_a_walk_down_asks_in_order(s: SpawnModel)
    requires
        s.wf(),
    ensures
        s.state matches SpawnState::TraceOpen(k) ==> s.ask() == (if k == 0 {
            SpawnAsk::OpenAnchor {
                absolute: is_absolute(components(s.root)),
                last: names_of(components(s.root)).len() == 0,
            }
        } else {
            SpawnAsk::OpenName {
                index: (k - 1) as usize,
                last: k == names_of(components(s.root)).len(),
            }
        }),
        s.state is TraceStat ==> s.ask() == SpawnAsk::StatOpened,
{
}

/// A look at a root starts nothing and creates nothing.
pub proof fn law_a_look_starts_nothing(s: SpawnModel, answer: SpawnAnswer)
    requires
        s.config.resolve_only,
        s.wf(),
        fits(s.ask(), answer),
        only_looks(s.state),
    ensures
        only_looks(s.next(answer).state),
        s.next(answer).config.resolve_only,
{
    reveal(SpawnModel::choice_step);
    reveal(SpawnModel::gather_step);
    reveal(SpawnModel::confirm_step);
}

/// Whether nothing is created or started in this state.
pub open spec fn only_looks(state: SpawnState) -> bool {
    match state {
        SpawnState::ProbeInit
        | SpawnState::ProbeMark
        | SpawnState::ProbeHandle
        | SpawnState::ProbeEncode
        | SpawnState::Fsid
        | SpawnState::RootHandle
        | SpawnState::Walk
        | SpawnState::CreateInstance
        | SpawnState::CreateWake
        | SpawnState::Start
        | SpawnState::Pinned
        | SpawnState::Metadata => false,
        SpawnState::Failed { started, .. } => !started,
        _ => true,
    }
}

} // verus!
