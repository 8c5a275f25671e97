//! The walk that finds the directories of a watched tree.
//!
//! A walk goes down a tree one directory at a time and collects a seed: the
//! directories it found, each with its parent, and the mount boundaries it
//! declined to cross. What vanishes under the walk is passed over, for then
//! there is nothing to map; anything else that keeps the walk from seeing a
//! directory fails it as a whole, so that a seed is never silently short.

use vstd::prelude::*;

use crate::bytemap::ByteMap;
use crate::error::{ELOOP, ENOENT, ENOTDIR, Errno, IoError, Refusal};
use crate::fanotify::fid::{EntryModel, Fid, FidModel, SeedEntry};
use crate::path::{DOT, copy_bytes, join, joined, views};
use crate::scope::{
    differ, excluded, is_directory, is_excluded, known_to_differ, mnt_id_from_mask,
    mode_is_directory, mount_id,
};

verus! {

/// How many mount boundaries one walk reports.
pub const MAX_WALK_DECLINES: usize = 65536;

/// What an error on the way means for the walk.
#[derive(Clone, Copy, Debug, PartialEq, Eq, Structural)]
pub enum WalkSkip {
    /// What was there is gone, or is no directory: there is nothing to map.
    VanishedRace,
    /// A directory may be there that cannot be seen.
    Incomplete,
}

/// What an error on the way means for the walk.
pub open spec fn walk_skip(err: Errno) -> WalkSkip {
    if err == ENOENT || err == ELOOP || err == ENOTDIR {
        WalkSkip::VanishedRace
    } else {
        WalkSkip::Incomplete
    }
}

/// What an error on the way means for the walk.
pub fn classify_walk_skip(err: Errno) -> (r: WalkSkip)
    ensures
        r == walk_skip(err),
{
    if err == ENOENT || err == ELOOP || err == ENOTDIR {
        WalkSkip::VanishedRace
    } else {
        WalkSkip::Incomplete
    }
}

/// Why a walk failed.
#[derive(Clone, Copy, Debug, PartialEq, Eq, Structural)]
pub enum WalkError {
    /// The root itself is not there any more.
    RootGone(IoError),
    /// The tree could not be seen as a whole.
    Incomplete(IoError),
}

impl WalkError {
    /// The I/O error behind the failure.
    pub fn into_io(self) -> (r: IoError)
        ensures
            r == match self {
                WalkError::RootGone(err) => err,
                WalkError::Incomplete(err) => err,
            },
    {
        match self {
            WalkError::RootGone(err) => err,
            WalkError::Incomplete(err) => err,
        }
    }
}

/// A mount boundary that a walk declined to cross.
#[derive(Debug, PartialEq, Eq)]
pub struct DeclinedBoundary {
    pub location: Vec<u8>,
    pub dev: u64,
    pub mnt_id: Option<u64>,
}

/// What a `DeclinedBoundary` stands for.
pub struct BoundaryModel {
    pub location: Seq<u8>,
    pub dev: u64,
    pub mnt_id: Option<u64>,
}

impl View for DeclinedBoundary {
    type V = BoundaryModel;

    open spec fn view(&self) -> BoundaryModel {
        BoundaryModel { location: self.location@, dev: self.dev, mnt_id: self.mnt_id }
    }
}

/// What a walk found.
#[derive(Debug, PartialEq, Eq)]
pub struct WalkSeed {
    pub entries: Vec<SeedEntry>,
    pub declined: Vec<DeclinedBoundary>,
    /// The mount that the walk stayed in, where it is known.
    pub fence_mnt_id: Option<u64>,
}

/// What a `WalkSeed` stands for.
#[verifier::ext_equal]
pub struct SeedModel {
    pub entries: Seq<EntryModel>,
    pub declined: Seq<BoundaryModel>,
    pub fence_mnt_id: Option<u64>,
}

impl View for WalkSeed {
    type V = SeedModel;

    open spec fn view(&self) -> SeedModel {
        SeedModel {
            entries: self.entries@.map_values(|e: SeedEntry| e@),
            declined: self.declined@.map_values(|d: DeclinedBoundary| d@),
            fence_mnt_id: self.fence_mnt_id,
        }
    }
}

/// Refuses one more directory where the seed holds `budget` of them.
pub fn fence_entries(budget: Option<usize>, seed: &WalkSeed) -> (r: Result<(), WalkError>)
    ensures
        r == if budget is Some && seed@.entries.len() >= budget->0 {
            Err::<(), WalkError>(
                WalkError::Incomplete(IoError::Refused(Refusal::DirectoryBudget)),
            )
        } else {
            Ok(())
        },
{
    match budget {
        Some(most) => if seed.entries.len() >= most {
            Err(WalkError::Incomplete(IoError::Refused(Refusal::DirectoryBudget)))
        } else {
            Ok(())
        },
        None => Ok(()),
    }
}

/// Refuses one more boundary where the seed holds `max_declines` of them.
pub fn fence_declines(max_declines: usize, seed: &WalkSeed) -> (r: Result<(), WalkError>)
    ensures
        r == if seed@.declined.len() >= max_declines {
            Err::<(), WalkError>(WalkError::Incomplete(IoError::Refused(Refusal::BoundaryBudget)))
        } else {
            Ok(())
        },
{
    if seed.declined.len() >= max_declines {
        Err(WalkError::Incomplete(IoError::Refused(Refusal::BoundaryBudget)))
    } else {
        Ok(())
    }
}

/// What a walk keeps to.
#[derive(Debug)]
pub struct WalkFrame {
    pub fsid: [u8; 8],
    pub root_dev: u64,
    pub fence_mnt_id: Option<u64>,
    pub exclusions: Vec<Vec<u8>>,
    /// The most directories the seed may hold.
    pub budget: Option<usize>,
    /// The most boundaries the seed may hold.
    pub decline_budget: usize,
}

/// What a `WalkFrame` stands for.
pub struct FrameModel {
    pub fsid: Seq<u8>,
    pub root_dev: u64,
    pub fence_mnt_id: Option<u64>,
    pub exclusions: Seq<Seq<u8>>,
    pub budget: Option<usize>,
    pub decline_budget: usize,
}

impl View for WalkFrame {
    type V = FrameModel;

    open spec fn view(&self) -> FrameModel {
        FrameModel {
            fsid: self.fsid@,
            root_dev: self.root_dev,
            fence_mnt_id: self.fence_mnt_id,
            exclusions: views(self.exclusions@),
            budget: self.budget,
            decline_budget: self.decline_budget,
        }
    }
}

impl FrameModel {
    /// Whether an object of this device and mount lies across a mount boundary.
    pub open spec fn outside(self, dev: u64, mnt_id: Option<u64>) -> bool {
        dev != self.root_dev || known_to_differ(self.fence_mnt_id, mnt_id)
    }
}

/// What a directory listing says of an entry's type.
#[derive(Clone, Copy, Debug, PartialEq, Eq, Structural)]
pub enum Advisory {
    Directory,
    /// The filesystem does not say.
    Unknown,
    /// Something that is no directory.
    Other,
}

/// One step of a directory listing.
#[derive(Debug)]
pub enum Listing {
    /// An entry.
    Entry { name: Vec<u8>, advisory: Advisory },
    /// The listing failed here, and may go on.
    Failed(Errno),
    /// There are no more entries.
    End,
}

/// A directory the walk is in, or about to enter.
#[derive(Debug)]
pub struct Level {
    pub fid: Fid,
    pub path: Vec<u8>,
}

/// What a `Level` stands for.
pub struct LevelModel {
    pub fid: FidModel,
    pub path: Seq<u8>,
}

impl View for Level {
    type V = LevelModel;

    open spec fn view(&self) -> LevelModel {
        LevelModel { fid: self.fid@, path: self.path@ }
    }
}

/// How far a descent has come.
#[derive(Clone, Copy, Debug, PartialEq, Eq, Structural)]
pub enum DescentState {
    /// The directory to enter is being opened for listing.
    List,
    /// The innermost directory's next entry is being read.
    Next,
    /// The innermost directory is being readied for an open in it.
    Parent,
    /// The entry is being opened.
    Open,
    /// The opened entry's device and mode are being read.
    Stat,
    /// The opened entry's mount is being read.
    Mount { dev: u64, mode: u32 },
    /// The opened entry's handle is being read.
    Handle,
    /// There is nothing left to descend into.
    Done,
    /// The descent has failed.
    Failed(WalkError),
}

/// What a descent waits for.
#[derive(Clone, Copy, Debug, PartialEq, Eq, Structural)]
pub enum WalkAsk {
    /// Open the directory the walk starts from.
    Start,
    /// Open the directory that was last opened for listing, as a further
    /// innermost one.
    List,
    /// Read the innermost directory's next entry; at the end, leave it.
    Next,
    /// Ready the innermost directory for an open in it.
    Parent,
    /// Open the entry in the innermost directory.
    Open,
    /// Read the device and mode of what was last opened.
    Stat,
    /// Read the mount of what was last opened.
    Mount,
    /// Read the handle of what was last opened.
    Handle,
    /// Nothing.
    Nothing,
}

/// What comes back.
#[derive(Debug)]
pub enum WalkAnswer {
    Listed(Result<(), Errno>),
    Next(Listing),
    Parent(Result<(), Errno>),
    Opened(Result<(), Errno>),
    /// The device and the mode.
    Stat(Result<(u64, u32), Errno>),
    /// The mask and the mount id of a `statx` result.
    Mount(Result<(u32, u64), Errno>),
    Handle(Option<Vec<u8>>),
}

/// Whether the answer is of the sort that was asked for.
pub open spec fn answers(ask: WalkAsk, answer: WalkAnswer) -> bool {
    match ask {
        WalkAsk::Start => answer is Opened,
        WalkAsk::List => answer is Listed,
        WalkAsk::Next => answer is Next,
        WalkAsk::Parent => answer is Parent,
        WalkAsk::Open => answer is Opened,
        WalkAsk::Stat => answer is Stat,
        WalkAsk::Mount => answer is Mount,
        WalkAsk::Handle => answer is Handle,
        WalkAsk::Nothing => false,
    }
}

/// One descent under way.
#[derive(Debug)]
pub struct Descent {
    frame: WalkFrame,
    /// The directories the descent is in, the innermost last.
    stack: Vec<Level>,
    /// The directory to enter.
    entering: Level,
    /// The name of the entry at hand.
    name: Vec<u8>,
    /// The handles of the directories found.
    visited: ByteMap<()>,
    seed: WalkSeed,
    state: DescentState,
}

/// What a `Descent` stands for.
#[verifier::ext_equal]
pub struct DescentModel {
    pub frame: FrameModel,
    pub stack: Seq<LevelModel>,
    pub entering: LevelModel,
    pub name: Seq<u8>,
    pub visited: Set<Seq<u8>>,
    pub seed: SeedModel,
    pub state: DescentState,
}

impl View for Descent {
    type V = DescentModel;

    closed spec fn view(&self) -> DescentModel {
        DescentModel {
            frame: self.frame@,
            stack: self.stack@.map_values(|l: Level| l@),
            entering: self.entering@,
            name: self.name@,
            visited: self.visited@.dom(),
            seed: self.seed@,
            state: self.state,
        }
    }
}

impl DescentModel {
    /// A descent into `start`, with what is in `seed` already.
    pub open spec fn start(frame: FrameModel, start: LevelModel, seed: SeedModel) -> DescentModel {
        DescentModel {
            frame,
            stack: Seq::empty(),
            entering: start,
            name: Seq::empty(),
            visited: Set::empty().insert(start.fid.handle),
            seed,
            state: DescentState::List,
        }
    }

    /// What the descent waits for.
    pub open spec fn ask(self) -> WalkAsk {
        match self.state {
            DescentState::List => WalkAsk::List,
            DescentState::Next => WalkAsk::Next,
            DescentState::Parent => WalkAsk::Parent,
            DescentState::Open => WalkAsk::Open,
            DescentState::Stat => WalkAsk::Stat,
            DescentState::Mount { .. } => WalkAsk::Mount,
            DescentState::Handle => WalkAsk::Handle,
            DescentState::Done | DescentState::Failed(_) => WalkAsk::Nothing,
        }
    }

    /// Whether an entry of the innermost directory is at hand.
    pub open spec fn at_entry(self) -> bool {
        match self.state {
            DescentState::Parent
            | DescentState::Open
            | DescentState::Stat
            | DescentState::Mount { .. }
            | DescentState::Handle => true,
            _ => false,
        }
    }

    /// The path of the entry at hand.
    pub open spec fn child_path(self) -> Seq<u8> {
        joined(self.stack.last().path, self.name)
    }

    /// While there is something to wait for in a directory, the descent is in
    /// one.
    pub open spec fn wf(self) -> bool {
        (self.state is Next || self.at_entry()) ==> self.stack.len() > 0
    }

    /// The descent in another state.
    pub open spec fn to(self, state: DescentState) -> DescentModel {
        DescentModel { state, ..self }
    }

    /// The descent, failed.
    pub open spec fn incomplete(self, err: IoError) -> DescentModel {
        self.to(DescentState::Failed(WalkError::Incomplete(err)))
    }

    /// The descent after an error on the entry at hand: on to the next one, or
    /// failed.
    pub open spec fn skip(self, err: Errno) -> DescentModel {
        match walk_skip(err) {
            WalkSkip::VanishedRace => self.to(DescentState::Next),
            WalkSkip::Incomplete => self.incomplete(IoError::Os(err)),
        }
    }

    /// Whether the listed entry is worth a look: it is no name of the directory
    /// itself or its parent, it is not excluded, and it may be a directory.
    pub open spec fn worth_opening(self, name: Seq<u8>, advisory: Advisory) -> bool {
        &&& name != seq![DOT]
        &&& name != seq![DOT, DOT]
        &&& !is_excluded(self.frame.exclusions, joined(self.stack.last().path, name))
        &&& advisory != Advisory::Other
    }

    /// The descent once it has declined to cross a boundary at the entry at
    /// hand.
    pub open spec fn declined(self, dev: u64, mnt_id: Option<u64>) -> DescentModel {
        if self.seed.declined.len() >= self.frame.decline_budget {
            self.incomplete(IoError::Refused(Refusal::BoundaryBudget))
        } else {
            let boundary = BoundaryModel { location: self.child_path(), dev, mnt_id };
            DescentModel {
                seed: SeedModel { declined: self.seed.declined.push(boundary), ..self.seed },
                state: DescentState::Next,
                ..self
            }
        }
    }

    /// The descent once it has found the directory with `handle` at the entry
    /// at hand.
    pub open spec fn found(self, handle: Seq<u8>) -> DescentModel {
        if self.visited.contains(handle) {
            self.to(DescentState::Next)
        } else {
            let marked = DescentModel { visited: self.visited.insert(handle), ..self };
            if self.frame.budget is Some && self.seed.entries.len() >= self.frame.budget->0 {
                marked.incomplete(IoError::Refused(Refusal::DirectoryBudget))
            } else {
                let fid = FidModel { fsid: self.frame.fsid, handle };
                let entry = EntryModel {
                    fid,
                    parent: Some(self.stack.last().fid),
                    name: self.name,
                };
                DescentModel {
                    seed: SeedModel { entries: self.seed.entries.push(entry), ..self.seed },
                    entering: LevelModel { fid, path: self.child_path() },
                    state: DescentState::List,
                    ..marked
                }
            }
        }
    }

    /// The descent after an answer.
    pub open spec fn next(self, answer: WalkAnswer) -> DescentModel {
        match (self.state, answer) {
            (DescentState::List, WalkAnswer::Listed(listed)) => match listed {
                Ok(_) => DescentModel {
                    stack: self.stack.push(self.entering),
                    state: DescentState::Next,
                    ..self
                },
                Err(e) => self.incomplete(IoError::Os(e)),
            },
            (DescentState::Next, WalkAnswer::Next(listing)) => match listing {
                Listing::End => DescentModel {
                    stack: self.stack.drop_last(),
                    state: if self.stack.len() == 1 {
                        DescentState::Done
                    } else {
                        DescentState::Next
                    },
                    ..self
                },
                Listing::Failed(e) => self.skip(e),
                Listing::Entry { name, advisory } => if self.worth_opening(name@, advisory) {
                    DescentModel { name: name@, state: DescentState::Parent, ..self }
                } else {
                    self
                },
            },
            (DescentState::Parent, WalkAnswer::Parent(ready)) => match ready {
                Ok(_) => self.to(DescentState::Open),
                Err(e) => self.incomplete(IoError::Os(e)),
            },
            (DescentState::Open, WalkAnswer::Opened(opened)) => match opened {
                Ok(_) => self.to(DescentState::Stat),
                Err(e) => self.skip(e),
            },
            (DescentState::Stat, WalkAnswer::Stat(stat)) => match stat {
                Ok((dev, mode)) => self.to(DescentState::Mount { dev, mode }),
                Err(e) => self.skip(e),
            },
            (DescentState::Mount { dev, mode }, WalkAnswer::Mount(mount)) => match mount {
                Ok((mask, id)) => if self.frame.outside(dev, mount_id(mask, id)) {
                    self.declined(dev, mount_id(mask, id))
                } else if !is_directory(mode) {
                    self.to(DescentState::Next)
                } else {
                    self.to(DescentState::Handle)
                },
                Err(e) => self.skip(e),
            },
            (DescentState::Handle, WalkAnswer::Handle(handle)) => match handle {
                Some(handle) => self.found(handle@),
                None => self.incomplete(IoError::Refused(Refusal::DirectoryWithoutHandle)),
            },
            _ => self,
        }
    }
}

impl Descent {
    /// The descent's invariant.
    pub closed spec fn wf(&self) -> bool {
        self@.wf() && self.visited.wf()
    }

    /// A descent into `start`, with what is in `seed` already.
    pub fn new(frame: WalkFrame, start: Level, seed: WalkSeed) -> (r: Descent)
        ensures
            r.wf(),
            r@ == DescentModel::start(frame@, start@, seed@),
    {
        let mut visited = ByteMap::new();
        visited.insert(start.fid.handle(), ());
        let r = Descent {
            frame,
            stack: Vec::new(),
            entering: start,
            name: Vec::new(),
            visited,
            seed,
            state: DescentState::List,
        };
        assert(r@ =~= DescentModel::start(frame@, start@, seed@));
        r
    }

    /// What the descent waits for.
    pub fn ask(&self) -> (r: WalkAsk)
        ensures
            r == self@.ask(),
    {
        match self.state {
            DescentState::List => WalkAsk::List,
            DescentState::Next => WalkAsk::Next,
            DescentState::Parent => WalkAsk::Parent,
            DescentState::Open => WalkAsk::Open,
            DescentState::Stat => WalkAsk::Stat,
            DescentState::Mount { .. } => WalkAsk::Mount,
            DescentState::Handle => WalkAsk::Handle,
            DescentState::Done | DescentState::Failed(_) => WalkAsk::Nothing,
        }
    }

    /// How far the descent has come.
    pub fn state(&self) -> (r: DescentState)
        ensures
            r == self@.state,
    {
        self.state
    }

    /// The name of the entry at hand.
    pub fn name(&self) -> (r: &[u8])
        ensures
            r@ == self@.name,
    {
        self.name.as_slice()
    }

    /// What the descent has found.
    pub fn into_seed(self) -> (r: WalkSeed)
        ensures
            r@ == self@.seed,
    {
        self.seed
    }

    /// Fails the descent.
    fn fail(&mut self, err: IoError)
        requires
            old(self).wf(),
        ensures
            final(self).wf(),
            final(self)@ == old(self)@.incomplete(err),
    {
        self.state = DescentState::Failed(WalkError::Incomplete(err));
    }

    /// Passes over the entry at hand, or fails.
    fn pass_over(&mut self, err: Errno)
        requires
            old(self).wf(),
            old(self)@.stack.len() > 0,
        ensures
            final(self).wf(),
            final(self)@ == old(self)@.skip(err),
    {
        match classify_walk_skip(err) {
            WalkSkip::VanishedRace => {
                self.state = DescentState::Next;
            },
            WalkSkip::Incomplete => {
                self.fail(IoError::Os(err));
            },
        }
    }

    /// The path of `name` in the innermost directory.
    fn path_of(&self, name: &[u8]) -> (r: Vec<u8>)
        requires
            self@.stack.len() > 0,
        ensures
            r@ == joined(self@.stack.last().path, name@),
    {
        join(self.stack[self.stack.len() - 1].path.as_slice(), name)
    }

    /// Declines to cross a boundary at the entry at hand.
    fn decline(&mut self, dev: u64, mnt_id: Option<u64>)
        requires
            old(self).wf(),
            old(self)@.stack.len() > 0,
        ensures
            final(self).wf(),
            final(self)@ == old(self)@.declined(dev, mnt_id),
    {
        match fence_declines(self.frame.decline_budget, &self.seed) {
            Ok(_) => {
                let location = self.path_of(self.name.as_slice());
                self.seed.declined.push(DeclinedBoundary { location, dev, mnt_id });
                self.state = DescentState::Next;
                assert(self@.seed.declined =~= old(self)@.declined(dev, mnt_id).seed.declined);
                assert(self@ =~= old(self)@.declined(dev, mnt_id));
            },
            Err(e) => {
                self.state = DescentState::Failed(e);
            },
        }
    }

    /// Takes in the directory with `handle` at the entry at hand.
    fn take_in(&mut self, handle: Vec<u8>)
        requires
            old(self).wf(),
            old(self)@.stack.len() > 0,
        ensures
            final(self).wf(),
            final(self)@ == old(self)@.found(handle@),
    {
        if self.visited.get(handle.as_slice()).is_some() {
            self.state = DescentState::Next;
            return ;
        }
        self.visited.insert(handle.as_slice(), ());
        assert(self.visited@.dom() =~= old(self).visited@.dom().insert(handle@));
        match fence_entries(self.frame.budget, &self.seed) {
            Ok(_) => {
                let ghost at = handle@;
                let fid = Fid::new(self.frame.fsid, handle);
                let parent = self.stack[self.stack.len() - 1].fid.copy();
                let name = copy_bytes(self.name.as_slice());
                let path = self.path_of(self.name.as_slice());
                self.seed.entries.push(SeedEntry::child(fid.copy(), parent, name));
                self.entering = Level { fid, path };
                self.state = DescentState::List;
                assert(self@.seed.entries =~= old(self)@.found(at).seed.entries);
                assert(self@ =~= old(self)@.found(at));
            },
            Err(e) => {
                self.state = DescentState::Failed(e);
                assert(self@ =~= old(self)@.found(handle@));
            },
        }
    }

    /// Takes a listed entry.
    fn consider(&mut self, name: Vec<u8>, advisory: Advisory)
        requires
            old(self).wf(),
            old(self)@.state is Next,
        ensures
            final(self).wf(),
            final(self)@ == (if old(self)@.worth_opening(name@, advisory) {
                DescentModel { name: name@, state: DescentState::Parent, ..old(self)@ }
            } else {
                old(self)@
            }),
    {
        proof {
            assert(name@ =~= seq![DOT] <==> name@.len() == 1 && name@[0] == DOT);
            assert(name@ =~= seq![DOT, DOT] <==> name@.len() == 2 && name@[0] == DOT && name@[1]
                == DOT);
        }
        if name.len() == 1 && name[0] == DOT {
            return ;
        }
        if name.len() == 2 && name[0] == DOT && name[1] == DOT {
            return ;
        }
        let path = self.path_of(name.as_slice());
        if excluded(&self.frame.exclusions, path.as_slice()) {
            return ;
        }
        if advisory == Advisory::Other {
            return ;
        }
        self.name = name;
        self.state = DescentState::Parent;
    }

    /// Takes an answer.
    pub fn step(&mut self, answer: WalkAnswer)
        requires
            old(self).wf(),
            answers(old(self)@.ask(), answer),
        ensures
            final(self).wf(),
            final(self)@ == old(self)@.next(answer),
    {
        match (self.state, answer) {
            (DescentState::List, WalkAnswer::Listed(listed)) => match listed {
                Ok(_) => {
                    let level = Level {
                        fid: self.entering.fid.copy(),
                        path: copy_bytes(self.entering.path.as_slice()),
                    };
                    self.stack.push(level);
                    self.state = DescentState::Next;
                    assert(self@.stack =~= old(self)@.stack.push(old(self)@.entering));
                },
                Err(e) => {
                    self.fail(IoError::Os(e));
                },
            },
            (DescentState::Next, WalkAnswer::Next(listing)) => match listing {
                Listing::End => {
                    let _ = self.stack.pop();
                    self.state = if self.stack.len() == 0 {
                        DescentState::Done
                    } else {
                        DescentState::Next
                    };
                    assert(self@.stack =~= old(self)@.stack.drop_last());
                },
                Listing::Failed(e) => {
                    self.pass_over(e);
                },
                Listing::Entry { name, advisory } => {
                    self.consider(name, advisory);
                },
            },
            (DescentState::Parent, WalkAnswer::Parent(ready)) => match ready {
                Ok(_) => {
                    self.state = DescentState::Open;
                },
                Err(e) => {
                    self.fail(IoError::Os(e));
                },
            },
            (DescentState::Open, WalkAnswer::Opened(opened)) => match opened {
                Ok(_) => {
                    self.state = DescentState::Stat;
                },
                Err(e) => {
                    self.pass_over(e);
                },
            },
            (DescentState::Stat, WalkAnswer::Stat(stat)) => match stat {
                Ok((dev, mode)) => {
                    self.state = DescentState::Mount { dev, mode };
                },
                Err(e) => {
                    self.pass_over(e);
                },
            },
            (DescentState::Mount { dev, mode }, WalkAnswer::Mount(mount)) => match mount {
                Ok((mask, id)) => {
                    let mnt_id = mnt_id_from_mask(mask, id);
                    if dev != self.frame.root_dev || differ(self.frame.fence_mnt_id, mnt_id) {
                        self.decline(dev, mnt_id);
                    } else if !mode_is_directory(mode) {
                        self.state = DescentState::Next;
                    } else {
                        self.state = DescentState::Handle;
                    }
                },
                Err(e) => {
                    self.pass_over(e);
                },
            },
            (DescentState::Handle, WalkAnswer::Handle(handle)) => match handle {
                Some(handle) => {
                    self.take_in(handle);
                },
                None => {
                    self.fail(IoError::Refused(Refusal::DirectoryWithoutHandle));
                },
            },
            _ => {},
        }
    }
}

} // verus!
