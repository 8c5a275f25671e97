//! The walks of a whole watched root and of a directory that moved into it.
//!
//! Before a walk descends it makes sure of where it starts: a directory that
//! is opened by its path must still be the one that was meant, by its handle,
//! and the descent stays in the mount that directory is on now.

use vstd::prelude::*;

use crate::error::{IoError, Refusal};
use crate::fanotify::fid::{EntryModel, Fid, FidModel, SeedEntry, handles_match};
use crate::fanotify::revealed::{RevealModel, RevealWalk};
use crate::fanotify::walk::{
    Descent, DescentModel, DescentState, FrameModel, Level, LevelModel, MAX_WALK_DECLINES,
    SeedModel, WalkAnswer, WalkAsk, WalkError, WalkFrame, WalkSeed, answers,
};
use crate::path::{copy_bytes, views};
use crate::scope::{ScopeFrame, mnt_id_from_mask, mount_id};

verus! {

/// What a walk starts from.
#[derive(Debug)]
pub enum WalkKind {
    /// The watched root, opened again by its path; it must be this one.
    Root(Fid),
    /// The watched root, still open.
    Pinned,
    /// A directory inside the root, opened by its path; it must be this one.
    Subtree(Fid),
}

/// What a `WalkKind` stands for.
pub enum KindModel {
    Root(FidModel),
    Pinned,
    Subtree(FidModel),
}

impl View for WalkKind {
    type V = KindModel;

    open spec fn view(&self) -> KindModel {
        match self {
            WalkKind::Root(fid) => KindModel::Root(fid@),
            WalkKind::Pinned => KindModel::Pinned,
            WalkKind::Subtree(fid) => KindModel::Subtree(fid@),
        }
    }
}

/// How far a walk has come before it descends.
#[derive(Clone, Copy, Debug, PartialEq, Eq, Structural)]
pub enum Stage {
    /// Its start is being opened.
    Start,
    /// The handle of its start is being compared.
    Match,
    /// The mount of its start is being read.
    Fence,
    /// The handle of the root is being read.
    Root,
}

/// What a walk is to do.
#[derive(Debug)]
pub struct Plan {
    pub kind: WalkKind,
    pub path: Vec<u8>,
    pub frame: WalkFrame,
}

/// What a `Plan` stands for.
pub struct PlanModel {
    pub kind: KindModel,
    pub path: Seq<u8>,
    pub frame: FrameModel,
}

impl View for Plan {
    type V = PlanModel;

    open spec fn view(&self) -> PlanModel {
        PlanModel { kind: self.kind@, path: self.path@, frame: self.frame@ }
    }
}

/// One walk under way.
#[derive(Debug)]
pub enum Walk {
    Prepare(Plan, Stage),
    Descend(Descent),
    Done(WalkSeed),
    Failed(WalkError),
}

/// What a `Walk` stands for.
pub enum WalkModel {
    Prepare(PlanModel, Stage),
    Descend(DescentModel),
    Done(SeedModel),
    Failed(WalkError),
}

impl View for Walk {
    type V = WalkModel;

    open spec fn view(&self) -> WalkModel {
        match self {
            Walk::Prepare(plan, stage) => WalkModel::Prepare(plan@, *stage),
            Walk::Descend(descent) => WalkModel::Descend(descent@),
            Walk::Done(seed) => WalkModel::Done(seed@),
            Walk::Failed(e) => WalkModel::Failed(*e),
        }
    }
}

impl PlanModel {
    /// The failure of a walk whose start cannot be had: of the root's own walk,
    /// the root is gone.
    pub open spec fn missing(self, err: IoError) -> WalkError {
        if self.kind is Subtree {
            WalkError::Incomplete(err)
        } else {
            WalkError::RootGone(err)
        }
    }

    /// The plan of a descent that stays in the given mount.
    pub open spec fn fenced(self, fence_mnt_id: Option<u64>) -> PlanModel {
        PlanModel { frame: FrameModel { fence_mnt_id, ..self.frame }, ..self }
    }

    /// The descent of a subtree's walk, which finds what is beneath it.
    pub open spec fn beneath(self, fid: FidModel) -> DescentModel {
        DescentModel::start(
            self.frame,
            LevelModel { fid, path: self.path },
            SeedModel {
                entries: Seq::empty(),
                declined: Seq::empty(),
                fence_mnt_id: self.frame.fence_mnt_id,
            },
        )
    }

    /// The descent of a root's walk, which has found the root.
    pub open spec fn from_root(self, handle: Seq<u8>) -> DescentModel {
        let fid = FidModel { fsid: self.frame.fsid, handle };
        DescentModel::start(
            self.frame,
            LevelModel { fid, path: self.path },
            SeedModel {
                entries: seq![EntryModel { fid, parent: None, name: self.path }],
                declined: Seq::empty(),
                fence_mnt_id: self.frame.fence_mnt_id,
            },
        )
    }

    /// The walk after an answer, before it descends.
    pub open spec fn next(self, stage: Stage, answer: WalkAnswer) -> WalkModel {
        match (stage, answer) {
            (Stage::Start, WalkAnswer::Opened(opened)) => match opened {
                Ok(_) => if self.kind is Pinned {
                    WalkModel::Prepare(self, Stage::Root)
                } else {
                    WalkModel::Prepare(self, Stage::Match)
                },
                Err(e) => WalkModel::Failed(self.missing(IoError::Os(e))),
            },
            (Stage::Match, WalkAnswer::Handle(handle)) => match self.kind {
                KindModel::Root(fid) => if handle matches Some(h) && h@ == fid.handle {
                    WalkModel::Prepare(self, Stage::Fence)
                } else {
                    WalkModel::Failed(self.missing(IoError::Refused(Refusal::RootReplaced)))
                },
                KindModel::Subtree(fid) => if handle matches Some(h) && h@ == fid.handle {
                    WalkModel::Prepare(self, Stage::Fence)
                } else {
                    WalkModel::Failed(self.missing(IoError::Refused(Refusal::SubtreeReplaced)))
                },
                KindModel::Pinned => WalkModel::Prepare(self, Stage::Root),
            },
            (Stage::Fence, WalkAnswer::Mount(mount)) => match mount {
                Ok((mask, id)) => {
                    let plan = self.fenced(mount_id(mask, id));
                    match self.kind {
                        KindModel::Subtree(fid) => WalkModel::Descend(plan.beneath(fid)),
                        _ => WalkModel::Prepare(plan, Stage::Root),
                    }
                },
                Err(e) => WalkModel::Failed(WalkError::Incomplete(IoError::Os(e))),
            },
            (Stage::Root, WalkAnswer::Handle(handle)) => match handle {
                Some(h) => if self.frame.budget == Some(0usize) {
                    WalkModel::Failed(
                        WalkError::Incomplete(IoError::Refused(Refusal::DirectoryBudget)),
                    )
                } else {
                    WalkModel::Descend(self.from_root(h@))
                },
                None => WalkModel::Failed(
                    WalkError::RootGone(IoError::Refused(Refusal::RootWithoutHandle)),
                ),
            },
            _ => WalkModel::Prepare(self, stage),
        }
    }
}

/// What is left of a descent: itself, or what it came to.
pub open spec fn descended(d: DescentModel) -> WalkModel {
    match d.state {
        DescentState::Done => WalkModel::Done(d.seed),
        DescentState::Failed(e) => WalkModel::Failed(e),
        _ => WalkModel::Descend(d),
    }
}

impl WalkModel {
    /// What the walk waits for.
    pub open spec fn ask(self) -> WalkAsk {
        match self {
            WalkModel::Prepare(_, Stage::Start) => WalkAsk::Start,
            WalkModel::Prepare(_, Stage::Match) => WalkAsk::Handle,
            WalkModel::Prepare(_, Stage::Fence) => WalkAsk::Mount,
            WalkModel::Prepare(_, Stage::Root) => WalkAsk::Handle,
            WalkModel::Descend(d) => d.ask(),
            WalkModel::Done(_) | WalkModel::Failed(_) => WalkAsk::Nothing,
        }
    }

    /// The walk after an answer.
    pub open spec fn next(self, answer: WalkAnswer) -> WalkModel {
        match self {
            WalkModel::Prepare(plan, stage) => plan.next(stage, answer),
            WalkModel::Descend(d) => descended(d.next(answer)),
            _ => self,
        }
    }
}

impl Walk {
    /// The invariant of the descent.
    pub open spec fn wf(&self) -> bool {
        match self {
            Walk::Descend(d) => d.wf(),
            _ => true,
        }
    }

    /// What the walk waits for.
    pub fn ask(&self) -> (r: WalkAsk)
        ensures
            r == self@.ask(),
    {
        match self {
            Walk::Prepare(_, stage) => match stage {
                Stage::Start => WalkAsk::Start,
                Stage::Match => WalkAsk::Handle,
                Stage::Fence => WalkAsk::Mount,
                Stage::Root => WalkAsk::Handle,
            },
            Walk::Descend(descent) => descent.ask(),
            Walk::Done(_) | Walk::Failed(_) => WalkAsk::Nothing,
        }
    }

    /// Takes an answer before the walk descends.
    fn prepare(plan: Plan, stage: Stage, answer: WalkAnswer) -> (r: Walk)
        ensures
            r.wf(),
            r@ == plan@.next(stage, answer),
    {
        match (stage, answer) {
            (Stage::Start, WalkAnswer::Opened(opened)) => match opened {
                Ok(_) => match plan.kind {
                    WalkKind::Pinned => Walk::Prepare(plan, Stage::Root),
                    _ => Walk::Prepare(plan, Stage::Match),
                },
                Err(e) => Walk::missing(&plan, IoError::Os(e)),
            },
            (Stage::Match, WalkAnswer::Handle(handle)) => {
                let found: Option<&[u8]> = match &handle {
                    Some(h) => Some(h.as_slice()),
                    None => None,
                };
                match &plan.kind {
                    WalkKind::Root(fid) => if handles_match(found, fid.handle()) {
                        Walk::Prepare(plan, Stage::Fence)
                    } else {
                        Walk::missing(&plan, IoError::Refused(Refusal::RootReplaced))
                    },
                    WalkKind::Subtree(fid) => if handles_match(found, fid.handle()) {
                        Walk::Prepare(plan, Stage::Fence)
                    } else {
                        Walk::missing(&plan, IoError::Refused(Refusal::SubtreeReplaced))
                    },
                    WalkKind::Pinned => Walk::Prepare(plan, Stage::Root),
                }
            },
            (Stage::Fence, WalkAnswer::Mount(mount)) => match mount {
                Ok((mask, id)) => {
                    let mut plan = plan;
                    plan.frame.fence_mnt_id = mnt_id_from_mask(mask, id);
                    match plan.kind {
                        WalkKind::Subtree(fid) => {
                            let seed = WalkSeed {
                                entries: Vec::new(),
                                declined: Vec::new(),
                                fence_mnt_id: plan.frame.fence_mnt_id,
                            };
                            assert(seed@.entries =~= Seq::empty());
                            assert(seed@.declined =~= Seq::empty());
                            Walk::Descend(
                                Descent::new(plan.frame, Level { fid, path: plan.path }, seed),
                            )
                        },
                        _ => Walk::Prepare(plan, Stage::Root),
                    }
                },
                Err(e) => Walk::Failed(WalkError::Incomplete(IoError::Os(e))),
            },
            (Stage::Root, WalkAnswer::Handle(handle)) => match handle {
                Some(h) => {
                    if let Some(0) = plan.frame.budget {
                        return Walk::Failed(
                            WalkError::Incomplete(IoError::Refused(Refusal::DirectoryBudget)),
                        );
                    }
                    let fid = Fid::new(plan.frame.fsid, h);
                    let mut entries: Vec<SeedEntry> = Vec::new();
                    entries.push(SeedEntry::root(fid.copy(), plan.path.as_slice()));
                    let seed = WalkSeed {
                        entries,
                        declined: Vec::new(),
                        fence_mnt_id: plan.frame.fence_mnt_id,
                    };
                    assert(seed@.entries =~= plan@.from_root(h@).seed.entries);
                    assert(seed@.declined =~= Seq::empty());
                    Walk::Descend(Descent::new(plan.frame, Level { fid, path: plan.path }, seed))
                },
                None => Walk::Failed(
                    WalkError::RootGone(IoError::Refused(Refusal::RootWithoutHandle)),
                ),
            },
            _ => Walk::Prepare(plan, stage),
        }
    }

    /// The failure of a walk whose start cannot be had.
    fn missing(plan: &Plan, err: IoError) -> (r: Walk)
        ensures
            r.wf(),
            r@ == WalkModel::Failed(plan@.missing(err)),
    {
        match &plan.kind {
            WalkKind::Subtree(_) => Walk::Failed(WalkError::Incomplete(err)),
            _ => Walk::Failed(WalkError::RootGone(err)),
        }
    }

    /// Takes an answer.
    pub fn step(self, answer: WalkAnswer) -> (r: Walk)
        requires
            self.wf(),
            answers(self@.ask(), answer),
        ensures
            r.wf(),
            r@ == self@.next(answer),
    {
        match self {
            Walk::Prepare(plan, stage) => Walk::prepare(plan, stage, answer),
            Walk::Descend(descent) => {
                let mut descent = descent;
                descent.step(answer);
                match descent.state() {
                    DescentState::Done => Walk::Done(descent.into_seed()),
                    DescentState::Failed(e) => Walk::Failed(e),
                    _ => Walk::Descend(descent),
                }
            },
            done => done,
        }
    }

    /// What the walk came to, once it has ended.
    pub fn result(self) -> (r: Option<Result<WalkSeed, WalkError>>)
        ensures
            match self@ {
                WalkModel::Done(seed) => r matches Some(Ok(s)) && s@ == seed,
                WalkModel::Failed(e) => r == Some(Err::<WalkSeed, WalkError>(e)),
                _ => r is None,
            },
    {
        match self {
            Walk::Done(seed) => Some(Ok(seed)),
            Walk::Failed(e) => Some(Err(e)),
            _ => None,
        }
    }
}

/// What is needed to walk a watched root again.
#[derive(Debug)]
pub struct ReseedContext {
    pub root: Vec<u8>,
    pub fsid: [u8; 8],
    pub root_dev: u64,
    pub root_mnt_id: Option<u64>,
    pub root_fid: Fid,
    pub max_directories: Option<usize>,
    pub exclusions: Vec<Vec<u8>>,
}

/// What a `ReseedContext` stands for.
pub struct ContextModel {
    pub root: Seq<u8>,
    pub fsid: Seq<u8>,
    pub root_dev: u64,
    pub root_mnt_id: Option<u64>,
    pub root_fid: FidModel,
    pub max_directories: Option<usize>,
    pub exclusions: Seq<Seq<u8>>,
}

impl View for ReseedContext {
    type V = ContextModel;

    open spec fn view(&self) -> ContextModel {
        ContextModel {
            root: self.root@,
            fsid: self.fsid@,
            root_dev: self.root_dev,
            root_mnt_id: self.root_mnt_id,
            root_fid: self.root_fid@,
            max_directories: self.max_directories,
            exclusions: views(self.exclusions@),
        }
    }
}

impl ContextModel {
    /// What a walk with these bounds keeps to, in the given mount.
    pub open spec fn frame(
        self,
        fence_mnt_id: Option<u64>,
        budget: Option<usize>,
        decline_budget: usize,
    ) -> FrameModel {
        FrameModel {
            fsid: self.fsid,
            root_dev: self.root_dev,
            fence_mnt_id,
            exclusions: self.exclusions,
            budget,
            decline_budget,
        }
    }
}

impl ContextModel {
    /// The walk of the whole root, which is still open.
    pub open spec fn pinned_walk(self) -> WalkModel {
        WalkModel::Prepare(
            PlanModel {
                kind: KindModel::Pinned,
                path: self.root,
                frame: self.frame(self.root_mnt_id, self.max_directories, MAX_WALK_DECLINES),
            },
            Stage::Start,
        )
    }
}

impl ContextModel {
    /// The walk of the whole root, opened again by its path.
    pub open spec fn root_walk(self) -> WalkModel {
        WalkModel::Prepare(
            PlanModel {
                kind: KindModel::Root(self.root_fid),
                path: self.root,
                frame: self.frame(None, self.max_directories, MAX_WALK_DECLINES),
            },
            Stage::Start,
        )
    }

    /// The walk of what is beneath a directory inside the root.
    pub open spec fn subtree_walk(
        self,
        path: Seq<u8>,
        fid: FidModel,
        budget: Option<usize>,
        max_declines: usize,
    ) -> WalkModel {
        WalkModel::Prepare(
            PlanModel {
                kind: KindModel::Subtree(fid),
                path,
                frame: self.frame(None, budget, max_declines),
            },
            Stage::Start,
        )
    }
}

/// Copies a list of byte strings.
pub fn copy_list(list: &Vec<Vec<u8>>) -> (r: Vec<Vec<u8>>)
    ensures
        views(r@) == views(list@),
{
    let mut out: Vec<Vec<u8>> = Vec::new();
    let mut i: usize = 0;
    while i < list.len()
        invariant
            i <= list@.len(),
            views(out@) =~= views(list@).take(i as int),
        decreases list@.len() - i,
    {
        let ghost before = views(out@);
        let copy = copy_bytes(list[i].as_slice());
        assert(views(list@)[i as int] == copy@);
        out.push(copy);
        assert(views(out@) =~= before.push(copy@));
        i = i + 1;
    }
    assert(views(list@).take(i as int) =~= views(list@));
    out
}

impl ReseedContext {
    /// What a walk with these bounds keeps to, in the given mount.
    fn frame(
        &self,
        fence_mnt_id: Option<u64>,
        budget: Option<usize>,
        decline_budget: usize,
    ) -> (r: WalkFrame)
        ensures
            r@ == self@.frame(fence_mnt_id, budget, decline_budget),
    {
        WalkFrame {
            fsid: self.fsid,
            root_dev: self.root_dev,
            fence_mnt_id,
            exclusions: copy_list(&self.exclusions),
            budget,
            decline_budget,
        }
    }

    /// A walk of the whole root, opened again by its path.
    pub fn walk(&self) -> (r: Walk)
        ensures
            r.wf(),
            r@ == self@.root_walk(),
    {
        Walk::Prepare(
            Plan {
                kind: WalkKind::Root(self.root_fid.copy()),
                path: copy_bytes(self.root.as_slice()),
                frame: self.frame(None, self.max_directories, MAX_WALK_DECLINES),
            },
            Stage::Start,
        )
    }

    /// A walk of the whole root, which is still open.
    pub fn seed_at_fd(&self) -> (r: Walk)
        ensures
            r.wf(),
            r@ == self@.pinned_walk(),
    {
        Walk::Prepare(
            Plan {
                kind: WalkKind::Pinned,
                path: copy_bytes(self.root.as_slice()),
                frame: self.frame(self.root_mnt_id, self.max_directories, MAX_WALK_DECLINES),
            },
            Stage::Start,
        )
    }

    /// A walk of what is beneath a directory inside the root.
    pub fn walk_subtree(
        &self,
        subtree: &[u8],
        subtree_fid: &Fid,
        budget: Option<usize>,
        max_declines: usize,
    ) -> (r: Walk)
        ensures
            r.wf(),
            r@ == self@.subtree_walk(subtree@, subtree_fid@, budget, max_declines),
    {
        Walk::Prepare(
            Plan {
                kind: WalkKind::Subtree(subtree_fid.copy()),
                path: copy_bytes(subtree),
                frame: self.frame(None, budget, max_declines),
            },
            Stage::Start,
        )
    }

    /// A walk of a location that may have been revealed by an unmount.
    pub fn walk_revealed(
        &self,
        location: &[u8],
        frame: ScopeFrame,
        budget: Option<usize>,
    ) -> (r: RevealWalk)
        ensures
            r.wf(),
            r@ == RevealModel::start(
                location@,
                frame,
                self@.frame(None, budget, MAX_WALK_DECLINES),
            ),
    {
        RevealWalk::new(location, frame, self.frame(None, budget, MAX_WALK_DECLINES))
    }

    /// The context of a root of which nothing but the path is known.
    pub fn for_test(root: Vec<u8>) -> (r: ReseedContext)
        ensures
            r@.root == root@,
            r@.fsid == Seq::new(8, |i: int| 0u8),
            r@.root_dev == 0,
            r@.root_mnt_id is None,
            r@.root_fid == (FidModel { fsid: r@.fsid, handle: seq![0u8] }),
            r@.max_directories is None,
            r@.exclusions.len() == 0,
    {
        let mut handle: Vec<u8> = Vec::new();
        handle.push(0);
        assert(handle@ =~= seq![0u8]);
        let fsid: [u8; 8] = [0, 0, 0, 0, 0, 0, 0, 0];
        assert(fsid@ =~= Seq::new(8, |i: int| 0u8));
        ReseedContext {
            root,
            fsid,
            root_dev: 0,
            root_mnt_id: None,
            root_fid: Fid::new(fsid, handle),
            max_directories: None,
            exclusions: Vec::new(),
        }
    }

    /// The exclusions.
    pub fn exclusions(&self) -> (r: &Vec<Vec<u8>>)
        ensures
            views(r@) == self@.exclusions,
    {
        &self.exclusions
    }
}

} // verus!
