//! The walk of a location that an unmount may have revealed.
//!
//! The location is looked at through its own parent, and the root's device and
//! mount are read again beside it: what is beneath the location is walked only
//! if the root is the one the caller knows and the location lies in its scope.

use vstd::prelude::*;

use crate::error::{Errno, IoError, Refusal};
use crate::fanotify::fid::{EntryModel, Fid, FidModel, SeedEntry};
use crate::fanotify::walk::{
    Descent, DescentModel, DescentState, FrameModel, Level, LevelModel, SeedModel, WalkAnswer,
    WalkAsk, WalkError, WalkFrame, WalkSeed, WalkSkip, answers, classify_walk_skip, walk_skip,
};
use crate::path::{components, copy_bytes, file_name, has_file_name, parent};
use crate::scope::{
    ScopeFrame, excluded, is_directory, is_excluded, mnt_id_from_mask, mode_is_directory,
    mount_id,
};

verus! {

/// What a walk of a revealed location came to.
#[derive(Debug)]
pub enum AdmitWalk {
    /// The location's directories, which hang in `parent`.
    Revealed { parent: Fid, seed: WalkSeed },
    /// Another mount covers the location.
    StillCovered { dev: Option<u64>, mnt_id: Option<u64> },
    /// There is nothing there to admit.
    Nothing,
    /// The root is not the one the caller knows.
    Stale,
}

/// What an `AdmitWalk` stands for.
pub enum AdmitModel {
    Revealed(FidModel, SeedModel),
    StillCovered(Option<u64>, Option<u64>),
    Nothing,
    Stale,
}

impl View for AdmitWalk {
    type V = AdmitModel;

    open spec fn view(&self) -> AdmitModel {
        match self {
            AdmitWalk::Revealed { parent, seed } => AdmitModel::Revealed(parent@, seed@),
            AdmitWalk::StillCovered { dev, mnt_id } => AdmitModel::StillCovered(*dev, *mnt_id),
            AdmitWalk::Nothing => AdmitModel::Nothing,
            AdmitWalk::Stale => AdmitModel::Stale,
        }
    }
}

/// How far the walk has come before it descends.
#[derive(Clone, Copy, Debug, PartialEq, Eq, Structural)]
pub enum RevealStage {
    /// The location's parent is being opened.
    OpenParent,
    /// The location is being opened in its parent.
    OpenChild,
    /// The root is being opened.
    OpenRoot,
    /// The location's device and mode are being read.
    StatChild,
    /// The location's mount is being read.
    MountChild { dev: u64 },
    /// The root's device is being read.
    StatRoot { dev: u64, mnt_id: Option<u64> },
    /// The root's mount is being read.
    MountRoot { dev: u64, mnt_id: Option<u64>, root_dev: u64 },
    /// The parent's handle is being read.
    ParentHandle { mnt_id: Option<u64> },
    /// The location's handle is being read.
    ChildHandle { mnt_id: Option<u64> },
}

/// What the walk waits for.
#[derive(Clone, Copy, Debug, PartialEq, Eq, Structural)]
pub enum RevealAsk {
    OpenParent,
    OpenChild,
    OpenRoot,
    StatChild,
    MountChild,
    StatRoot,
    MountRoot,
    ParentHandle,
    ChildHandle,
    /// What the descent asks for.
    Do(WalkAsk),
}

/// Whether the answer is of the sort that was asked for.
pub open spec fn reveal_answers(ask: RevealAsk, answer: WalkAnswer) -> bool {
    match ask {
        RevealAsk::OpenParent | RevealAsk::OpenChild | RevealAsk::OpenRoot => answer is Opened,
        RevealAsk::StatChild | RevealAsk::StatRoot => answer is Stat,
        RevealAsk::MountChild | RevealAsk::MountRoot => answer is Mount,
        RevealAsk::ParentHandle | RevealAsk::ChildHandle => answer is Handle,
        RevealAsk::Do(ask) => answers(ask, answer),
    }
}

/// What the walk is to do.
#[derive(Debug)]
pub struct RevealPlan {
    location: Vec<u8>,
    parent_path: Vec<u8>,
    name: Vec<u8>,
    known: ScopeFrame,
    frame: WalkFrame,
    /// The parent's handle, once it was read.
    parent: Vec<u8>,
}

/// What a `RevealPlan` stands for.
#[verifier::ext_equal]
pub struct RevealPlanModel {
    pub location: Seq<u8>,
    pub name: Seq<u8>,
    pub known: ScopeFrame,
    pub frame: FrameModel,
    pub parent: Seq<u8>,
}

impl View for RevealPlan {
    type V = RevealPlanModel;

    closed spec fn view(&self) -> RevealPlanModel {
        RevealPlanModel {
            location: self.location@,
            name: self.name@,
            known: self.known,
            frame: self.frame@,
            parent: self.parent@,
        }
    }
}

impl RevealPlan {
    /// The plan's invariant: the parent's path is the location's, less its name.
    pub closed spec fn wf(&self) -> bool {
        components(self.parent_path@).push(self.name@) == components(self.location@)
    }

    /// The location.
    pub fn location(&self) -> (r: &[u8])
        ensures
            r@ == self@.location,
    {
        self.location.as_slice()
    }

    /// The path of the location's parent.
    pub fn parent_path(&self) -> (r: &[u8])
        requires
            self.wf(),
        ensures
            components(r@).push(self@.name) == components(self@.location),
    {
        self.parent_path.as_slice()
    }

    /// The location's name in its parent.
    pub fn name(&self) -> (r: &[u8])
        ensures
            r@ == self@.name,
    {
        self.name.as_slice()
    }
}

/// One walk of a revealed location under way.
#[derive(Debug)]
pub enum RevealWalk {
    Prepare(RevealPlan, RevealStage),
    Descend { parent: Fid, descent: Descent },
    Done(AdmitWalk),
    Failed(WalkError),
}

/// What a `RevealWalk` stands for.
pub enum RevealModel {
    Prepare(RevealPlanModel, RevealStage),
    Descend(FidModel, DescentModel),
    Done(AdmitModel),
    Failed(WalkError),
}

impl View for RevealWalk {
    type V = RevealModel;

    open spec fn view(&self) -> RevealModel {
        match self {
            RevealWalk::Prepare(plan, stage) => RevealModel::Prepare(plan@, *stage),
            RevealWalk::Descend { parent, descent } => RevealModel::Descend(parent@, descent@),
            RevealWalk::Done(end) => RevealModel::Done(end@),
            RevealWalk::Failed(e) => RevealModel::Failed(*e),
        }
    }
}

/// The failure of a walk that could not see what is there.
pub open spec fn unseen(err: IoError) -> RevealModel {
    RevealModel::Failed(WalkError::Incomplete(err))
}

/// What an error on the way to the location comes to: what has vanished reveals
/// nothing.
pub open spec fn vanished(err: Errno) -> RevealModel {
    match walk_skip(err) {
        WalkSkip::VanishedRace => RevealModel::Done(AdmitModel::Nothing),
        WalkSkip::Incomplete => unseen(IoError::Os(err)),
    }
}

impl RevealPlanModel {
    /// The descent into the location once its handle is known.
    pub open spec fn descent(self, mnt_id: Option<u64>, handle: Seq<u8>) -> DescentModel {
        let frame = FrameModel { fence_mnt_id: mnt_id, ..self.frame };
        let fid = FidModel { fsid: frame.fsid, handle };
        DescentModel::start(
            frame,
            LevelModel { fid, path: self.location },
            SeedModel {
                entries: seq![EntryModel {
                    fid,
                    parent: Some(FidModel { fsid: frame.fsid, handle: self.parent }),
                    name: self.name,
                }],
                declined: Seq::empty(),
                fence_mnt_id: mnt_id,
            },
        )
    }

    /// What is decided once the location and the root have been looked at.
    pub open spec fn judged(
        self,
        dev: u64,
        mnt_id: Option<u64>,
        live: ScopeFrame,
    ) -> RevealModel {
        if live != self.known {
            RevealModel::Done(AdmitModel::Stale)
        } else if live.crossed(Some(dev), mnt_id) {
            RevealModel::Done(AdmitModel::StillCovered(Some(dev), mnt_id))
        } else {
            RevealModel::Prepare(self, RevealStage::ParentHandle { mnt_id })
        }
    }

    /// The walk after an answer, before it descends.
    pub open spec fn next(self, stage: RevealStage, answer: WalkAnswer) -> RevealModel {
        match (stage, answer) {
            (RevealStage::OpenParent, WalkAnswer::Opened(opened)) => match opened {
                Ok(_) => RevealModel::Prepare(self, RevealStage::OpenChild),
                Err(e) => vanished(e),
            },
            (RevealStage::OpenChild, WalkAnswer::Opened(opened)) => match opened {
                Ok(_) => RevealModel::Prepare(self, RevealStage::OpenRoot),
                Err(e) => vanished(e),
            },
            (RevealStage::OpenRoot, WalkAnswer::Opened(opened)) => match opened {
                Ok(_) => RevealModel::Prepare(self, RevealStage::StatChild),
                Err(e) => unseen(IoError::Os(e)),
            },
            (RevealStage::StatChild, WalkAnswer::Stat(stat)) => match stat {
                Ok((dev, mode)) => if is_directory(mode) {
                    RevealModel::Prepare(self, RevealStage::MountChild { dev })
                } else {
                    RevealModel::Done(AdmitModel::Nothing)
                },
                Err(e) => unseen(IoError::Os(e)),
            },
            (RevealStage::MountChild { dev }, WalkAnswer::Mount(mount)) => match mount {
                Ok((mask, id)) => RevealModel::Prepare(
                    self,
                    RevealStage::StatRoot { dev, mnt_id: mount_id(mask, id) },
                ),
                Err(e) => unseen(IoError::Os(e)),
            },
            (RevealStage::StatRoot { dev, mnt_id }, WalkAnswer::Stat(stat)) => match stat {
                Ok((root_dev, _)) => RevealModel::Prepare(
                    self,
                    RevealStage::MountRoot { dev, mnt_id, root_dev },
                ),
                Err(e) => unseen(IoError::Os(e)),
            },
            (RevealStage::MountRoot { dev, mnt_id, root_dev }, WalkAnswer::Mount(mount)) =>
            match mount {
                Ok((mask, id)) => self.judged(
                    dev,
                    mnt_id,
                    ScopeFrame { root_dev: Some(root_dev), root_mnt_id: mount_id(mask, id) },
                ),
                Err(e) => unseen(IoError::Os(e)),
            },
            (RevealStage::ParentHandle { mnt_id }, WalkAnswer::Handle(handle)) => match handle {
                Some(h) => if self.frame.budget == Some(0usize) {
                    unseen(IoError::Refused(Refusal::AdmissionBudget))
                } else {
                    RevealModel::Prepare(
                        RevealPlanModel { parent: h@, ..self },
                        RevealStage::ChildHandle { mnt_id },
                    )
                },
                None => unseen(IoError::Refused(Refusal::RevealedParentWithoutHandle)),
            },
            (RevealStage::ChildHandle { mnt_id }, WalkAnswer::Handle(handle)) => match handle {
                Some(h) => RevealModel::Descend(
                    FidModel { fsid: self.frame.fsid, handle: self.parent },
                    self.descent(mnt_id, h@),
                ),
                None => unseen(IoError::Refused(Refusal::RevealedWithoutHandle)),
            },
            _ => RevealModel::Prepare(self, stage),
        }
    }
}

impl RevealModel {
    /// A walk of `location`, at its start: an excluded location, and one that
    /// is no name in a directory, has nothing to admit.
    pub open spec fn start(location: Seq<u8>, known: ScopeFrame, frame: FrameModel) -> RevealModel {
        if is_excluded(frame.exclusions, location) || !has_file_name(location) {
            RevealModel::Done(AdmitModel::Nothing)
        } else {
            RevealModel::Prepare(
                RevealPlanModel {
                    location,
                    name: components(location).last(),
                    known,
                    frame,
                    parent: Seq::empty(),
                },
                RevealStage::OpenParent,
            )
        }
    }

    /// What the walk waits for.
    pub open spec fn ask(self) -> RevealAsk {
        match self {
            RevealModel::Prepare(_, stage) => match stage {
                RevealStage::OpenParent => RevealAsk::OpenParent,
                RevealStage::OpenChild => RevealAsk::OpenChild,
                RevealStage::OpenRoot => RevealAsk::OpenRoot,
                RevealStage::StatChild => RevealAsk::StatChild,
                RevealStage::MountChild { .. } => RevealAsk::MountChild,
                RevealStage::StatRoot { .. } => RevealAsk::StatRoot,
                RevealStage::MountRoot { .. } => RevealAsk::MountRoot,
                RevealStage::ParentHandle { .. } => RevealAsk::ParentHandle,
                RevealStage::ChildHandle { .. } => RevealAsk::ChildHandle,
            },
            RevealModel::Descend(_, d) => RevealAsk::Do(d.ask()),
            RevealModel::Done(_) | RevealModel::Failed(_) => RevealAsk::Do(WalkAsk::Nothing),
        }
    }

    /// The walk after an answer.
    pub open spec fn next(self, answer: WalkAnswer) -> RevealModel {
        match self {
            RevealModel::Prepare(plan, stage) => plan.next(stage, answer),
            RevealModel::Descend(parent, d) => {
                let n = d.next(answer);
                match n.state {
                    DescentState::Done => RevealModel::Done(AdmitModel::Revealed(parent, n.seed)),
                    DescentState::Failed(e) => RevealModel::Failed(e),
                    _ => RevealModel::Descend(parent, n),
                }
            },
            _ => self,
        }
    }
}

impl RevealWalk {
    /// The walk's invariant.
    pub open spec fn wf(&self) -> bool {
        match self {
            RevealWalk::Prepare(plan, _) => plan.wf(),
            RevealWalk::Descend { descent, .. } => descent.wf(),
            _ => true,
        }
    }

    /// A walk of `location`, at its start.
    pub fn new(location: &[u8], known: ScopeFrame, frame: WalkFrame) -> (r: RevealWalk)
        ensures
            r.wf(),
            r@ == RevealModel::start(location@, known, frame@),
    {
        if excluded(&frame.exclusions, location) {
            return RevealWalk::Done(AdmitWalk::Nothing);
        }
        let name = match file_name(location) {
            Some(name) => name,
            None => {
                return RevealWalk::Done(AdmitWalk::Nothing);
            },
        };
        let parent_path = match parent(location) {
            Some(parent_path) => parent_path,
            None => {
                return RevealWalk::Done(AdmitWalk::Nothing);
            },
        };
        assert(components(location@).drop_last().push(components(location@).last())
            =~= components(location@));
        let plan = RevealPlan {
            location: copy_bytes(location),
            parent_path,
            name,
            known,
            frame,
            parent: Vec::new(),
        };
        assert(plan@.parent =~= Seq::empty());
        RevealWalk::Prepare(plan, RevealStage::OpenParent)
    }

    /// What the walk waits for.
    pub fn ask(&self) -> (r: RevealAsk)
        ensures
            r == self@.ask(),
    {
        match self {
            RevealWalk::Prepare(_, stage) => match stage {
                RevealStage::OpenParent => RevealAsk::OpenParent,
                RevealStage::OpenChild => RevealAsk::OpenChild,
                RevealStage::OpenRoot => RevealAsk::OpenRoot,
                RevealStage::StatChild => RevealAsk::StatChild,
                RevealStage::MountChild { .. } => RevealAsk::MountChild,
                RevealStage::StatRoot { .. } => RevealAsk::StatRoot,
                RevealStage::MountRoot { .. } => RevealAsk::MountRoot,
                RevealStage::ParentHandle { .. } => RevealAsk::ParentHandle,
                RevealStage::ChildHandle { .. } => RevealAsk::ChildHandle,
            },
            RevealWalk::Descend { descent, .. } => RevealAsk::Do(descent.ask()),
            RevealWalk::Done(_) | RevealWalk::Failed(_) => RevealAsk::Do(WalkAsk::Nothing),
        }
    }

    /// Fails the walk.
    fn unseen(err: IoError) -> (r: RevealWalk)
        ensures
            r.wf(),
            r@ == unseen(err),
    {
        RevealWalk::Failed(WalkError::Incomplete(err))
    }

    /// Ends the walk at an error on the way to the location.
    fn vanished(err: Errno) -> (r: RevealWalk)
        ensures
            r.wf(),
            r@ == vanished(err),
    {
        match classify_walk_skip(err) {
            WalkSkip::VanishedRace => RevealWalk::Done(AdmitWalk::Nothing),
            WalkSkip::Incomplete => RevealWalk::unseen(IoError::Os(err)),
        }
    }

    /// Starts the descent into the location.
    fn descend(plan: RevealPlan, mnt_id: Option<u64>, handle: Vec<u8>) -> (r: RevealWalk)
        ensures
            r.wf(),
            r@ == RevealModel::Descend(
                FidModel { fsid: plan@.frame.fsid, handle: plan@.parent },
                plan@.descent(mnt_id, handle@),
            ),
    {
        let mut frame = plan.frame;
        frame.fence_mnt_id = mnt_id;
        let fid = Fid::new(frame.fsid, handle);
        let parent = Fid::new(frame.fsid, plan.parent);
        let mut entries: Vec<SeedEntry> = Vec::new();
        entries.push(SeedEntry::child(fid.copy(), parent.copy(), plan.name));
        let seed = WalkSeed { entries, declined: Vec::new(), fence_mnt_id: mnt_id };
        assert(seed@.entries =~= plan@.descent(mnt_id, handle@).seed.entries);
        assert(seed@.declined =~= Seq::empty());
        let descent = Descent::new(frame, Level { fid, path: plan.location }, seed);
        RevealWalk::Descend { parent, descent }
    }

    /// Takes an answer before the walk descends.
    fn prepare(plan: RevealPlan, stage: RevealStage, answer: WalkAnswer) -> (r: RevealWalk)
        requires
            plan.wf(),
        ensures
            r.wf(),
            r@ == plan@.next(stage, answer),
    {
        match (stage, answer) {
            (RevealStage::OpenParent, WalkAnswer::Opened(opened)) => match opened {
                Ok(_) => RevealWalk::Prepare(plan, RevealStage::OpenChild),
                Err(e) => RevealWalk::vanished(e),
            },
            (RevealStage::OpenChild, WalkAnswer::Opened(opened)) => match opened {
                Ok(_) => RevealWalk::Prepare(plan, RevealStage::OpenRoot),
                Err(e) => RevealWalk::vanished(e),
            },
            (RevealStage::OpenRoot, WalkAnswer::Opened(opened)) => match opened {
                Ok(_) => RevealWalk::Prepare(plan, RevealStage::StatChild),
                Err(e) => RevealWalk::unseen(IoError::Os(e)),
            },
            (RevealStage::StatChild, WalkAnswer::Stat(stat)) => match stat {
                Ok((dev, mode)) => if mode_is_directory(mode) {
                    RevealWalk::Prepare(plan, RevealStage::MountChild { dev })
                } else {
                    RevealWalk::Done(AdmitWalk::Nothing)
                },
                Err(e) => RevealWalk::unseen(IoError::Os(e)),
            },
            (RevealStage::MountChild { dev }, WalkAnswer::Mount(mount)) => match mount {
                Ok((mask, id)) => RevealWalk::Prepare(
                    plan,
                    RevealStage::StatRoot { dev, mnt_id: mnt_id_from_mask(mask, id) },
                ),
                Err(e) => RevealWalk::unseen(IoError::Os(e)),
            },
            (RevealStage::StatRoot { dev, mnt_id }, WalkAnswer::Stat(stat)) => match stat {
                Ok((root_dev, _)) => RevealWalk::Prepare(
                    plan,
                    RevealStage::MountRoot { dev, mnt_id, root_dev },
                ),
                Err(e) => RevealWalk::unseen(IoError::Os(e)),
            },
            (RevealStage::MountRoot { dev, mnt_id, root_dev }, WalkAnswer::Mount(mount)) =>
            match mount {
                Ok((mask, id)) => {
                    let live = ScopeFrame {
                        root_dev: Some(root_dev),
                        root_mnt_id: mnt_id_from_mask(mask, id),
                    };
                    if live != plan.known {
                        RevealWalk::Done(AdmitWalk::Stale)
                    } else if live.crossed_by(Some(dev), mnt_id) {
                        RevealWalk::Done(AdmitWalk::StillCovered { dev: Some(dev), mnt_id })
                    } else {
                        RevealWalk::Prepare(plan, RevealStage::ParentHandle { mnt_id })
                    }
                },
                Err(e) => RevealWalk::unseen(IoError::Os(e)),
            },
            (RevealStage::ParentHandle { mnt_id }, WalkAnswer::Handle(handle)) => match handle {
                Some(h) => {
                    if let Some(0) = plan.frame.budget {
                        return RevealWalk::unseen(IoError::Refused(Refusal::AdmissionBudget));
                    }
                    let plan = RevealPlan { parent: h, ..plan };
                    RevealWalk::Prepare(plan, RevealStage::ChildHandle { mnt_id })
                },
                None => RevealWalk::unseen(
                    IoError::Refused(Refusal::RevealedParentWithoutHandle),
                ),
            },
            (RevealStage::ChildHandle { mnt_id }, WalkAnswer::Handle(handle)) => match handle {
                Some(h) => RevealWalk::descend(plan, mnt_id, h),
                None => RevealWalk::unseen(IoError::Refused(Refusal::RevealedWithoutHandle)),
            },
            _ => RevealWalk::Prepare(plan, stage),
        }
    }

    /// Takes an answer.
    pub fn step(self, answer: WalkAnswer) -> (r: RevealWalk)
        requires
            self.wf(),
            reveal_answers(self@.ask(), answer),
        ensures
            r.wf(),
            r@ == self@.next(answer),
    {
        match self {
            RevealWalk::Prepare(plan, stage) => RevealWalk::prepare(plan, stage, answer),
            RevealWalk::Descend { parent, descent } => {
                let mut descent = descent;
                descent.step(answer);
                match descent.state() {
                    DescentState::Done => RevealWalk::Done(
                        AdmitWalk::Revealed { parent, seed: descent.into_seed() },
                    ),
                    DescentState::Failed(e) => RevealWalk::Failed(e),
                    _ => RevealWalk::Descend { parent, descent },
                }
            },
            done => done,
        }
    }
}

} // verus!
