//! What a walk makes of each thing that it sees: on its way down, at its start, and at
//! a location that an unmount may have revealed.

use vstd::prelude::*;

use crate::error::{Errno, IoError, Refusal};
use crate::fanotify::fid::{EntryModel, FidModel};
use crate::fanotify::revealed::{
    AdmitModel, RevealAsk, RevealModel, RevealPlanModel, RevealStage, reveal_answers,
};
use crate::fanotify::tree::{KindModel, PlanModel, Stage, WalkModel};
use crate::fanotify::walk::{
    Advisory, BoundaryModel, DescentModel, DescentState, FrameModel, LevelModel, Listing,
    SeedModel, WalkAnswer, WalkAsk, WalkError, answers,
};
use crate::path::{components, joined};
use crate::scope::{ScopeFrame, is_excluded};

verus! {

/// Whether the error says that what was there is gone, or is no directory.
pub open spec fn says_gone(e: Errno) -> bool {
    e == Errno::NoEnt || e == Errno::Loop || e == Errno::NotDir
}

/// The mount id that was read, where it is valid.
pub open spec fn mount_read(mask: u32, id: u64) -> Option<u64> {
    if mask & 0x1000 != 0 {
        Some(id)
    } else {
        None
    }
}

/// Whether two mounts are both known and differ.
pub open spec fn other_mount(a: Option<u64>, b: Option<u64>) -> bool {
    a is Some && b is Some && a->0 != b->0
}

/// Whether the file mode is a directory's.
pub open spec fn is_dir_mode(mode: u32) -> bool {
    mode & 0xf000 == 0x4000
}

/// A walk that failed because the tree could not be seen as a whole.
pub open spec fn fails_for(state: DescentState, source: IoError) -> bool {
    state == DescentState::Failed(WalkError::Incomplete(source))
}

/// Whether the descent goes on to the next entry with nothing else changed, or fails with
/// the error where that does not say that the entry is gone.
pub open spec fn passes_over(d: DescentModel, n: DescentModel, e: Errno) -> bool {
    if says_gone(e) {
        n == DescentModel { state: DescentState::Next, ..d }
    } else {
        fails_for(n.state, IoError::Os(e)) && n.seed == d.seed
    }
}

/// What a descent makes of what it sees. It looks at each listed entry that may be a
/// directory and is not excluded, and at no other. An entry in another device or mount is
/// a boundary: it is not entered, and where it lies is told with its device and mount. A
/// directory inside is found, with its handle, its name and the directory it lies in, and
/// is entered, unless it was found before. What is gone is passed over; anything that may
/// hide a directory ends the walk, and so does a directory or a boundary too many.
pub proof fn law_a_descent_follows_what_it_sees(d: DescentModel, answer: WalkAnswer)
    requires
        answers(d.ask(), answer),
    ensures
        ({
            let n = d.next(answer);
            let here = d.stack.last();
            let path = joined(here.path, d.name);
            &&& n.frame == d.frame
            &&& match (d.state, answer) {
                (DescentState::List, WalkAnswer::Listed(Ok(_))) => n == DescentModel {
                    stack: d.stack.push(d.entering),
                    state: DescentState::Next,
                    ..d
                },
                (DescentState::List, WalkAnswer::Listed(Err(e))) => fails_for(
                    n.state,
                    IoError::Os(e),
                ),
                (DescentState::Next, WalkAnswer::Next(Listing::End)) => n == DescentModel {
                    stack: d.stack.drop_last(),
                    state: if d.stack.len() == 1 {
                        DescentState::Done
                    } else {
                        DescentState::Next
                    },
                    ..d
                },
                (DescentState::Next, WalkAnswer::Next(Listing::Failed(e))) => passes_over(d, n, e),
                (DescentState::Next, WalkAnswer::Next(Listing::Entry { name, advisory })) => if
                    name@ == seq![46u8] || name@ == seq![46u8, 46u8] || advisory
                    == Advisory::Other || is_excluded(
                    d.frame.exclusions,
                    joined(here.path, name@),
                ) {
                    n == d
                } else {
                    n == DescentModel { name: name@, state: DescentState::Parent, ..d }
                },
                (DescentState::Parent, WalkAnswer::Parent(Ok(_))) => n == DescentModel {
                    state: DescentState::Open,
                    ..d
                },
                (DescentState::Parent, WalkAnswer::Parent(Err(e))) => fails_for(
                    n.state,
                    IoError::Os(e),
                ),
                (DescentState::Open, WalkAnswer::Opened(Ok(_))) => n == DescentModel {
                    state: DescentState::Stat,
                    ..d
                },
                (DescentState::Open, WalkAnswer::Opened(Err(e))) => passes_over(d, n, e),
                (DescentState::Stat, WalkAnswer::Stat(Ok((dev, mode)))) => n == DescentModel {
                    state: DescentState::Mount { dev, mode },
                    ..d
                },
                (DescentState::Stat, WalkAnswer::Stat(Err(e))) => passes_over(d, n, e),
                (DescentState::Mount { .. }, WalkAnswer::Mount(Err(e))) => passes_over(d, n, e),
                (DescentState::Mount { dev, mode }, WalkAnswer::Mount(Ok((mask, id)))) => if dev
                    != d.frame.root_dev || other_mount(
                    d.frame.fence_mnt_id,
                    mount_read(mask, id),
                ) {
                    if d.seed.declined.len() < d.frame.decline_budget {
                        n == DescentModel {
                            seed: SeedModel {
                                declined: d.seed.declined.push(
                                    BoundaryModel {
                                        location: path,
                                        dev,
                                        mnt_id: mount_read(mask, id),
                                    },
                                ),
                                ..d.seed
                            },
                            state: DescentState::Next,
                            ..d
                        }
                    } else {
                        fails_for(n.state, IoError::Refused(Refusal::BoundaryBudget))
                    }
                } else if is_dir_mode(mode) {
                    n == DescentModel { state: DescentState::Handle, ..d }
                } else {
                    n == DescentModel { state: DescentState::Next, ..d }
                },
                (DescentState::Handle, WalkAnswer::Handle(None)) => fails_for(
                    n.state,
                    IoError::Refused(Refusal::DirectoryWithoutHandle),
                ),
                (DescentState::Handle, WalkAnswer::Handle(Some(handle))) => if d.visited.contains(
                    handle@,
                ) {
                    n == DescentModel { state: DescentState::Next, ..d }
                } else if d.frame.budget is Some && d.seed.entries.len() >= d.frame.budget->0 {
                    fails_for(n.state, IoError::Refused(Refusal::DirectoryBudget))
                } else {
                    let fid = FidModel { fsid: d.frame.fsid, handle: handle@ };
                    n == DescentModel {
                        visited: d.visited.insert(handle@),
                        seed: SeedModel {
                            entries: d.seed.entries.push(
                                EntryModel { fid, parent: Some(here.fid), name: d.name },
                            ),
                            ..d.seed
                        },
                        entering: LevelModel { fid, path },
                        state: DescentState::List,
                        ..d
                    }
                },
                _ => false,
            }
        }),
{
}

/// What a descent asks for in each of its states.
pub proof fn law_a_descent_asks_in_order(d: DescentModel)
    ensures
        d.ask() == match d.state {
            DescentState::List => WalkAsk::List,
            DescentState::Next => WalkAsk::Next,
            DescentState::Parent => WalkAsk::Parent,
            DescentState::Open => WalkAsk::Open,
            DescentState::Stat => WalkAsk::Stat,
            DescentState::Mount { .. } => WalkAsk::Mount,
            DescentState::Handle => WalkAsk::Handle,
            _ => WalkAsk::Nothing,
        },
{
}

/// Whether a walk descends from here, in the given mount, with what it has found.
pub open spec fn descends(
    w: WalkModel,
    frame: FrameModel,
    start: LevelModel,
    entries: Seq<EntryModel>,
) -> bool {
    w == WalkModel::Descend(
        DescentModel {
            frame,
            stack: Seq::empty(),
            entering: start,
            name: Seq::empty(),
            visited: Set::empty().insert(start.fid.handle),
            seed: SeedModel {
                entries,
                declined: Seq::empty(),
                fence_mnt_id: frame.fence_mnt_id,
            },
            state: DescentState::List,
        },
    )
}

/// A walk makes sure of where it starts. What it opens by a path must be the directory
/// that was meant, and the walk then stays in the mount that the directory is on now. The
/// root's own walk begins with the root among what was found, under the handle that it has
/// now; the walk of a subtree begins with nothing. Of the root, whatever cannot be opened or
/// is another object is the root's absence.
pub proof fn law_a_walk_makes_sure_of_its_start(
    plan: PlanModel,
    stage: Stage,
    answer: WalkAnswer,
)
    requires
        answers(WalkModel::Prepare(plan, stage).ask(), answer),
        stage == Stage::Match ==> !(plan.kind is Pinned),
    ensures
        ({
            let w = WalkModel::Prepare(plan, stage).next(answer);
            let missing = |source: IoError|
                w == WalkModel::Failed(
                    if plan.kind is Subtree {
                        WalkError::Incomplete(source)
                    } else {
                        WalkError::RootGone(source)
                    },
                );
            match (stage, answer) {
                (Stage::Start, WalkAnswer::Opened(Ok(_))) => w == WalkModel::Prepare(
                    plan,
                    if plan.kind is Pinned {
                        Stage::Root
                    } else {
                        Stage::Match
                    },
                ),
                (Stage::Start, WalkAnswer::Opened(Err(e))) => missing(IoError::Os(e)),
                (Stage::Match, WalkAnswer::Handle(handle)) => {
                    let meant = match plan.kind {
                        KindModel::Root(fid) => fid.handle,
                        KindModel::Subtree(fid) => fid.handle,
                        KindModel::Pinned => Seq::empty(),
                    };
                    if handle is Some && handle->0@ == meant {
                        w == WalkModel::Prepare(plan, Stage::Fence)
                    } else {
                        missing(
                            IoError::Refused(
                                if plan.kind is Root {
                                    Refusal::RootReplaced
                                } else {
                                    Refusal::SubtreeReplaced
                                },
                            ),
                        )
                    }
                },
                (Stage::Fence, WalkAnswer::Mount(Err(e))) => w == WalkModel::Failed(
                    WalkError::Incomplete(IoError::Os(e)),
                ),
                (Stage::Fence, WalkAnswer::Mount(Ok((mask, id)))) => {
                    let frame = FrameModel {
                        fence_mnt_id: mount_read(mask, id),
                        ..plan.frame
                    };
                    match plan.kind {
                        KindModel::Subtree(fid) => descends(
                            w,
                            frame,
                            LevelModel { fid, path: plan.path },
                            Seq::empty(),
                        ),
                        _ => w == WalkModel::Prepare(PlanModel { frame, ..plan }, Stage::Root),
                    }
                },
                (Stage::Root, WalkAnswer::Handle(None)) => w == WalkModel::Failed(
                    WalkError::RootGone(IoError::Refused(Refusal::RootWithoutHandle)),
                ),
                (Stage::Root, WalkAnswer::Handle(Some(handle))) => {
                    let fid = FidModel { fsid: plan.frame.fsid, handle: handle@ };
                    if plan.frame.budget == Some(0usize) {
                        w == WalkModel::Failed(
                            WalkError::Incomplete(IoError::Refused(Refusal::DirectoryBudget)),
                        )
                    } else {
                        descends(
                            w,
                            plan.frame,
                            LevelModel { fid, path: plan.path },
                            seq![EntryModel { fid, parent: None, name: plan.path }],
                        )
                    }
                },
                _ => false,
            }
        }),
{
}

/// A walk that descends comes to what its descent comes to.
pub proof fn law_a_walk_comes_to_what_its_descent_found(d: DescentModel, answer: WalkAnswer)
    ensures
        WalkModel::Descend(d).next(answer) == match d.next(answer).state {
            DescentState::Done => WalkModel::Done(d.next(answer).seed),
            DescentState::Failed(e) => WalkModel::Failed(e),
            _ => WalkModel::Descend(d.next(answer)),
        },
        WalkModel::Descend(d).ask() == d.ask(),
{
}

/// What a look at a location makes of what it sees. The parent, the location and the root are
/// opened, and then the location and the root are read, in this order. What is gone, and what
/// is no directory, reveals nothing. A root that is not the one the caller knows makes the
/// look stale. A location in another device or mount than the root is still covered, by what
/// was read there. Otherwise the location is walked in its own mount, first of what was found
/// and under its name in its parent.
pub proof fn law_a_look_follows_what_it_sees(
    plan: RevealPlanModel,
    stage: RevealStage,
    answer: WalkAnswer,
)
    requires
        reveal_answers(RevealModel::Prepare(plan, stage).ask(), answer),
    ensures
        ({
            let w = RevealModel::Prepare(plan, stage).next(answer);
            let on = |next: RevealStage| w == RevealModel::Prepare(plan, next);
            let unseen = |source: IoError|
                w == RevealModel::Failed(WalkError::Incomplete(source));
            let vanishes = |e: Errno|
                w == if says_gone(e) {
                    RevealModel::Done(AdmitModel::Nothing)
                } else {
                    RevealModel::Failed(WalkError::Incomplete(IoError::Os(e)))
                };
            match (stage, answer) {
                (RevealStage::OpenParent, WalkAnswer::Opened(Ok(_))) => on(RevealStage::OpenChild),
                (RevealStage::OpenParent, WalkAnswer::Opened(Err(e))) => vanishes(e),
                (RevealStage::OpenChild, WalkAnswer::Opened(Ok(_))) => on(RevealStage::OpenRoot),
                (RevealStage::OpenChild, WalkAnswer::Opened(Err(e))) => vanishes(e),
                (RevealStage::OpenRoot, WalkAnswer::Opened(Ok(_))) => on(RevealStage::StatChild),
                (RevealStage::OpenRoot, WalkAnswer::Opened(Err(e))) => unseen(IoError::Os(e)),
                (RevealStage::StatChild, WalkAnswer::Stat(Ok((dev, mode)))) => if is_dir_mode(
                    mode,
                ) {
                    on(RevealStage::MountChild { dev })
                } else {
                    w == RevealModel::Done(AdmitModel::Nothing)
                },
                (RevealStage::StatChild, WalkAnswer::Stat(Err(e))) => unseen(IoError::Os(e)),
                (RevealStage::MountChild { dev }, WalkAnswer::Mount(Ok((mask, id)))) => on(
                    RevealStage::StatRoot { dev, mnt_id: mount_read(mask, id) },
                ),
                (RevealStage::MountChild { .. }, WalkAnswer::Mount(Err(e))) => unseen(
                    IoError::Os(e),
                ),
                (RevealStage::StatRoot { dev, mnt_id }, WalkAnswer::Stat(Ok((root_dev, _)))) => on(
                    RevealStage::MountRoot { dev, mnt_id, root_dev },
                ),
                (RevealStage::StatRoot { .. }, WalkAnswer::Stat(Err(e))) => unseen(IoError::Os(e)),
                (RevealStage::MountRoot { .. }, WalkAnswer::Mount(Err(e))) => unseen(
                    IoError::Os(e),
                ),
                (
                    RevealStage::MountRoot { dev, mnt_id, root_dev },
                    WalkAnswer::Mount(Ok((mask, id))),
                ) => {
                    let root_mnt_id = mount_read(mask, id);
                    if plan.known != (ScopeFrame { root_dev: Some(root_dev), root_mnt_id }) {
                        w == RevealModel::Done(AdmitModel::Stale)
                    } else if dev != root_dev || other_mount(root_mnt_id, mnt_id) {
                        w == RevealModel::Done(AdmitModel::StillCovered(Some(dev), mnt_id))
                    } else {
                        on(RevealStage::ParentHandle { mnt_id })
                    }
                },
                (RevealStage::ParentHandle { .. }, WalkAnswer::Handle(None)) => unseen(
                    IoError::Refused(Refusal::RevealedParentWithoutHandle),
                ),
                (RevealStage::ParentHandle { mnt_id }, WalkAnswer::Handle(Some(handle))) => if
                    plan.frame.budget == Some(0usize) {
                    unseen(IoError::Refused(Refusal::AdmissionBudget))
                } else {
                    w == RevealModel::Prepare(
                        RevealPlanModel { parent: handle@, ..plan },
                        RevealStage::ChildHandle { mnt_id },
                    )
                },
                (RevealStage::ChildHandle { .. }, WalkAnswer::Handle(None)) => unseen(
                    IoError::Refused(Refusal::RevealedWithoutHandle),
                ),
                (RevealStage::ChildHandle { mnt_id }, WalkAnswer::Handle(Some(handle))) => {
                    let fid = FidModel { fsid: plan.frame.fsid, handle: handle@ };
                    let parent = FidModel { fsid: plan.frame.fsid, handle: plan.parent };
                    &&& w is Descend
                    &&& w->Descend_0 == parent
                    &&& descends(
                        WalkModel::Descend(w->Descend_1),
                        FrameModel { fence_mnt_id: mnt_id, ..plan.frame },
                        LevelModel { fid, path: plan.location },
                        seq![EntryModel { fid, parent: Some(parent), name: plan.name }],
                    )
                },
                _ => false,
            }
        }),
{
}

/// A look that descends comes to what its descent comes to, in the parent that was read; and a
/// look begins at its location's parent, with the location's own name, where the location has
/// one and is not excluded.
pub proof fn law_a_look_comes_to_what_its_descent_found(
    parent: FidModel,
    d: DescentModel,
    answer: WalkAnswer,
    location: Seq<u8>,
    known: ScopeFrame,
    frame: FrameModel,
)
    ensures
        RevealModel::Descend(parent, d).next(answer) == match d.next(answer).state {
            DescentState::Done => RevealModel::Done(
                AdmitModel::Revealed(parent, d.next(answer).seed),
            ),
            DescentState::Failed(e) => RevealModel::Failed(e),
            _ => RevealModel::Descend(parent, d.next(answer)),
        },
        ({
            let parts = components(location);
            let named = parts.len() > 0 && parts.last() != seq![47u8] && parts.last() != seq![46u8]
                && parts.last() != seq![46u8, 46u8];
            RevealModel::start(location, known, frame) == if named && !is_excluded(
                frame.exclusions,
                location,
            ) {
                RevealModel::Prepare(
                    RevealPlanModel {
                        location,
                        name: parts.last(),
                        known,
                        frame,
                        parent: Seq::empty(),
                    },
                    RevealStage::OpenParent,
                )
            } else {
                RevealModel::Done(AdmitModel::Nothing)
            }
        }),
{
}

/// What a walk and a look ask for ahead of their descents.
pub proof fn law_a_walk_asks_for_its_start_first(
    plan: PlanModel,
    stage: Stage,
    look: RevealPlanModel,
    at: RevealStage,
)
    ensures
        WalkModel::Prepare(plan, stage).ask() == match stage {
            Stage::Start => WalkAsk::Start,
            Stage::Match => WalkAsk::Handle,
            Stage::Fence => WalkAsk::Mount,
            Stage::Root => WalkAsk::Handle,
        },
        RevealModel::Prepare(look, at).ask() == match at {
            RevealStage::OpenParent => RevealAsk::OpenParent,
            RevealStage::OpenChild => RevealAsk::OpenChild,
            RevealStage::OpenRoot => RevealAsk::OpenRoot,
            RevealStage::StatChild => RevealAsk::StatChild,
            RevealStage::MountChild { .. } => RevealAsk::MountChild,
            RevealStage::StatRoot { .. } => RevealAsk::StatRoot,
            RevealStage::MountRoot { .. } => RevealAsk::MountRoot,
            RevealStage::ParentHandle { .. } => RevealAsk::ParentHandle,
            RevealStage::ChildHandle { .. } => RevealAsk::ChildHandle,
        },
{
}

} // verus!
