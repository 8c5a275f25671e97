//! The upkeep of the map: what is done with a buffer of events, and with a
//! location that an unmount may have revealed.
//!
//! A directory that moved in is walked once the whole buffer has been taken in,
//! at the path it then has, with the room that the map has left and with what
//! the walks of the buffer have left of their allowance. After a loss the map
//! is built anew from a walk of the whole root. Whatever walk fails is tried
//! once more; a reader that cannot see its root then, or whose map outgrows its
//! bound, is blind and stops.

use vstd::prelude::*;

use crate::attribution::{
    AttributedBatch, LinuxModel, MessageModel, RawLinuxEvent, SourceMessage, event_views,
    forward_attributed, forwarded, message_view,
};
use crate::error::{IoError, Refusal, SourceError};
use crate::fanotify::admission::{Admission, AdmissionModel, MemoBatch, classified, classify};
use crate::fanotify::event::{FanEventModel, RawFanotifyEvent};
use crate::fanotify::fid::{EntryModel, Fid, FidModel};
use crate::fanotify::map::{FidMap, MapModel};
use crate::fanotify::revealed::{AdmitModel, AdmitWalk, RevealModel, RevealWalk};
use crate::fanotify::tree::{ContextModel, ReseedContext, Walk, WalkModel};
use crate::fanotify::walk::{
    BoundaryModel, DeclinedBoundary, MAX_WALK_DECLINES, SeedModel, WalkError, WalkSeed,
};
use crate::fanotify::wire::{FanDecoded, FanOutcome};
use crate::lane::{Lane, passed};
use crate::path::copy_bytes;
use crate::scope::ScopeFrame;

verus! {

/// What the outcome of a walk stands for.
pub open spec fn walked_view(walked: Result<WalkSeed, WalkError>) -> Result<SeedModel, WalkError> {
    match walked {
        Ok(seed) => Ok(seed@),
        Err(e) => Err(e),
    }
}

/// What a list of boundaries stands for.
pub open spec fn boundary_views(list: Seq<DeclinedBoundary>) -> Seq<BoundaryModel> {
    list.map_values(|d: DeclinedBoundary| d@)
}

/// The error of a reader whose walk has failed for good.
pub open spec fn blind(e: WalkError) -> SourceError {
    match e {
        WalkError::RootGone(source) => SourceError::ReadFailed { source },
        WalkError::Incomplete(source) => SourceError::ReadFailed { source },
    }
}

/// The error of a reader whose map has outgrown its bound.
pub open spec fn outgrown() -> SourceError {
    SourceError::ReadFailed { source: IoError::Refused(Refusal::DirectoryBudget) }
}

/// Whether the map holds more directories than it is meant to.
pub open spec fn is_over(map: MapModel) -> bool {
    map.capacity matches Some(most) && map.nodes.dom().len() > most
}

/// How many more directories the map is meant to hold.
pub open spec fn room(map: MapModel) -> Option<usize> {
    match map.capacity {
        Some(most) => Some(
            if map.nodes.dom().len() > most {
                0
            } else {
                (most - map.nodes.dom().len()) as usize
            },
        ),
        None => None,
    }
}

/// How many more directories the map is meant to hold.
pub fn room_left(context: &ReseedContext, map: &FidMap) -> (r: Option<usize>)
    requires
        map.wf(),
        map@.capacity == context@.max_directories,
    ensures
        r == room(map@),
{
    match context.max_directories {
        Some(most) => Some(most.saturating_sub(map.dir_count())),
        None => None,
    }
}

/// The error of a reader whose walk has failed for good.
fn blind_error(e: WalkError) -> (r: SourceError)
    ensures
        r == blind(e),
{
    SourceError::ReadFailed { source: e.into_io() }
}

/// The error of a reader whose map has outgrown its bound.
fn outgrown_error() -> (r: SourceError)
    ensures
        r == outgrown(),
{
    SourceError::ReadFailed { source: IoError::Refused(Refusal::DirectoryBudget) }
}

/// The map built anew from a walk of the root.
pub open spec fn reseeded(context: ContextModel, seed: SeedModel) -> MapModel {
    MapModel {
        nodes: Map::empty(),
        generation: 0,
        capacity: context.max_directories,
    }.with_entries(seed.entries)
}

/// The map being built anew.
#[derive(Clone, Copy, Debug, PartialEq, Eq, Structural)]
pub enum Reseed {
    /// The root is to be walked, for the second time or not.
    Walk { retried: bool },
    /// The map is that of the root as it was walked.
    Done,
    /// The reader cannot see its root.
    Blind(SourceError),
}

impl Reseed {
    /// The reseed and the map after a walk of the root.
    pub open spec fn next(
        self,
        context: ContextModel,
        map: MapModel,
        walked: Result<SeedModel, WalkError>,
    ) -> (Reseed, MapModel) {
        match (self, walked) {
            (Reseed::Walk { .. }, Ok(seed)) => if is_over(reseeded(context, seed)) {
                (Reseed::Blind(outgrown()), reseeded(context, seed))
            } else {
                (Reseed::Done, reseeded(context, seed))
            },
            (Reseed::Walk { retried }, Err(e)) => if retried {
                (Reseed::Blind(blind(e)), map)
            } else {
                (Reseed::Walk { retried: true }, map)
            },
            _ => (self, map),
        }
    }

    /// Takes what a walk of the root came to.
    pub fn step(
        &mut self,
        context: &ReseedContext,
        map: &mut FidMap,
        walked: &Result<WalkSeed, WalkError>,
    )
        requires
            old(map).wf(),
            old(map)@.capacity == context@.max_directories,
        ensures
            final(map).wf(),
            final(map)@.capacity == context@.max_directories,
            (*final(self), final(map)@) == old(self).next(
                context@,
                old(map)@,
                walked_view(*walked),
            ),
    {
        if let Reseed::Walk { retried } = *self {
            match walked {
                Ok(seed) => {
                    let mut fresh = FidMap::with_capacity(context.max_directories);
                    fresh.seed(&seed.entries);
                    proof {
                        lemma_entries_keep_capacity(
                            MapModel {
                                nodes: Map::empty(),
                                generation: 0,
                                capacity: context@.max_directories,
                            },
                            seed@.entries,
                        );
                    }
                    *self = if fresh.over_capacity() {
                        Reseed::Blind(outgrown_error())
                    } else {
                        Reseed::Done
                    };
                    *map = fresh;
                },
                Err(e) => {
                    *self = if retried {
                        Reseed::Blind(blind_error(*e))
                    } else {
                        Reseed::Walk { retried: true }
                    };
                },
            }
        }
    }
}

proof fn lemma_entries_keep_capacity(map: MapModel, entries: Seq<EntryModel>)
    ensures
        map.with_entries(entries).capacity == map.capacity,
        forall|h: Seq<u8>| #[trigger] map.holds(h) ==> map.with_entries(entries).holds(h),
    decreases entries.len(),
{
    if entries.len() > 0 {
        lemma_entries_keep_capacity(map, entries.drop_last());
    }
}

/// What the events of a buffer come to.
#[verifier::ext_equal]
pub struct Taken {
    pub map: MapModel,
    /// What is told of them, in order.
    pub told: Seq<LinuxModel>,
    /// The directories that moved in.
    pub owed: Seq<FidModel>,
    pub lost: bool,
}

/// What is told of an event.
pub open spec fn told_of(admission: AdmissionModel) -> Seq<LinuxModel> {
    match admission {
        AdmissionModel::Forward(e)
        | AdmissionModel::LearnDir(e)
        | AdmissionModel::ForgetDir(e)
        | AdmissionModel::Rename(e, _)
        | AdmissionModel::RootDeath(e) => seq![LinuxModel::Fanotify(e)],
        _ => Seq::empty(),
    }
}

/// The directory that an event moved in, if there is one.
pub open spec fn owed_by(admission: AdmissionModel) -> Seq<FidModel> {
    match admission {
        AdmissionModel::Rename(_, Some(fid)) => seq![fid],
        _ => Seq::empty(),
    }
}

/// What the events come to, taken in order.
pub open spec fn taken(
    map: MapModel,
    exclusions: Seq<Seq<u8>>,
    events: Seq<FanEventModel>,
) -> Taken
    decreases events.len(),
{
    if events.len() == 0 {
        Taken { map, told: Seq::empty(), owed: Seq::empty(), lost: false }
    } else {
        let ahead = taken(map, exclusions, events.drop_last());
        let (admission, after) = classified(ahead.map, exclusions, events.last());
        Taken {
            map: after,
            told: ahead.told + told_of(admission),
            owed: ahead.owed + owed_by(admission),
            lost: ahead.lost || admission is Lossy,
        }
    }
}

/// Whether the directory is in the map with what is beneath it still to be
/// walked.
pub open spec fn is_owed(map: MapModel, fid: FidModel) -> bool {
    map.holds(fid.handle) && map.nodes[fid.handle].pending
}

/// The first of the directories, from `at` on, that is still to be walked.
pub open spec fn next_owed(map: MapModel, owed: Seq<FidModel>, at: int) -> int
    decreases owed.len() - at,
{
    if at >= owed.len() {
        owed.len() as int
    } else if is_owed(map, owed[at]) {
        at
    } else {
        next_owed(map, owed, at + 1)
    }
}

pub(crate) proof fn lemma_next_owed(map: MapModel, owed: Seq<FidModel>, at: int)
    requires
        0 <= at <= owed.len(),
    ensures
        at <= next_owed(map, owed, at) <= owed.len(),
        next_owed(map, owed, at) < owed.len() ==> is_owed(map, owed[next_owed(map, owed, at)]),
    decreases owed.len() - at,
{
    if at < owed.len() && !is_owed(map, owed[at]) {
        lemma_next_owed(map, owed, at + 1);
    }
}

/// How far the intake of a buffer has come.
#[derive(Clone, Copy, Debug, PartialEq, Eq, Structural)]
pub enum IntakeState {
    /// The directory at this place of those that moved in is to be walked, for
    /// the second time or not.
    Subtree { at: usize, retried: bool },
    /// The map is being built anew.
    Reseed(Reseed),
    /// The map is as the buffer left it.
    Done,
    /// The reader stops.
    Failed(SourceError),
}

/// The intake of one buffer under way.
#[derive(Debug)]
pub struct Intake {
    told: Vec<RawLinuxEvent>,
    lost: bool,
    owed: Vec<Fid>,
    /// The boundaries that the walks of this buffer declined to cross.
    declined: Vec<DeclinedBoundary>,
    /// The mount that the walk of the root stayed in, where it is known.
    fence_mnt_id: Option<u64>,
    state: IntakeState,
}

/// What an `Intake` stands for.
#[verifier::ext_equal]
pub struct IntakeModel {
    pub told: Seq<LinuxModel>,
    pub lost: bool,
    pub owed: Seq<FidModel>,
    pub declined: Seq<BoundaryModel>,
    pub fence_mnt_id: Option<u64>,
    pub state: IntakeState,
}

impl View for Intake {
    type V = IntakeModel;

    closed spec fn view(&self) -> IntakeModel {
        IntakeModel {
            told: event_views(self.told@),
            lost: self.lost,
            owed: self.owed@.map_values(|f: Fid| f@),
            declined: boundary_views(self.declined@),
            fence_mnt_id: self.fence_mnt_id,
            state: self.state,
        }
    }
}

impl IntakeModel {
    /// The intake's invariant: a directory that is to be walked is in the map
    /// and has not been, and the map is being built anew exactly after a loss.
    pub open spec fn wf(self, map: MapModel) -> bool {
        &&& self.owed.len() <= usize::MAX
        &&& match self.state {
            IntakeState::Subtree { at, .. } => !self.lost && at < self.owed.len() && is_owed(
                map,
                self.owed[at as int],
            ),
            IntakeState::Reseed(r) => self.lost && r is Walk,
            _ => true,
        }
    }

    /// How many boundaries the walks of this buffer may still report.
    pub open spec fn allowance(self) -> usize {
        if self.declined.len() > MAX_WALK_DECLINES {
            0
        } else {
            (MAX_WALK_DECLINES - self.declined.len()) as usize
        }
    }

    /// The intake in another state.
    pub open spec fn to(self, state: IntakeState) -> IntakeModel {
        IntakeModel { state, ..self }
    }

    /// The intake with the directories ahead of `at` dealt with.
    pub open spec fn onward(self, map: MapModel, at: int) -> IntakeModel {
        let next = next_owed(map, self.owed, at);
        if is_over(map) {
            self.to(IntakeState::Failed(outgrown()))
        } else if next < self.owed.len() {
            self.to(IntakeState::Subtree { at: next as usize, retried: false })
        } else {
            self.to(IntakeState::Done)
        }
    }

    /// The intake of a buffer and the map, once its events have been taken in.
    pub open spec fn start(context: ContextModel, map: MapModel, decoded: FanDecoded) -> (
        IntakeModel,
        MapModel,
    ) {
        let events = taken(map, context.exclusions, decoded.events);
        let intake = IntakeModel {
            told: events.told,
            lost: events.lost || decoded.lossy,
            owed: events.owed,
            declined: Seq::empty(),
            fence_mnt_id: None,
            state: IntakeState::Done,
        };
        (
            if intake.lost {
                intake.to(IntakeState::Reseed(Reseed::Walk { retried: false }))
            } else {
                intake.onward(events.map, 0)
            },
            events.map,
        )
    }

    /// The walk that is to be made, if there is one.
    pub open spec fn walk(self, context: ContextModel, map: MapModel) -> Option<WalkModel> {
        match self.state {
            IntakeState::Subtree { at, .. } => Some(
                context.subtree_walk(
                    map.path_of(self.owed[at as int].handle)->0,
                    self.owed[at as int],
                    room(map),
                    self.allowance(),
                ),
            ),
            IntakeState::Reseed(Reseed::Walk { .. }) => Some(context.root_walk()),
            _ => None,
        }
    }

    /// The intake and the map after the walk that was to be made.
    pub open spec fn next(
        self,
        context: ContextModel,
        map: MapModel,
        walked: Result<SeedModel, WalkError>,
    ) -> (IntakeModel, MapModel) {
        match (self.state, walked) {
            (IntakeState::Subtree { at, .. }, Ok(seed)) => {
                let after = map.with_entries(seed.entries).walked(self.owed[at as int].handle);
                let declined = self.declined + seed.declined;
                (IntakeModel { declined, ..self }.onward(after, at + 1), after)
            },
            (IntakeState::Subtree { at, retried }, Err(e)) => if retried {
                (self.to(IntakeState::Failed(blind(e))), map)
            } else {
                (self.to(IntakeState::Subtree { at, retried: true }), map)
            },
            (IntakeState::Reseed(reseed), _) => {
                let told = match walked {
                    Ok(seed) => IntakeModel {
                        declined: seed.declined,
                        fence_mnt_id: seed.fence_mnt_id,
                        ..self
                    },
                    Err(_) => self,
                };
                match reseed.next(context, map, walked) {
                    (Reseed::Done, after) => (told.to(IntakeState::Done), after),
                    (Reseed::Blind(e), after) => (told.to(IntakeState::Failed(e)), after),
                    (r, after) => (told.to(IntakeState::Reseed(r)), after),
                }
            },
            _ => (self, map),
        }
    }

    /// What the intake offers to the lane once it has ended.
    pub open spec fn offered(self) -> Option<MessageModel> {
        match self.state {
            IntakeState::Done => forwarded(self.told, self.lost),
            IntakeState::Failed(e) => Some(MessageModel::Fatal(e)),
            _ => None,
        }
    }

    /// How many walks are left to be made, at most.
    pub open spec fn walks_left(self) -> int {
        match self.state {
            IntakeState::Subtree { at, retried } => 2 * (self.owed.len() - at) - (if retried {
                1int
            } else {
                0int
            }),
            IntakeState::Reseed(Reseed::Walk { retried }) => if retried {
                1
            } else {
                2
            },
            _ => 0,
        }
    }
}

impl Intake {
    /// The intake's invariant.
    pub open spec fn wf(&self, map: MapModel) -> bool {
        self@.wf(map)
    }

    /// Takes in the events of a buffer.
    pub fn new(context: &ReseedContext, map: &mut FidMap, decoded: FanOutcome) -> (r: Intake)
        requires
            old(map).wf(),
            old(map)@.capacity == context@.max_directories,
        ensures
            final(map).wf(),
            final(map)@.capacity == context@.max_directories,
            r.wf(final(map)@),
            (r@, final(map)@) == IntakeModel::start(context@, old(map)@, decoded@),
    {
        let ghost all = decoded@.events;
        let ghost start = map@;
        let ghost exclusions = context@.exclusions;
        let mut told: Vec<RawLinuxEvent> = Vec::new();
        let mut owed: Vec<Fid> = Vec::new();
        let mut lost: bool = false;
        let mut memo = MemoBatch::new();
        let mut i: usize = 0;
        assert(event_views(told@) =~= Seq::empty());
        assert(owed@.map_values(|f: Fid| f@) =~= Seq::empty());
        while i < decoded.events.len()
            invariant
                i <= decoded.events@.len(),
                all == decoded@.events,
                exclusions == context@.exclusions,
                map.wf(),
                map@.capacity == context@.max_directories,
                memo.wf(),
                memo@.sound(map@),
                taken(start, exclusions, all.take(i as int)) == (Taken {
                    map: map@,
                    told: event_views(told@),
                    owed: owed@.map_values(|f: Fid| f@),
                    lost,
                }),
            decreases decoded.events@.len() - i,
        {
            let ghost before = map@;
            let ghost told_before = event_views(told@);
            let ghost owed_before = owed@.map_values(|f: Fid| f@);
            let event: &RawFanotifyEvent = &decoded.events[i];
            assert(all.take(i + 1).drop_last() =~= all.take(i as int));
            assert(all.take(i + 1).last() == event@);
            let admission = classify(map, event, &mut memo, context.exclusions());
            let ghost model = admission@;
            proof {
                lemma_event_keeps_capacity(before, exclusions, event@);
            }
            match admission {
                Admission::Forward(e)
                | Admission::LearnDir(e)
                | Admission::ForgetDir(e)
                | Admission::RootDeath(e) => {
                    told.push(RawLinuxEvent::Fanotify(e));
                },
                Admission::Rename { event, seed } => {
                    told.push(RawLinuxEvent::Fanotify(event));
                    if let Some(fid) = seed {
                        owed.push(fid);
                    }
                },
                Admission::ForeignDrop | Admission::ExcludedDrop => {},
                Admission::Lossy => {
                    lost = true;
                },
            }
            assert(event_views(told@) =~= told_before + told_of(model));
            assert(owed@.map_values(|f: Fid| f@) =~= owed_before + owed_by(model));
            i = i + 1;
        }
        assert(all.take(i as int) =~= all);
        let mut r = Intake {
            told,
            lost: lost || decoded.lossy,
            owed,
            declined: Vec::new(),
            fence_mnt_id: None,
            state: IntakeState::Done,
        };
        assert(r@.declined =~= Seq::empty());
        assert(r@.owed.len() == r.owed.len());
        if r.lost {
            r.state = IntakeState::Reseed(Reseed::Walk { retried: false });
        } else {
            r.go_on(map, 0);
        }
        r
    }

    /// How far the intake has come.
    pub fn state(&self) -> (r: IntakeState)
        ensures
            r == self@.state,
    {
        self.state
    }

    /// The boundaries that the walks of this buffer declined to cross.
    pub fn declined(&self) -> (r: &Vec<DeclinedBoundary>)
        ensures
            boundary_views(r@) == self@.declined,
    {
        &self.declined
    }

    /// The mount that the walk of the root stayed in, where the map was built
    /// anew and the mount is known.
    pub fn fence_mnt_id(&self) -> (r: Option<u64>)
        ensures
            r == self@.fence_mnt_id,
    {
        self.fence_mnt_id
    }

    /// Goes on with the directories from `at` on.
    fn go_on(&mut self, map: &FidMap, at: usize)
        requires
            map.wf(),
            !old(self)@.lost,
            at <= old(self)@.owed.len(),
        ensures
            final(self).wf(map@),
            final(self)@ == old(self)@.onward(map@, at as int),
    {
        assert(self@.owed.len() == self.owed.len());
        if map.over_capacity() {
            self.state = IntakeState::Failed(outgrown_error());
            return ;
        }
        let mut i: usize = at;
        let ghost owed = self@.owed;
        while i < self.owed.len()
            invariant
                at <= i <= self.owed@.len(),
                map.wf(),
                *self == *old(self),
                owed == self@.owed,
                !self@.lost,
                !is_over(map@),
                next_owed(map@, owed, at as int) == next_owed(map@, owed, i as int),
            decreases self.owed@.len() - i,
        {
            assert(owed[i as int] == self.owed@[i as int]@);
            if let Some((_, true)) = map.pending_walk_target(&self.owed[i]) {
                self.state = IntakeState::Subtree { at: i, retried: false };
                return ;
            }
            i = i + 1;
        }
        self.state = IntakeState::Done;
    }

    /// The walk that is to be made, if there is one.
    pub fn walk(&self, context: &ReseedContext, map: &FidMap) -> (r: Option<Walk>)
        requires
            map.wf(),
            map@.capacity == context@.max_directories,
            self.wf(map@),
        ensures
            match r {
                Some(w) => w.wf() && self@.walk(context@, map@) == Some(w@),
                None => self@.walk(context@, map@) is None,
            },
    {
        match self.state {
            IntakeState::Subtree { at, .. } => {
                let fid = &self.owed[at];
                assert(self@.owed[at as int] == fid@);
                match map.resolve_path(fid) {
                    Some(path) => Some(
                        context.walk_subtree(
                            path.as_slice(),
                            fid,
                            room_left(context, map),
                            MAX_WALK_DECLINES.saturating_sub(self.declined.len()),
                        ),
                    ),
                    None => None,
                }
            },
            IntakeState::Reseed(Reseed::Walk { .. }) => Some(context.walk()),
            _ => None,
        }
    }

    /// Takes what the walk that was to be made came to.
    pub fn step(
        &mut self,
        context: &ReseedContext,
        map: &mut FidMap,
        walked: Result<WalkSeed, WalkError>,
    )
        requires
            old(map).wf(),
            old(map)@.capacity == context@.max_directories,
            old(self).wf(old(map)@),
        ensures
            final(map).wf(),
            final(map)@.capacity == context@.max_directories,
            final(self).wf(final(map)@),
            (final(self)@, final(map)@) == old(self)@.next(
                context@,
                old(map)@,
                walked_view(walked),
            ),
    {
        match self.state {
            IntakeState::Subtree { at, retried } => match walked {
                Ok(seed) => {
                    assert(self@.owed[at as int] == self.owed@[at as int]@);
                    assert(at < self.owed.len());
                    proof {
                        lemma_entries_keep_capacity(map@, seed@.entries);
                    }
                    map.seed(&seed.entries);
                    map.on_walked(self.owed[at].handle());
                    let ghost before = boundary_views(self.declined@);
                    let mut more = seed.declined;
                    let ghost added = boundary_views(more@);
                    self.declined.append(&mut more);
                    assert(boundary_views(self.declined@) =~= before + added);
                    self.go_on(map, at + 1);
                },
                Err(e) => {
                    self.state = if retried {
                        IntakeState::Failed(blind_error(e))
                    } else {
                        IntakeState::Subtree { at, retried: true }
                    };
                },
            },
            IntakeState::Reseed(reseed) => {
                let mut reseed = reseed;
                reseed.step(context, map, &walked);
                self.state = match reseed {
                    Reseed::Done => IntakeState::Done,
                    Reseed::Blind(e) => IntakeState::Failed(e),
                    r => IntakeState::Reseed(r),
                };
                if let Ok(seed) = walked {
                    self.declined = seed.declined;
                    self.fence_mnt_id = seed.fence_mnt_id;
                }
            },
            _ => {},
        }
    }

    /// Offers to the lane what the intake came to, and returns the message to
    /// put on the queue, if any.
    pub fn finish(self, lane: &mut Lane) -> (r: Option<SourceMessage>)
        ensures
            (*final(lane), message_view(r)) == passed(*old(lane), self@.offered()),
    {
        match self.state {
            IntakeState::Done => forward_attributed(
                lane,
                AttributedBatch { events: self.told, lost: self.lost },
                false,
            ),
            IntakeState::Failed(e) => lane.offer(SourceMessage::Fatal(e)),
            _ => None,
        }
    }
}

proof fn lemma_event_keeps_capacity(
    map: MapModel,
    exclusions: Seq<Seq<u8>>,
    event: FanEventModel,
)
    ensures
        classified(map, exclusions, event).1.capacity == map.capacity,
{
}

/// What the look at a revealed location came to.
#[derive(Clone, Copy, Debug, PartialEq, Eq, Structural)]
pub enum Admittance {
    /// The location's directories are in the map.
    Admitted,
    /// Something covers the location.
    StillCovered { dev: Option<u64>, mnt_id: Option<u64> },
    /// There was nothing to admit.
    Nothing,
    /// The map was built anew instead.
    Recovered,
}

/// How far the admission of a location has come.
#[derive(Clone, Copy, Debug, PartialEq, Eq, Structural)]
pub enum AdmitState {
    /// The location is to be walked, for the second time or not.
    Look { retried: bool },
    /// The map is being built anew.
    Reseed(Reseed),
    Done(Admittance),
    /// The reader stops.
    Failed(SourceError),
}

/// The admission of one location under way.
#[derive(Debug)]
pub struct Admit {
    location: Vec<u8>,
    known: ScopeFrame,
    /// The boundaries that the walk declined to cross.
    declined: Vec<DeclinedBoundary>,
    /// The mount that the walk stayed in, where it is known.
    fence_mnt_id: Option<u64>,
    state: AdmitState,
}

/// What an `Admit` stands for.
#[verifier::ext_equal]
pub struct AdmitPlan {
    pub location: Seq<u8>,
    pub known: ScopeFrame,
    pub declined: Seq<BoundaryModel>,
    pub fence_mnt_id: Option<u64>,
    pub state: AdmitState,
}

impl View for Admit {
    type V = AdmitPlan;

    closed spec fn view(&self) -> AdmitPlan {
        AdmitPlan {
            location: self.location@,
            known: self.known,
            declined: boundary_views(self.declined@),
            fence_mnt_id: self.fence_mnt_id,
            state: self.state,
        }
    }
}

/// What the outcome of a walk of the location stands for.
pub open spec fn looked_view(looked: Result<AdmitWalk, WalkError>) -> Result<
    AdmitModel,
    WalkError,
> {
    match looked {
        Ok(walk) => Ok(walk@),
        Err(e) => Err(e),
    }
}

impl AdmitPlan {
    /// While the map is being built anew, the root is to be walked.
    pub open spec fn wf(self) -> bool {
        self.state matches AdmitState::Reseed(r) ==> r is Walk
    }

    /// The admission in another state.
    pub open spec fn to(self, state: AdmitState) -> AdmitPlan {
        AdmitPlan { state, ..self }
    }

    /// The admission with what a walk tells beside its directories.
    pub open spec fn telling(self, seed: SeedModel) -> AdmitPlan {
        AdmitPlan { declined: seed.declined, fence_mnt_id: seed.fence_mnt_id, ..self }
    }

    /// The admission once the map is to be built anew.
    pub open spec fn recovering(self) -> AdmitPlan {
        self.to(AdmitState::Reseed(Reseed::Walk { retried: false }))
    }

    /// The admission and the map after a walk of the location. What it found is
    /// taken in only if the map holds the directory it hangs in. Where the root
    /// is not the one that the caller knows, or the location could not be seen
    /// at the second look either, the map is built anew.
    pub open spec fn looked(self, map: MapModel, looked: Result<AdmitModel, WalkError>) -> (
        AdmitPlan,
        MapModel,
    ) {
        match (self.state, looked) {
            (AdmitState::Look { .. }, Ok(AdmitModel::Revealed(parent, seed))) => if map.holds(
                parent.handle,
            ) {
                let after = map.with_entries(seed.entries);
                if is_over(after) {
                    (self.telling(seed).to(AdmitState::Failed(outgrown())), after)
                } else {
                    (self.telling(seed).to(AdmitState::Done(Admittance::Admitted)), after)
                }
            } else {
                (self.to(AdmitState::Done(Admittance::Nothing)), map)
            },
            (AdmitState::Look { .. }, Ok(AdmitModel::StillCovered(dev, mnt_id))) => (
                self.to(AdmitState::Done(Admittance::StillCovered { dev, mnt_id })),
                map,
            ),
            (AdmitState::Look { .. }, Ok(AdmitModel::Nothing)) => (
                self.to(AdmitState::Done(Admittance::Nothing)),
                map,
            ),
            (AdmitState::Look { .. }, Ok(AdmitModel::Stale)) => (self.recovering(), map),
            (AdmitState::Look { retried }, Err(_)) => if retried {
                (self.recovering(), map)
            } else {
                (self.to(AdmitState::Look { retried: true }), map)
            },
            _ => (self, map),
        }
    }

    /// The admission and the map after a walk of the root.
    pub open spec fn reseeded(
        self,
        context: ContextModel,
        map: MapModel,
        walked: Result<SeedModel, WalkError>,
    ) -> (AdmitPlan, MapModel) {
        let told = match walked {
            Ok(seed) => self.telling(seed),
            Err(_) => self,
        };
        match self.state {
            AdmitState::Reseed(reseed) => match reseed.next(context, map, walked) {
                (Reseed::Done, after) => (
                    told.to(AdmitState::Done(Admittance::Recovered)),
                    after,
                ),
                (Reseed::Blind(e), after) => (told.to(AdmitState::Failed(e)), after),
                (r, after) => (told.to(AdmitState::Reseed(r)), after),
            },
            _ => (self, map),
        }
    }

    /// What the admission offers to the lane once it has ended: where the map
    /// was built anew, a loss.
    pub open spec fn offered(self) -> Option<MessageModel> {
        match self.state {
            AdmitState::Done(Admittance::Recovered) => Some(MessageModel::Overflow),
            AdmitState::Failed(e) => Some(MessageModel::Fatal(e)),
            _ => None,
        }
    }

    /// How many walks are left to be made, at most.
    pub open spec fn walks_left(self) -> int {
        match self.state {
            AdmitState::Look { retried } => if retried {
                3
            } else {
                4
            },
            AdmitState::Reseed(Reseed::Walk { retried }) => if retried {
                1
            } else {
                2
            },
            _ => 0,
        }
    }
}

impl Admit {
    /// The admission of `location`, asked for by a caller that knows the root
    /// as `known`.
    pub fn new(location: &[u8], known: ScopeFrame) -> (r: Admit)
        ensures
            r@ == (AdmitPlan {
                location: location@,
                known,
                declined: Seq::empty(),
                fence_mnt_id: None,
                state: AdmitState::Look { retried: false },
            }),
    {
        let r = Admit {
            location: copy_bytes(location),
            known,
            declined: Vec::new(),
            fence_mnt_id: None,
            state: AdmitState::Look { retried: false },
        };
        assert(r@.declined =~= Seq::empty());
        r
    }

    /// The boundaries that the walk declined to cross.
    pub fn declined(&self) -> (r: &Vec<DeclinedBoundary>)
        ensures
            boundary_views(r@) == self@.declined,
    {
        &self.declined
    }

    /// The mount that the walk stayed in, where it is known.
    pub fn fence_mnt_id(&self) -> (r: Option<u64>)
        ensures
            r == self@.fence_mnt_id,
    {
        self.fence_mnt_id
    }

    /// How far the admission has come.
    pub fn state(&self) -> (r: AdmitState)
        ensures
            r == self@.state,
    {
        self.state
    }

    /// The walk of the location that is to be made, if there is one.
    pub fn look(&self, context: &ReseedContext, map: &FidMap) -> (r: Option<RevealWalk>)
        requires
            map.wf(),
            map@.capacity == context@.max_directories,
        ensures
            match r {
                Some(w) => {
                    &&& self@.state is Look
                    &&& w.wf()
                    &&& w@ == RevealModel::start(
                        self@.location,
                        self@.known,
                        context@.frame(None, room(map@), MAX_WALK_DECLINES),
                    )
                },
                None => !(self@.state is Look),
            },
    {
        match self.state {
            AdmitState::Look { .. } => Some(
                context.walk_revealed(
                    self.location.as_slice(),
                    self.known,
                    room_left(context, map),
                ),
            ),
            _ => None,
        }
    }

    /// The walk of the root that is to be made, if there is one.
    pub fn walk(&self, context: &ReseedContext) -> (r: Option<Walk>)
        requires
            self@.wf(),
        ensures
            match r {
                Some(w) => self@.state is Reseed && w.wf() && w@ == context@.root_walk(),
                None => !(self@.state is Reseed),
            },
    {
        match self.state {
            AdmitState::Reseed(_) => Some(context.walk()),
            _ => None,
        }
    }

    /// Takes what the walk of the location came to.
    pub fn on_looked(&mut self, map: &mut FidMap, looked: Result<AdmitWalk, WalkError>)
        requires
            old(map).wf(),
            old(self)@.wf(),
        ensures
            final(map).wf(),
            final(map)@.capacity == old(map)@.capacity,
            final(self)@.wf(),
            (final(self)@, final(map)@) == old(self)@.looked(old(map)@, looked_view(looked)),
    {
        let retried = match self.state {
            AdmitState::Look { retried } => retried,
            _ => {
                return ;
            },
        };
        let recover = AdmitState::Reseed(Reseed::Walk { retried: false });
        self.state = match looked {
            Ok(AdmitWalk::Revealed { parent, seed }) => {
                if map.contains(&parent) {
                    proof {
                        lemma_entries_keep_capacity(map@, seed@.entries);
                    }
                    map.seed(&seed.entries);
                    self.declined = seed.declined;
                    self.fence_mnt_id = seed.fence_mnt_id;
                    if map.over_capacity() {
                        AdmitState::Failed(outgrown_error())
                    } else {
                        AdmitState::Done(Admittance::Admitted)
                    }
                } else {
                    AdmitState::Done(Admittance::Nothing)
                }
            },
            Ok(AdmitWalk::StillCovered { dev, mnt_id }) => AdmitState::Done(
                Admittance::StillCovered { dev, mnt_id },
            ),
            Ok(AdmitWalk::Nothing) => AdmitState::Done(Admittance::Nothing),
            Ok(AdmitWalk::Stale) => recover,
            Err(_) => if retried {
                recover
            } else {
                AdmitState::Look { retried: true }
            },
        };
    }

    /// Takes what the walk of the root came to.
    pub fn on_walked(
        &mut self,
        context: &ReseedContext,
        map: &mut FidMap,
        walked: Result<WalkSeed, WalkError>,
    )
        requires
            old(map).wf(),
            old(map)@.capacity == context@.max_directories,
            old(self)@.wf(),
        ensures
            final(map).wf(),
            final(map)@.capacity == context@.max_directories,
            final(self)@.wf(),
            (final(self)@, final(map)@) == old(self)@.reseeded(
                context@,
                old(map)@,
                walked_view(walked),
            ),
    {
        if let AdmitState::Reseed(reseed) = self.state {
            let mut reseed = reseed;
            reseed.step(context, map, &walked);
            if let Ok(seed) = walked {
                self.declined = seed.declined;
                self.fence_mnt_id = seed.fence_mnt_id;
            }
            self.state = match reseed {
                Reseed::Done => AdmitState::Done(Admittance::Recovered),
                Reseed::Blind(e) => AdmitState::Failed(e),
                r => AdmitState::Reseed(r),
            };
        }
    }

    /// Offers to the lane what the admission came to, and returns the message
    /// to put on the queue, if any.
    pub fn finish(&self, lane: &mut Lane) -> (r: Option<SourceMessage>)
        ensures
            (*final(lane), message_view(r)) == passed(*old(lane), self@.offered()),
    {
        match self.state {
            AdmitState::Done(Admittance::Recovered) => lane.offer(SourceMessage::Overflow),
            AdmitState::Failed(e) => lane.offer(SourceMessage::Fatal(e)),
            _ => None,
        }
    }
}

/// An intake ends: every walk leaves fewer to be made, two at most for each
/// directory that moved in, or two for the root.
pub proof fn law_an_intake_ends(
    intake: IntakeModel,
    context: ContextModel,
    map: MapModel,
    walked: Result<SeedModel, WalkError>,
)
    requires
        intake.wf(map),
        intake.walk(context, map) is Some,
    ensures
        0 <= intake.next(context, map, walked).0.walks_left() < intake.walks_left(),
        intake.walks_left() <= if intake.lost {
            2
        } else {
            2 * intake.owed.len()
        },
{
    if let (IntakeState::Subtree { at, .. }, Ok(seed)) = (intake.state, walked) {
        let after = map.with_entries(seed.entries).walked(intake.owed[at as int].handle);
        lemma_next_owed(after, intake.owed, at + 1);
    }
}

/// The reader is not stopped by one failed walk: it stops after a second
/// failure of the same walk, or because its map has outgrown its bound.
pub proof fn law_a_failed_walk_is_made_again(
    intake: IntakeModel,
    context: ContextModel,
    map: MapModel,
    walked: Result<SeedModel, WalkError>,
)
    requires
        intake.wf(map),
        !(intake.state is Failed),
        intake.next(context, map, walked).0.state is Failed,
    ensures
        match walked {
            Err(e) => {
                &&& intake.state matches IntakeState::Subtree { retried, .. } ==> retried
                &&& intake.state matches IntakeState::Reseed(r) ==> r == (Reseed::Walk {
                    retried: true,
                })
                &&& intake.next(context, map, walked).0.state == IntakeState::Failed(blind(e))
                &&& intake.next(context, map, walked).1 == map
            },
            Ok(_) => is_over(intake.next(context, map, walked).1),
        },
{
}

/// A loss begins a walk of the whole root: where the decoding of a buffer lost
/// its tail, or one of its events could not be told apart, that is the walk to
/// be made.
pub proof fn law_a_loss_begins_a_walk_of_the_root(
    context: ContextModel,
    map: MapModel,
    decoded: FanDecoded,
)
    requires
        decoded.lossy || taken(map, context.exclusions, decoded.events).lost,
    ensures
        ({
            let (intake, after) = IntakeModel::start(context, map, decoded);
            intake.lost && intake.walk(context, after) == Some(context.root_walk())
        }),
{
}

/// An intake with a loss in it ends well only with the map that a walk of the
/// whole root has built, and then holds what that walk tells beside its
/// directories, and offers the loss and none of its events.
pub proof fn law_a_loss_rebuilds_the_map(
    intake: IntakeModel,
    context: ContextModel,
    map: MapModel,
    walked: Result<SeedModel, WalkError>,
)
    requires
        intake.wf(map),
        intake.lost,
        !(intake.state is Done),
    ensures
        intake.next(context, map, walked).0.state is Done ==> {
            &&& walked matches Ok(seed)
            &&& intake.next(context, map, walked).1 == reseeded(context, seed)
            &&& intake.next(context, map, walked).0.declined == seed.declined
            &&& intake.next(context, map, walked).0.fence_mnt_id == seed.fence_mnt_id
            &&& intake.next(context, map, walked).0.offered() == Some(MessageModel::Overflow)
        },
{
}

proof fn lemma_entries_count(map: MapModel, entries: Seq<EntryModel>)
    requires
        map.nodes.dom().finite(),
    ensures
        map.with_entries(entries).nodes.dom().finite(),
        map.with_entries(entries).nodes.dom().len() <= map.nodes.dom().len() + entries.len(),
    decreases entries.len(),
{
    if entries.len() > 0 {
        lemma_entries_count(map, entries.drop_last());
        let before = map.with_entries(entries.drop_last());
        let after = before.with_entry(entries.last());
        let h = entries.last().fid.handle;
        assert(after.nodes.dom() =~= before.nodes.dom() || after.nodes.dom()
            =~= before.nodes.dom().insert(h));
    }
}

/// Walks that keep to the bounds they are given never overfill the map, and
/// between them report no more boundaries than one report may hold: what one
/// walk reports is taken from what the next one may.
pub proof fn law_walks_share_the_room(
    intake: IntakeModel,
    context: ContextModel,
    map: MapModel,
    seed: SeedModel,
)
    requires
        map.nodes.dom().finite(),
        !is_over(map),
        intake.wf(map),
        intake.state is Subtree,
        room(map) is Some ==> seed.entries.len() <= room(map)->0,
        seed.declined.len() <= intake.allowance(),
    ensures
        !is_over(intake.next(context, map, Ok(seed)).1),
        intake.next(context, map, Ok(seed)).0.allowance() + seed.declined.len()
            == intake.allowance(),
        intake.next(context, map, Ok(seed)).0.declined == intake.declined + seed.declined,
{
    lemma_entries_count(map, seed.entries);
    lemma_entries_keep_capacity(map, seed.entries);
    let taken_in = map.with_entries(seed.entries);
    let h = intake.owed[intake.state->at as int].handle;
    assert(taken_in.walked(h).nodes.dom() =~= taken_in.nodes.dom());
}

/// Nothing is taken in where the map does not reach: what a location was found
/// to hold leaves the map as it is unless the map holds the directory that the
/// location hangs in.
pub proof fn law_nothing_is_admitted_beside_the_map(
    plan: AdmitPlan,
    map: MapModel,
    parent: FidModel,
    seed: SeedModel,
)
    requires
        !map.holds(parent.handle),
    ensures
        plan.looked(map, Ok(AdmitModel::Revealed(parent, seed))).1 == map,
{
}

/// The admission of a location ends after four walks at most.
pub proof fn law_an_admission_ends(
    plan: AdmitPlan,
    context: ContextModel,
    map: MapModel,
    looked: Result<AdmitModel, WalkError>,
    walked: Result<SeedModel, WalkError>,
)
    requires
        plan.wf(),
    ensures
        plan.walks_left() <= 4,
        plan.state is Look ==> 0 <= plan.looked(map, looked).0.walks_left()
            < plan.walks_left(),
        plan.state is Reseed ==> 0 <= plan.reseeded(context, map, walked).0.walks_left()
            < plan.walks_left(),
{
}

} // verus!
