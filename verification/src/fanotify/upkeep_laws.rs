//! What holds of every intake of a buffer, from its events to what is told, and of
//! every look at a revealed location.

use vstd::prelude::*;

use crate::attribution::{LinuxModel, MessageModel};
use crate::error::{IoError, Refusal, SourceError};
use crate::fanotify::admission::{AdmissionModel, classified};
use crate::fanotify::event::{AdmittedModel, FanEventModel};
use crate::fanotify::fid::{EntryModel, FidModel};
use crate::fanotify::map::{MapModel, NodeModel, lies_in};
use crate::fanotify::revealed::AdmitModel;
use crate::fanotify::tree::{ContextModel, KindModel, PlanModel, Stage, WalkModel};
use crate::fanotify::upkeep::{
    AdmitPlan, AdmitState, Admittance, IntakeModel, IntakeState, Reseed, lemma_next_owed,
    next_owed, owed_by, taken, told_of,
};
use crate::fanotify::verdict_laws::{is_hung_in, lemma_hung};
use crate::fanotify::walk::{FrameModel, SeedModel, WalkError};
use crate::fanotify::wire::FanDecoded;

verus! {

/// The map as the event at `i` comes up.
pub open spec fn map_at(
    map: MapModel,
    exclusions: Seq<Seq<u8>>,
    events: Seq<FanEventModel>,
    i: int,
) -> MapModel
    decreases i,
{
    if i <= 0 {
        map
    } else {
        classified(map_at(map, exclusions, events, i - 1), exclusions, events[i - 1]).1
    }
}

/// What the event at `i` comes to.
#[verifier::opaque]
pub open spec fn admission_at(
    map: MapModel,
    exclusions: Seq<Seq<u8>>,
    events: Seq<FanEventModel>,
    i: int,
) -> AdmissionModel {
    classified(map_at(map, exclusions, events, i), exclusions, events[i]).0
}

/// Whether what an event came to is neither a drop nor a loss.
pub open spec fn is_told(admission: AdmissionModel) -> bool {
    !(admission is ForeignDrop) && !(admission is ExcludedDrop) && !(admission is Lossy)
}

/// Whether this is what is told of an event.
pub open spec fn is_told_as(admission: AdmissionModel, e: AdmittedModel) -> bool {
    ||| admission == AdmissionModel::Forward(e)
    ||| admission == AdmissionModel::LearnDir(e)
    ||| admission == AdmissionModel::ForgetDir(e)
    ||| admission == AdmissionModel::RootDeath(e)
    ||| admission is Rename && admission->Rename_0 == e
}

/// Whether an event of the buffer is a loss, or its decoding was.
pub open spec fn has_loss(map: MapModel, exclusions: Seq<Seq<u8>>, decoded: FanDecoded) -> bool {
    decoded.lossy || exists|i: int|
        0 <= i < decoded.events.len() && #[trigger] admission_at(
            map,
            exclusions,
            decoded.events,
            i,
        ) is Lossy
}

/// Whether the places are, in order, those of the events that are told.
pub open spec fn are_places_of_told(
    map: MapModel,
    exclusions: Seq<Seq<u8>>,
    events: Seq<FanEventModel>,
    places: Seq<int>,
) -> bool {
    &&& forall|j: int, k: int| 0 <= j < k < places.len() ==> places[j] < places[k]
    &&& forall|i: int|
        0 <= i < events.len() ==> (places.contains(i) <==> is_told(
            #[trigger] admission_at(map, exclusions, events, i),
        ))
}

/// Whether `out` is what is told of the events at the places.
pub open spec fn is_told_of(
    map: MapModel,
    exclusions: Seq<Seq<u8>>,
    events: Seq<FanEventModel>,
    places: Seq<int>,
    out: Seq<LinuxModel>,
) -> bool {
    &&& out.len() == places.len()
    &&& forall|j: int|
        0 <= j < places.len() ==> 0 <= #[trigger] places[j] < events.len() && out[j] is Fanotify
            && is_told_as(
            admission_at(map, exclusions, events, places[j]),
            out[j]->Fanotify_0,
        )
}

/// An intake and the map, after the walks that were to be made.
pub open spec fn after_walks(
    intake: IntakeModel,
    context: ContextModel,
    map: MapModel,
    walks: Seq<Result<SeedModel, WalkError>>,
) -> (IntakeModel, MapModel)
    decreases walks.len(),
{
    if walks.len() == 0 {
        (intake, map)
    } else {
        let (next, after) = intake.next(context, map, walks.first());
        after_walks(next, context, after, walks.drop_first())
    }
}

proof fn lemma_same_map_ahead(
    map: MapModel,
    exclusions: Seq<Seq<u8>>,
    events: Seq<FanEventModel>,
    i: int,
)
    requires
        0 <= i < events.len(),
    ensures
        map_at(map, exclusions, events.drop_last(), i) == map_at(map, exclusions, events, i),
    decreases i,
{
    if i > 0 {
        lemma_same_map_ahead(map, exclusions, events, i - 1);
    }
}

proof fn lemma_same_ahead(
    map: MapModel,
    exclusions: Seq<Seq<u8>>,
    events: Seq<FanEventModel>,
)
    ensures
        forall|i: int|
            0 <= i < events.len() - 1 ==> #[trigger] admission_at(
                map,
                exclusions,
                events.drop_last(),
                i,
            ) == admission_at(map, exclusions, events, i),
        forall|i: int|
            0 <= i < events.len() - 1 ==> #[trigger] admission_at(map, exclusions, events, i)
                == admission_at(map, exclusions, events.drop_last(), i),
{
    reveal(admission_at);
    let ahead = events.drop_last();
    assert forall|i: int| 0 <= i < events.len() - 1 implies admission_at(
        map,
        exclusions,
        ahead,
        i,
    ) == #[trigger] admission_at(map, exclusions, events, i) by {
        lemma_same_map_ahead(map, exclusions, events, i);
    }
}

/// What the last event of a buffer adds to what those ahead of it came to.
proof fn lemma_taken_last(map: MapModel, exclusions: Seq<Seq<u8>>, events: Seq<FanEventModel>)
    requires
        events.len() > 0,
        taken(map, exclusions, events.drop_last()).map == map_at(
            map,
            exclusions,
            events.drop_last(),
            events.len() - 1,
        ),
    ensures
        ({
            let all = taken(map, exclusions, events);
            let some = taken(map, exclusions, events.drop_last());
            let last = admission_at(map, exclusions, events, events.len() - 1);
            &&& all.map == map_at(map, exclusions, events, events.len() as int)
            &&& all.lost == (some.lost || last is Lossy)
            &&& all.told == some.told + told_of(last)
            &&& all.owed == some.owed + owed_by(last)
        }),
{
    reveal(admission_at);
    lemma_same_map_ahead(map, exclusions, events, events.len() - 1);
}

proof fn lemma_taken_map(map: MapModel, exclusions: Seq<Seq<u8>>, events: Seq<FanEventModel>)
    ensures
        taken(map, exclusions, events).map == map_at(
            map,
            exclusions,
            events,
            events.len() as int,
        ),
    decreases events.len(),
{
    if events.len() > 0 {
        lemma_taken_map(map, exclusions, events.drop_last());
        lemma_taken_last(map, exclusions, events);
    }
}

proof fn lemma_taken_lost(map: MapModel, exclusions: Seq<Seq<u8>>, events: Seq<FanEventModel>)
    ensures
        taken(map, exclusions, events).lost <==> exists|i: int|
            0 <= i < events.len() && #[trigger] admission_at(map, exclusions, events, i) is Lossy,
    decreases events.len(),
{
    if events.len() > 0 {
        let ahead = events.drop_last();
        let n = ahead.len() as int;
        lemma_taken_lost(map, exclusions, ahead);
        lemma_taken_map(map, exclusions, ahead);
        lemma_taken_last(map, exclusions, events);
        lemma_same_ahead(map, exclusions, events);
        if taken(map, exclusions, ahead).lost {
            let i = choose|i: int|
                0 <= i < n && #[trigger] admission_at(map, exclusions, ahead, i) is Lossy;
            assert(admission_at(map, exclusions, events, i) is Lossy);
        }
        if exists|i: int|
            0 <= i < events.len() && #[trigger] admission_at(
                map,
                exclusions,
                events,
                i,
            ) is Lossy {
            let i = choose|i: int|
                0 <= i < events.len() && #[trigger] admission_at(
                    map,
                    exclusions,
                    events,
                    i,
                ) is Lossy;
            if i < n {
                assert(admission_at(map, exclusions, ahead, i) is Lossy);
            }
        }
    }
}

proof fn lemma_taken_owed(map: MapModel, exclusions: Seq<Seq<u8>>, events: Seq<FanEventModel>)
    ensures
        taken(map, exclusions, events).owed.len() <= events.len(),
        forall|i: int|
            0 <= i < events.len() ==> (#[trigger] admission_at(map, exclusions, events, i)
                matches AdmissionModel::Rename(_, Some(fid)) ==> taken(
                map,
                exclusions,
                events,
            ).owed.contains(fid)),
        forall|j: int|
            0 <= j < taken(map, exclusions, events).owed.len() ==> was_seeded(
                map,
                exclusions,
                events,
                #[trigger] taken(map, exclusions, events).owed[j],
            ),
    decreases events.len(),
{
    if events.len() > 0 {
        let ahead = events.drop_last();
        let n = ahead.len() as int;
        lemma_taken_owed(map, exclusions, ahead);
        lemma_taken_map(map, exclusions, ahead);
        lemma_taken_last(map, exclusions, events);
        lemma_same_ahead(map, exclusions, events);
        let all = taken(map, exclusions, events);
        let some = taken(map, exclusions, ahead);
        assert forall|i: int| 0 <= i < events.len() implies (#[trigger] admission_at(
            map,
            exclusions,
            events,
            i,
        ) matches AdmissionModel::Rename(_, Some(fid)) ==> all.owed.contains(fid)) by {
            if let AdmissionModel::Rename(_, Some(fid)) = admission_at(
                map,
                exclusions,
                events,
                i,
            ) {
                if i < n {
                    assert(admission_at(map, exclusions, ahead, i)
                        matches AdmissionModel::Rename(_, Some(_)));
                    assert(some.owed.contains(fid));
                    let j = choose|j: int| 0 <= j < some.owed.len() && some.owed[j] == fid;
                    assert(all.owed[j] == fid);
                } else {
                    assert(all.owed[some.owed.len() as int] == fid);
                }
            }
        }
        assert forall|j: int| 0 <= j < all.owed.len() implies was_seeded(
            map,
            exclusions,
            events,
            #[trigger] all.owed[j],
        ) by {
            if j < some.owed.len() {
                assert(all.owed[j] == some.owed[j]);
                let i = choose|i: int| #[trigger]
                    is_seeded_at(map, exclusions, ahead, some.owed[j], i);
                assert(is_seeded_at(map, exclusions, events, all.owed[j], i));
            } else {
                assert(is_seeded_at(map, exclusions, events, all.owed[j], n));
            }
        }
    }
}

proof fn lemma_taken_told(
    map: MapModel,
    exclusions: Seq<Seq<u8>>,
    events: Seq<FanEventModel>,
) -> (places: Seq<int>)
    ensures
        are_places_of_told(map, exclusions, events, places),
        is_told_of(map, exclusions, events, places, taken(map, exclusions, events).told),
    decreases events.len(),
{
    if events.len() == 0 {
        Seq::empty()
    } else {
        let ahead = events.drop_last();
        let n = ahead.len() as int;
        let before = lemma_taken_told(map, exclusions, ahead);
        lemma_taken_map(map, exclusions, ahead);
        lemma_taken_last(map, exclusions, events);
        lemma_same_ahead(map, exclusions, events);
        let last = admission_at(map, exclusions, events, n);
        let all = taken(map, exclusions, events);
        let some = taken(map, exclusions, ahead);
        let places = if is_told(last) {
            before.push(n)
        } else {
            before
        };
        assert forall|i: int| 0 <= i < events.len() implies (places.contains(i) <==> is_told(
            #[trigger] admission_at(map, exclusions, events, i),
        )) by {
            if i < n {
                assert(is_told(admission_at(map, exclusions, ahead, i)) <==> before.contains(i));
                if before.contains(i) {
                    let j = choose|j: int| 0 <= j < before.len() && before[j] == i;
                    assert(places[j] == i);
                }
                if places.contains(i) {
                    let j = choose|j: int| 0 <= j < places.len() && places[j] == i;
                    assert(before[j] == i);
                }
            } else {
                if is_told(last) {
                    assert(places[before.len() as int] == n);
                }
                if before.contains(n) {
                    let j = choose|j: int| 0 <= j < before.len() && before[j] == n;
                    assert(before[j] < n);
                }
            }
        }
        assert forall|j: int| 0 <= j < places.len() implies 0 <= #[trigger] places[j]
            < events.len() && all.told[j] is Fanotify && is_told_as(
            admission_at(map, exclusions, events, places[j]),
            all.told[j]->Fanotify_0,
        ) by {
            if j < before.len() {
                assert(places[j] == before[j]);
                assert(all.told[j] == some.told[j]);
            } else {
                assert(places[j] == n);
            }
        }
        places
    }
}

/// Whether the event at `i` has the directory walked.
pub open spec fn is_seeded_at(
    map: MapModel,
    exclusions: Seq<Seq<u8>>,
    events: Seq<FanEventModel>,
    fid: FidModel,
    i: int,
) -> bool {
    0 <= i < events.len() && admission_at(map, exclusions, events, i) is Rename && admission_at(
        map,
        exclusions,
        events,
        i,
    )->Rename_1 == Some(fid)
}

/// Whether an event of the buffer has the directory walked.
pub open spec fn was_seeded(
    map: MapModel,
    exclusions: Seq<Seq<u8>>,
    events: Seq<FanEventModel>,
    fid: FidModel,
) -> bool {
    exists|i: int| #[trigger] is_seeded_at(map, exclusions, events, fid, i)
}

proof fn lemma_walks_tell_nothing(
    intake: IntakeModel,
    context: ContextModel,
    map: MapModel,
    walks: Seq<Result<SeedModel, WalkError>>,
)
    ensures
        after_walks(intake, context, map, walks).0.told == intake.told,
        after_walks(intake, context, map, walks).0.lost == intake.lost,
        after_walks(intake, context, map, walks).0.owed == intake.owed,
    decreases walks.len(),
{
    if walks.len() > 0 {
        let (next, after) = intake.next(context, map, walks.first());
        lemma_walks_tell_nothing(next, context, after, walks.drop_first());
    }
}

/// Nothing is left out and nothing is made up: where the intake of a buffer ends
/// well and nothing was lost, what it offers is, in the order of the buffer, what
/// each event came to as it came up, less the drops; and where there is no such
/// event, nothing. Where anything was lost, it offers the loss and no event. A reader
/// that stops offers its error.
pub proof fn law_an_intake_tells_every_event(
    context: ContextModel,
    map: MapModel,
    decoded: FanDecoded,
    walks: Seq<Result<SeedModel, WalkError>>,
)
    ensures
        ({
            let (intake, taken_in) = IntakeModel::start(context, map, decoded);
            let (end, _) = after_walks(intake, context, taken_in, walks);
            let ex = context.exclusions;
            &&& end.state is Done && has_loss(map, ex, decoded) ==> end.offered() == Some(
                MessageModel::Overflow,
            )
            &&& end.state is Done && !has_loss(map, ex, decoded) ==> exists|places: Seq<int>|
                #[trigger]
                are_places_of_told(map, ex, decoded.events, places) && if places.len() == 0 {
                    end.offered() is None
                } else {
                    &&& end.offered() is Some
                    &&& end.offered()->0 is Batch
                    &&& is_told_of(map, ex, decoded.events, places, end.offered()->0->Batch_0)
                }
            &&& end.state matches IntakeState::Failed(e) ==> end.offered() == Some(
                MessageModel::Fatal(e),
            )
            &&& taken_in == map_at(map, ex, decoded.events, decoded.events.len() as int)
        }),
{
    let (intake, taken_in) = IntakeModel::start(context, map, decoded);
    let places = lemma_taken_told(map, context.exclusions, decoded.events);
    lemma_taken_map(map, context.exclusions, decoded.events);
    lemma_taken_lost(map, context.exclusions, decoded.events);
    lemma_walks_tell_nothing(intake, context, taken_in, walks);
    assert(are_places_of_told(map, context.exclusions, decoded.events, places));
}

/// Whether the directory is in the map with what is beneath it still to be walked.
pub open spec fn awaits_its_walk(map: MapModel, fid: FidModel) -> bool {
    map.holds(fid.handle) && map.nodes[fid.handle].pending
}

proof fn lemma_entries_owe_nothing(map: MapModel, entries: Seq<EntryModel>, fid: FidModel)
    requires
        awaits_its_walk(map.with_entries(entries), fid),
    ensures
        awaits_its_walk(map, fid),
    decreases entries.len(),
{
    if entries.len() > 0 {
        let before = map.with_entries(entries.drop_last());
        assert(awaits_its_walk(before.with_entry(entries.last()), fid));
        assert(awaits_its_walk(before, fid));
        lemma_entries_owe_nothing(map, entries.drop_last(), fid);
    }
}

proof fn lemma_next_is_first(map: MapModel, owed: Seq<FidModel>, at: int, j: int)
    requires
        0 <= at <= j < next_owed(map, owed, at),
        next_owed(map, owed, at) <= owed.len(),
    ensures
        !awaits_its_walk(map, owed[j]),
    decreases owed.len() - at,
{
    if at < j {
        lemma_next_is_first(map, owed, at + 1, j);
    }
}

/// Whether the directories ahead of the one that is to be walked need no walk any
/// more.
spec fn is_dealt_with(intake: IntakeModel, map: MapModel) -> bool {
    match intake.state {
        IntakeState::Subtree { at, .. } => {
            &&& at < intake.owed.len()
            &&& forall|j: int|
                0 <= j < at ==> !awaits_its_walk(map, #[trigger] intake.owed[j])
        },
        IntakeState::Done => intake.lost || forall|j: int|
            0 <= j < intake.owed.len() ==> !awaits_its_walk(map, #[trigger] intake.owed[j]),
        _ => true,
    }
}

proof fn lemma_onward_is_dealt_with(intake: IntakeModel, map: MapModel, at: int)
    requires
        0 <= at <= intake.owed.len() <= usize::MAX,
        forall|j: int| 0 <= j < at ==> !awaits_its_walk(map, #[trigger] intake.owed[j]),
    ensures
        is_dealt_with(intake.onward(map, at), map),
{
    let next = next_owed(map, intake.owed, at);
    lemma_next_owed(map, intake.owed, at);
    assert forall|j: int| 0 <= j < next implies !awaits_its_walk(
        map,
        #[trigger] intake.owed[j],
    ) by {
        if j >= at {
            lemma_next_is_first(map, intake.owed, at, j);
        }
    }
}

proof fn lemma_walks_deal(
    intake: IntakeModel,
    context: ContextModel,
    map: MapModel,
    walks: Seq<Result<SeedModel, WalkError>>,
)
    requires
        intake.owed.len() <= usize::MAX,
        intake.state is Reseed ==> intake.lost,
        is_dealt_with(intake, map),
    ensures
        ({
            let (end, after) = after_walks(intake, context, map, walks);
            is_dealt_with(end, after) && end.owed == intake.owed && end.lost == intake.lost
        }),
    decreases walks.len(),
{
    if walks.len() > 0 {
        let (next, after) = intake.next(context, map, walks.first());
        if let (IntakeState::Subtree { at, .. }, Ok(seed)) = (intake.state, walks.first()) {
            let filled = map.with_entries(seed.entries);
            assert forall|j: int| 0 <= j < at + 1 implies !awaits_its_walk(
                after,
                #[trigger] intake.owed[j],
            ) by {
                if awaits_its_walk(after, intake.owed[j]) {
                    assert(awaits_its_walk(filled, intake.owed[j]));
                    lemma_entries_owe_nothing(map, seed.entries, intake.owed[j]);
                }
            }
            let more = IntakeModel { declined: intake.declined + seed.declined, ..intake };
            lemma_onward_is_dealt_with(more, after, at + 1);
        }
        lemma_walks_deal(next, context, after, walks.drop_first());
    }
}

/// Every directory that moved in is walked: where the intake of a buffer ends well
/// and nothing was lost, none of the directories that its events brought in is in
/// the map with what is beneath it still to be walked.
pub proof fn law_every_arrival_of_a_buffer_is_walked(
    context: ContextModel,
    map: MapModel,
    decoded: FanDecoded,
    walks: Seq<Result<SeedModel, WalkError>>,
    fid: FidModel,
)
    requires
        decoded.events.len() <= usize::MAX,
        !has_loss(map, context.exclusions, decoded),
        was_seeded(map, context.exclusions, decoded.events, fid),
    ensures
        ({
            let (intake, taken_in) = IntakeModel::start(context, map, decoded);
            let (end, after) = after_walks(intake, context, taken_in, walks);
            end.state is Done ==> !awaits_its_walk(after, fid)
        }),
{
    let ex = context.exclusions;
    let (intake, taken_in) = IntakeModel::start(context, map, decoded);
    lemma_taken_owed(map, ex, decoded.events);
    lemma_taken_lost(map, ex, decoded.events);
    lemma_onward_is_dealt_with(
        IntakeModel { state: IntakeState::Done, ..intake },
        taken_in,
        0,
    );
    lemma_walks_deal(intake, context, taken_in, walks);
    let i = choose|i: int| #[trigger] is_seeded_at(map, ex, decoded.events, fid, i);
    assert(admission_at(map, ex, decoded.events, i) matches AdmissionModel::Rename(_, Some(f))
        ==> intake.owed.contains(f));
    let j = choose|j: int| 0 <= j < intake.owed.len() && intake.owed[j] == fid;
    assert(intake.owed[j] == fid);
}

/// Nothing else is walked: whatever an intake has yet to walk, an event of its buffer
/// has brought in.
pub proof fn law_only_arrivals_are_walked(
    context: ContextModel,
    map: MapModel,
    decoded: FanDecoded,
    walks: Seq<Result<SeedModel, WalkError>>,
    j: int,
)
    ensures
        ({
            let (intake, taken_in) = IntakeModel::start(context, map, decoded);
            let (end, _) = after_walks(intake, context, taken_in, walks);
            0 <= j < end.owed.len() ==> was_seeded(
                map,
                context.exclusions,
                decoded.events,
                end.owed[j],
            )
        }),
{
    let (intake, taken_in) = IntakeModel::start(context, map, decoded);
    lemma_taken_owed(map, context.exclusions, decoded.events);
    lemma_walks_tell_nothing(intake, context, taken_in, walks);
}

/// Whether this is a walk, at its beginning, that keeps to the watched root.
pub open spec fn keeps_to_root(
    walk: WalkModel,
    context: ContextModel,
    kind: KindModel,
    path: Seq<u8>,
    fence_mnt_id: Option<u64>,
    budget: Option<usize>,
    decline_budget: usize,
) -> bool {
    walk == WalkModel::Prepare(
        PlanModel {
            kind,
            path,
            frame: FrameModel {
                fsid: context.fsid,
                root_dev: context.root_dev,
                fence_mnt_id,
                exclusions: context.exclusions,
                budget,
                decline_budget,
            },
        },
        Stage::Start,
    )
}

/// The walk that an intake asks for is of a directory that moved in and awaits it, at
/// the path that the map has for it now, with the room that the map has left and with
/// what the walks before it have left of the boundaries that may be told; or, behind
/// a loss, of the whole root, with all of the room.
pub proof fn law_an_intake_asks_for_the_right_walk(
    intake: IntakeModel,
    context: ContextModel,
    map: MapModel,
)
    requires
        intake.wf(map),
        intake.declined.len() <= 65536,
    ensures
        match intake.state {
            IntakeState::Subtree { at, .. } => {
                let fid = intake.owed[at as int];
                let room = match map.capacity {
                    Some(most) => Some(
                        if most < map.nodes.dom().len() {
                            0usize
                        } else {
                            (most - map.nodes.dom().len()) as usize
                        },
                    ),
                    None => None::<usize>,
                };
                &&& awaits_its_walk(map, fid)
                &&& intake.walk(context, map) is Some
                &&& keeps_to_root(
                    intake.walk(context, map)->0,
                    context,
                    KindModel::Subtree(fid),
                    map.path_of(fid.handle)->0,
                    None,
                    room,
                    (65536 - intake.declined.len()) as usize,
                )
            },
            IntakeState::Reseed(_) => {
                &&& intake.lost
                &&& intake.walk(context, map) is Some
                &&& keeps_to_root(
                    intake.walk(context, map)->0,
                    context,
                    KindModel::Root(context.root_fid),
                    context.root,
                    None,
                    context.max_directories,
                    65536,
                )
            },
            _ => intake.walk(context, map) is None,
        },
{
}

/// The map of no directory but what a walk of the root has found.
pub open spec fn is_built_from(map: MapModel, context: ContextModel, seed: SeedModel) -> bool {
    map == MapModel {
        nodes: Map::empty(),
        generation: 0,
        capacity: context.max_directories,
    }.with_entries(seed.entries)
}

/// Whether the map holds more directories than it may.
pub open spec fn is_too_large(map: MapModel) -> bool {
    map.capacity matches Some(most) && map.nodes.dom().len() > most
}

/// What a walk comes to, behind a loss and at a directory that moved in. A walk that
/// fails is to be made once more, and then ends the reader with its error; the map
/// stays. A walk that ends well leaves in the map what it found: behind a loss nothing
/// but that, and otherwise beside what the map held, with the directory walked. What
/// it tells beside is kept. A map that has outgrown its bound ends the reader.
pub proof fn law_a_walk_comes_to_what_it_found(
    intake: IntakeModel,
    context: ContextModel,
    map: MapModel,
    walked: Result<SeedModel, WalkError>,
)
    requires
        intake.wf(map),
    ensures
        ({
            let (next, after) = intake.next(context, map, walked);
            let outgrown = IntakeState::Failed(
                SourceError::ReadFailed { source: IoError::Refused(Refusal::DirectoryBudget) },
            );
            &&& next.told == intake.told && next.lost == intake.lost && next.owed == intake.owed
            &&& match (intake.state, walked) {
                (IntakeState::Subtree { at, .. }, Ok(seed)) => {
                    &&& after == map.with_entries(seed.entries).walked(
                        intake.owed[at as int].handle,
                    )
                    &&& next.declined == intake.declined + seed.declined
                    &&& next.fence_mnt_id == intake.fence_mnt_id
                    &&& is_too_large(after) ==> next.state == outgrown
                    &&& !is_too_large(after) ==> match next.state {
                        IntakeState::Subtree { at: later, retried } => at < later && !retried,
                        IntakeState::Done => true,
                        _ => false,
                    }
                },
                (IntakeState::Reseed(_), Ok(seed)) => {
                    &&& is_built_from(after, context, seed)
                    &&& next.declined == seed.declined
                    &&& next.fence_mnt_id == seed.fence_mnt_id
                    &&& next.state == if is_too_large(after) {
                        outgrown
                    } else {
                        IntakeState::Done
                    }
                },
                (IntakeState::Subtree { retried, .. }, Err(e)) => {
                    &&& after == map
                    &&& next.declined == intake.declined
                    &&& next.state == if retried {
                        IntakeState::Failed(SourceError::ReadFailed { source: failure(e) })
                    } else {
                        IntakeState::Subtree { at: intake.state->at, retried: true }
                    }
                },
                (IntakeState::Reseed(reseed), Err(e)) => {
                    &&& after == map
                    &&& next.declined == intake.declined
                    &&& next.state == if reseed == (Reseed::Walk { retried: true }) {
                        IntakeState::Failed(SourceError::ReadFailed { source: failure(e) })
                    } else {
                        IntakeState::Reseed(Reseed::Walk { retried: true })
                    }
                },
                _ => next == intake && after == map,
            }
        }),
{
    if let (IntakeState::Subtree { at, .. }, Ok(seed)) = (intake.state, walked) {
        let after = map.with_entries(seed.entries).walked(intake.owed[at as int].handle);
        lemma_next_owed(after, intake.owed, at + 1);
    }
}

/// What a walk failed for.
pub open spec fn failure(e: WalkError) -> IoError {
    match e {
        WalkError::RootGone(source) => source,
        WalkError::Incomplete(source) => source,
    }
}

/// What the look at a location comes to is what was seen there. What was revealed is
/// taken in where the map holds the directory that it hangs in, and what the walk
/// tells beside is kept. What still covers the location is told. Where the root is not
/// the one that the caller knows, or a second look failed, the root is to be walked.
pub proof fn law_a_look_comes_to_what_was_seen(
    plan: AdmitPlan,
    map: MapModel,
    looked: Result<AdmitModel, WalkError>,
)
    requires
        plan.state is Look,
    ensures
        ({
            let (next, after) = plan.looked(map, looked);
            let walk_root = AdmitState::Reseed(Reseed::Walk { retried: false });
            &&& next.location == plan.location && next.known == plan.known
            &&& match looked {
                Ok(AdmitModel::Revealed(parent, seed)) => if map.holds(parent.handle) {
                    &&& after == map.with_entries(seed.entries)
                    &&& next.declined == seed.declined
                    &&& next.fence_mnt_id == seed.fence_mnt_id
                    &&& next.state == if is_too_large(after) {
                        AdmitState::Failed(
                            SourceError::ReadFailed {
                                source: IoError::Refused(Refusal::DirectoryBudget),
                            },
                        )
                    } else {
                        AdmitState::Done(Admittance::Admitted)
                    }
                } else {
                    after == map && next.state == AdmitState::Done(Admittance::Nothing)
                },
                Ok(AdmitModel::StillCovered(dev, mnt_id)) => after == map && next.state
                    == AdmitState::Done(Admittance::StillCovered { dev, mnt_id }),
                Ok(AdmitModel::Nothing) => after == map && next.state == AdmitState::Done(
                    Admittance::Nothing,
                ),
                Ok(AdmitModel::Stale) => after == map && next.state == walk_root,
                Err(_) => after == map && next.state == if plan.state->Look_retried {
                    walk_root
                } else {
                    AdmitState::Look { retried: true }
                },
            }
        }),
{
}

/// Where the look at a location has the root walked, the map is built anew from what
/// the walk found, what the walk tells beside is kept, and a loss is offered, for what
/// was told before may be stale. A walk that fails is made once more and then ends the
/// reader with its error. Nothing else that a look comes to is offered.
pub proof fn law_a_look_that_walks_the_root_is_a_loss(
    plan: AdmitPlan,
    context: ContextModel,
    map: MapModel,
    walked: Result<SeedModel, WalkError>,
)
    requires
        plan.wf(),
        plan.state is Reseed,
    ensures
        ({
            let (next, after) = plan.reseeded(context, map, walked);
            &&& match walked {
                Ok(seed) => {
                    &&& is_built_from(after, context, seed)
                    &&& next.declined == seed.declined
                    &&& next.fence_mnt_id == seed.fence_mnt_id
                    &&& next.state == if is_too_large(after) {
                        AdmitState::Failed(
                            SourceError::ReadFailed {
                                source: IoError::Refused(Refusal::DirectoryBudget),
                            },
                        )
                    } else {
                        AdmitState::Done(Admittance::Recovered)
                    }
                },
                Err(e) => {
                    &&& after == map
                    &&& next.state == if plan.state == AdmitState::Reseed(
                        Reseed::Walk { retried: true },
                    ) {
                        AdmitState::Failed(SourceError::ReadFailed { source: failure(e) })
                    } else {
                        AdmitState::Reseed(Reseed::Walk { retried: true })
                    }
                },
            }
        }),
        forall|p: AdmitPlan| #[trigger]
            p.offered() == match p.state {
                AdmitState::Done(Admittance::Recovered) => Some(MessageModel::Overflow),
                AdmitState::Failed(e) => Some(MessageModel::Fatal(e)),
                _ => None,
            },
{
}

/// What a walk found is taken in in its order. A directory is hung at its name in the
/// directory it lies in, where the map holds that one, and needs no walk; where the map holds
/// it already it moves there. The root is taken in by an empty map only.
pub proof fn law_what_was_found_is_taken_in(
    map: MapModel,
    entries: Seq<EntryModel>,
    entry: EntryModel,
)
    requires
        map.with_entries(entries).wf(),
    ensures
        map.with_entries(Seq::empty()) == map,
        ({
            let before = map.with_entries(entries);
            let after = map.with_entries(entries.push(entry));
            let h = entry.fid.handle;
            match entry.parent {
                Some(dir) => if before.holds(dir.handle) && !lies_in(
                    before.nodes,
                    dir.handle,
                    h,
                ) {
                    &&& is_hung_in(before, after, h, dir, entry.name)
                    &&& after.nodes[h].pending == (before.holds(h) && before.nodes[h].pending)
                } else {
                    after == before
                },
                None => if before.nodes.dom().len() == 0 {
                    after.nodes == before.nodes.insert(
                        h,
                        NodeModel { parent: None, name: entry.name, pending: false },
                    )
                } else {
                    after == before
                },
            }
        }),
{
    let before = map.with_entries(entries);
    assert(entries.push(entry).drop_last() =~= entries);
    if let Some(dir) = entry.parent {
        let h = entry.fid.handle;
        if before.holds(dir.handle) && !lies_in(before.nodes, dir.handle, h) {
            lemma_hung(before, h, dir, entry.name, false);
        }
    }
}

/// A directory that was walked needs no walk any more, and nothing else changes.
pub proof fn law_a_walked_directory_needs_no_walk(map: MapModel, h: Seq<u8>, k: Seq<u8>)
    ensures
        ({
            let after = map.walked(h);
            &&& after.holds(k) <==> map.holds(k)
            &&& k != h ==> after.nodes[k] == map.nodes[k]
            &&& map.holds(h) ==> !after.nodes[h].pending && after.nodes[h].parent
                == map.nodes[h].parent && after.nodes[h].name == map.nodes[h].name
            &&& after.capacity == map.capacity
        }),
{
}

} // verus!
