//! Attribution: from decoded records to events that carry the watches they
//! address, and from those to what is offered to the consumer's queue.

use vstd::prelude::*;

use crate::error::SourceError;
use crate::fanotify::event::{AdmittedEvent, AdmittedModel};
use crate::inotify::decode::{
    DecodeOutcome, Decoded, EventModel, IN_IGNORED, IN_Q_OVERFLOW, RawInotifyEvent,
};
use crate::inotify::table::{
    TableModel, TableOp, WdTable, law_every_operation_keeps_the_invariant,
};
use crate::lane::{Lane, passed};
use crate::watch::WatchId;

verus! {

/// One event on its way to the consumer.
#[derive(Clone, Debug, PartialEq, Eq)]
pub enum RawLinuxEvent {
    /// An inotify record with the watches it addresses.
    Inotify { anchors: Vec<WatchId>, event: RawInotifyEvent },
    /// An admitted fanotify event.
    Fanotify(AdmittedEvent),
}

/// What a `RawLinuxEvent` stands for.
pub enum LinuxModel {
    Inotify(Seq<WatchId>, EventModel),
    Fanotify(AdmittedModel),
}

impl View for RawLinuxEvent {
    type V = LinuxModel;

    open spec fn view(&self) -> LinuxModel {
        match self {
            RawLinuxEvent::Inotify { anchors, event } => LinuxModel::Inotify(anchors@, event@),
            RawLinuxEvent::Fanotify(event) => LinuxModel::Fanotify(event@),
        }
    }
}

impl RawLinuxEvent {
    /// The watches and the record, if this is an inotify event.
    pub fn as_inotify(&self) -> (r: Option<(&[WatchId], &RawInotifyEvent)>)
        ensures
            match self@ {
                LinuxModel::Inotify(anchors, event) => r matches Some((a, e)) && a@ == anchors
                    && e@ == event,
                LinuxModel::Fanotify(_) => r is None,
            },
    {
        match self {
            RawLinuxEvent::Inotify { anchors, event } => Some((anchors.as_slice(), event)),
            RawLinuxEvent::Fanotify(_) => None,
        }
    }

    /// The admitted event, if this is a fanotify event.
    pub fn as_fanotify(&self) -> (r: Option<&AdmittedEvent>)
        ensures
            match self@ {
                LinuxModel::Inotify(_, _) => r is None,
                LinuxModel::Fanotify(event) => r matches Some(e) && e@ == event,
            },
    {
        match self {
            RawLinuxEvent::Inotify { .. } => None,
            RawLinuxEvent::Fanotify(event) => Some(event),
        }
    }
}

/// The events that a list of them holds.
pub open spec fn event_views(list: Seq<RawLinuxEvent>) -> Seq<LinuxModel> {
    list.map_values(|e: RawLinuxEvent| e@)
}

/// One decoded buffer after attribution: the events with their watches, and
/// whether anything was lost.
#[derive(Debug, PartialEq, Eq)]
pub struct AttributedBatch {
    pub events: Vec<RawLinuxEvent>,
    pub lost: bool,
}

/// What attributing a record does to the table: an overflow is a loss, a final
/// marker erases its descriptor's entry, and anything else leaves it alone.
pub open spec fn table_after(t: TableModel, event: EventModel) -> TableModel {
    if event.mask.has(IN_Q_OVERFLOW) {
        t.after_loss()
    } else if event.mask.has(IN_IGNORED) {
        t.ignored(event.wd)
    } else {
        t
    }
}

/// The watches a record addresses: those live on its descriptor as the record
/// comes up, and none for the overflow sentinel.
pub open spec fn addressees(t: TableModel, event: EventModel) -> Seq<WatchId> {
    if event.mask.has(IN_Q_OVERFLOW) {
        Seq::empty()
    } else {
        t.anchors(event.wd)
    }
}

/// The table after attributing the records in order.
pub open spec fn table_after_all(t: TableModel, events: Seq<EventModel>) -> TableModel
    decreases events.len(),
{
    if events.len() == 0 {
        t
    } else {
        table_after(table_after_all(t, events.drop_last()), events.last())
    }
}

/// The records that are somebody's, in order, each with the watches it
/// addresses at its place in the stream.
pub open spec fn attributed(t: TableModel, events: Seq<EventModel>) -> Seq<LinuxModel>
    decreases events.len(),
{
    if events.len() == 0 {
        Seq::empty()
    } else {
        let ahead = attributed(t, events.drop_last());
        let to = addressees(table_after_all(t, events.drop_last()), events.last());
        if to.len() == 0 {
            ahead
        } else {
            ahead.push(LinuxModel::Inotify(to, events.last()))
        }
    }
}

/// Whether an overflow sentinel is among the records.
pub open spec fn overflowed(events: Seq<EventModel>) -> bool {
    exists|i: int| 0 <= i < events.len() && (#[trigger] events[i]).mask.has(IN_Q_OVERFLOW)
}

/// The models of decoded records.
pub open spec fn record_views(events: Seq<RawInotifyEvent>) -> Seq<EventModel> {
    events.map_values(|e: RawInotifyEvent| e@)
}

/// Copies a list of watches.
fn copy_anchors(anchors: &[WatchId]) -> (r: Vec<WatchId>)
    ensures
        r@ == anchors@,
{
    let mut out: Vec<WatchId> = Vec::new();
    let mut i: usize = 0;
    while i < anchors.len()
        invariant
            i <= anchors@.len(),
            out@ =~= anchors@.take(i as int),
        decreases anchors@.len() - i,
    {
        out.push(anchors[i]);
        i = i + 1;
    }
    assert(anchors@.take(i as int) =~= anchors@);
    out
}

/// Resolves each record against the table, in order.
///
/// An overflow sentinel marks the batch lost, erases what is draining, and is
/// not forwarded. A final marker erases its descriptor's entry and goes to the
/// watches that were still live there. Any other record goes to its
/// descriptor's live watches. A record that addresses nobody is skipped without
/// loss.
pub fn attribute_events(decoded: Vec<RawInotifyEvent>, table: &mut WdTable) -> (r: AttributedBatch)
    requires
        old(table).wf(),
    ensures
        final(table).wf(),
        final(table)@ == table_after_all(old(table)@, record_views(decoded@)),
        event_views(r.events@) == attributed(old(table)@, record_views(decoded@)),
        r.lost == overflowed(record_views(decoded@)),
{
    let ghost all = record_views(decoded@);
    let ghost start = table@;
    let mut events: Vec<RawLinuxEvent> = Vec::new();
    let mut lost: bool = false;
    assert(event_views(events@) =~= Seq::empty());
    for event in iter: decoded
        invariant
            all == record_views(iter.seq()),
            table.wf(),
            table@ == table_after_all(start, all.take(iter.index() as int)),
            event_views(events@) == attributed(start, all.take(iter.index() as int)),
            lost == overflowed(all.take(iter.index() as int)),
    {
        let ghost i = iter.index() as int;
        let ghost before = table@;
        let ghost sent = event_views(events@);
        proof {
            assert(all.take(i + 1).drop_last() =~= all.take(i));
            assert(all.take(i + 1).last() == event@);
            assert(all.take(i + 1)[i] == event@);
            assert forall|j: int| 0 <= j < i implies all.take(i + 1)[j] == #[trigger] all.take(
                i,
            )[j] by {}
            assert(overflowed(all.take(i + 1)) <==> overflowed(all.take(i)) || event@.mask.has(
                IN_Q_OVERFLOW,
            )) by {
                if overflowed(all.take(i)) {
                    let j = choose|j: int|
                        0 <= j < all.take(i).len() && (#[trigger] all.take(i)[j]).mask.has(
                            IN_Q_OVERFLOW,
                        );
                    assert(all.take(i + 1)[j].mask.has(IN_Q_OVERFLOW));
                }
                if overflowed(all.take(i + 1)) {
                    let j = choose|j: int|
                        0 <= j < all.take(i + 1).len() && (#[trigger] all.take(
                            i + 1,
                        )[j]).mask.has(IN_Q_OVERFLOW);
                    if j < i {
                        assert(all.take(i)[j].mask.has(IN_Q_OVERFLOW));
                    }
                }
            }
        }
        let anchors: Vec<WatchId>;
        if event.mask.is_overflow() {
            table.on_loss();
            lost = true;
            anchors = Vec::new();
        } else if event.mask.is_ignored() {
            anchors = table.on_ignored(event.wd);
        } else {
            anchors = copy_anchors(table.attribute(event.wd));
        }
        assert(anchors@ =~= addressees(before, event@));
        if !anchors.is_empty() {
            let ghost model = event@;
            let ghost to = anchors@;
            events.push(RawLinuxEvent::Inotify { anchors, event });
            assert(event_views(events@) =~= sent.push(LinuxModel::Inotify(to, model)));
        }
    }
    assert(all.take(all.len() as int) =~= all);
    AttributedBatch { events, lost }
}

/// One message for the consumer's queue.
#[derive(Debug, PartialEq, Eq)]
pub enum SourceMessage {
    /// Events, in order.
    Batch(Vec<RawLinuxEvent>),
    /// Something ahead of this place in the queue was lost.
    Overflow,
    /// Nothing follows.
    Fatal(SourceError),
}

/// What a `SourceMessage` stands for.
pub enum MessageModel {
    Batch(Seq<LinuxModel>),
    Overflow,
    Fatal(SourceError),
}

impl View for SourceMessage {
    type V = MessageModel;

    open spec fn view(&self) -> MessageModel {
        match self {
            SourceMessage::Batch(events) => MessageModel::Batch(event_views(events@)),
            SourceMessage::Overflow => MessageModel::Overflow,
            SourceMessage::Fatal(e) => MessageModel::Fatal(*e),
        }
    }
}

/// What an optional message stands for.
pub open spec fn message_view(message: Option<SourceMessage>) -> Option<MessageModel> {
    match message {
        Some(m) => Some(m@),
        None => None,
    }
}

/// What one attributed buffer offers to the lane. A buffer with a loss in it
/// offers the loss and none of its events, for a lost rename could make the
/// paths of those that trail it stale.
pub open spec fn forwarded(events: Seq<LinuxModel>, lost: bool) -> Option<MessageModel> {
    if lost {
        Some(MessageModel::Overflow)
    } else if events.len() == 0 {
        None
    } else {
        Some(MessageModel::Batch(events))
    }
}

/// Offers an attributed buffer to the lane, and returns the message to put on
/// the queue, if any.
pub fn forward_attributed(
    lane: &mut Lane,
    attributed: AttributedBatch,
    decode_lossy: bool,
) -> (r: Option<SourceMessage>)
    ensures
        (*final(lane), message_view(r)) == passed(
            *old(lane),
            forwarded(event_views(attributed.events@), decode_lossy || attributed.lost),
        ),
{
    if decode_lossy || attributed.lost {
        lane.offer(SourceMessage::Overflow)
    } else if attributed.events.is_empty() {
        None
    } else {
        lane.offer(SourceMessage::Batch(attributed.events))
    }
}

/// The table after one decoded buffer: its records in order, and then, where
/// the decoding lost its tail, a loss.
pub open spec fn table_after_buffer(t: TableModel, buffer: Decoded) -> TableModel {
    if buffer.lossy {
        table_after_all(t, buffer.events).after_loss()
    } else {
        table_after_all(t, buffer.events)
    }
}

/// What one decoded buffer offers to the lane.
pub open spec fn buffer_forwarded(t: TableModel, buffer: Decoded) -> Option<MessageModel> {
    forwarded(attributed(t, buffer.events), buffer.lossy || overflowed(buffer.events))
}

/// Attributes a decoded buffer and offers it to the lane, and returns the
/// message to put on the queue, if any.
pub fn attribute_and_forward(
    lane: &mut Lane,
    table: &mut WdTable,
    decoded: DecodeOutcome,
) -> (r: Option<SourceMessage>)
    requires
        old(table).wf(),
    ensures
        final(table).wf(),
        final(table)@ == table_after_buffer(old(table)@, decoded@),
        (*final(lane), message_view(r)) == passed(
            *old(lane),
            buffer_forwarded(old(table)@, decoded@),
        ),
{
    let lossy = decoded.lossy;
    let attributed = attribute_events(decoded.events, table);
    if lossy {
        table.on_loss();
    }
    forward_attributed(lane, attributed, lossy)
}

proof fn lemma_attribution_keeps_wf(t: TableModel, events: Seq<EventModel>)
    requires
        t.wf(),
    ensures
        table_after_all(t, events).wf(),
    decreases events.len(),
{
    if events.len() > 0 {
        lemma_attribution_keeps_wf(t, events.drop_last());
        let before = table_after_all(t, events.drop_last());
        law_every_operation_keeps_the_invariant(before, TableOp::Loss);
        law_every_operation_keeps_the_invariant(before, TableOp::Ignored(events.last().wd));
    }
}

/// Reading a buffer keeps the table's invariant, whatever the buffer holds.
pub proof fn law_a_buffer_keeps_the_invariant(t: TableModel, buffer: Decoded)
    requires
        t.wf(),
    ensures
        table_after_buffer(t, buffer).wf(),
{
    lemma_attribution_keeps_wf(t, buffer.events);
    law_every_operation_keeps_the_invariant(table_after_all(t, buffer.events), TableOp::Loss);
}

/// No buffer with a loss in it delivers an event: where the decoding lost its
/// tail or an overflow sentinel was read, the loss is all that crosses.
pub proof fn law_a_loss_delivers_no_events(t: TableModel, buffer: Decoded)
    requires
        buffer.lossy || overflowed(buffer.events),
    ensures
        buffer_forwarded(t, buffer) == Some(MessageModel::Overflow),
{
}

/// No buffer leaves a draining entry behind a loss.
pub proof fn law_a_lossy_buffer_leaves_nothing_draining(t: TableModel, buffer: Decoded, wd: i32)
    requires
        buffer.lossy,
    ensures
        !table_after_buffer(t, buffer).is_draining(wd),
{
}

/// Every event that is forwarded addresses somebody, and everybody it
/// addresses was bound to its descriptor when the buffer was read.
pub proof fn law_events_reach_only_their_watches(
    t: TableModel,
    events: Seq<EventModel>,
    i: int,
    a: WatchId,
)
    requires
        t.wf(),
        0 <= i < attributed(t, events).len(),
    ensures
        attributed(t, events)[i] matches LinuxModel::Inotify(to, event) && to.len() > 0 && (
        to.contains(a) ==> t.bound.contains_key(a) && t.bound[a] == event.wd),
    decreases events.len(),
{
    let ahead = attributed(t, events.drop_last());
    if i < ahead.len() {
        law_events_reach_only_their_watches(t, events.drop_last(), i, a);
    } else {
        let before = table_after_all(t, events.drop_last());
        lemma_attribution_keeps_wf(t, events.drop_last());
        lemma_attribution_only_unbinds(t, events.drop_last(), a);
        let to = addressees(before, events.last());
        if to.contains(a) {
            assert(before.attributes(events.last().wd, a));
        }
    }
}

proof fn lemma_attribution_only_unbinds(t: TableModel, events: Seq<EventModel>, a: WatchId)
    ensures
        table_after_all(t, events).bound.contains_key(a) ==> t.bound.contains_key(a)
            && table_after_all(t, events).bound[a] == t.bound[a],
    decreases events.len(),
{
    if events.len() > 0 {
        lemma_attribution_only_unbinds(t, events.drop_last(), a);
    }
}

/// The table as the record at `i` comes up.
pub open spec fn table_at(t: TableModel, events: Seq<EventModel>, i: int) -> TableModel {
    table_after_all(t, events.take(i))
}

/// Whether the record at `i` is somebody's as it comes up: it is no overflow
/// sentinel, and there are live watches on its descriptor.
pub open spec fn is_somebodys(t: TableModel, events: Seq<EventModel>, i: int) -> bool {
    let event = events[i];
    let now = table_at(t, events, i);
    &&& event.mask.0 & 0x4000 == 0
    &&& now.entries.contains_key(event.wd)
    &&& now.entries[event.wd].live.len() > 0
}

/// Whether `out` holds, of the records at `places`, each with the watches that
/// are live on its descriptor as it comes up.
pub open spec fn is_addressed(
    t: TableModel,
    events: Seq<EventModel>,
    places: Seq<int>,
    out: Seq<LinuxModel>,
) -> bool {
    &&& out.len() == places.len()
    &&& forall|j: int|
        0 <= j < places.len() ==> 0 <= #[trigger] places[j] < events.len() && out[j]
            == LinuxModel::Inotify(
            table_at(t, events, places[j]).entries[events[places[j]].wd].live,
            events[places[j]],
        )
}

/// Whether the places are, in order, those of the records that are somebody's.
pub open spec fn are_places_of_somebodys(
    t: TableModel,
    events: Seq<EventModel>,
    places: Seq<int>,
) -> bool {
    &&& forall|j: int, k: int| 0 <= j < k < places.len() ==> places[j] < places[k]
    &&& forall|i: int|
        0 <= i < events.len() ==> (places.contains(i) <==> #[trigger] is_somebodys(t, events, i))
}

/// Nothing is left out and nothing is made up: what is attributed is, in the
/// order of the records, each record that is somebody's as it comes up, whatever
/// its mask says beside, addressed to exactly the watches that are live on its
/// descriptor then.
pub proof fn law_every_record_reaches_its_watches(t: TableModel, events: Seq<EventModel>)
    ensures
        exists|places: Seq<int>| #[trigger]
            are_places_of_somebodys(t, events, places) && is_addressed(
                t,
                events,
                places,
                attributed(t, events),
            ),
{
    let places = lemma_places(t, events);
    assert(are_places_of_somebodys(t, events, places));
}

proof fn lemma_places(t: TableModel, events: Seq<EventModel>) -> (places: Seq<int>)
    ensures
        are_places_of_somebodys(t, events, places),
        is_addressed(t, events, places, attributed(t, events)),
    decreases events.len(),
{
    if events.len() == 0 {
        Seq::empty()
    } else {
        let ahead = events.drop_last();
        let n = ahead.len() as int;
        let before = lemma_places(t, ahead);
        assert(events.take(n) =~= ahead);
        assert forall|i: int| 0 <= i <= n implies #[trigger] events.take(i) =~= ahead.take(i) by {}
        assert forall|i: int| 0 <= i < n implies (is_somebodys(t, events, i) <==> is_somebodys(
            t,
            ahead,
            i,
        )) by {
            assert(events.take(i) =~= ahead.take(i));
        }
        assert forall|j: int| 0 <= j < before.len() implies 0 <= #[trigger] before[j] < n by {}
        if is_somebodys(t, events, n) {
            let places = before.push(n);
            assert forall|i: int| 0 <= i < events.len() implies (places.contains(i)
                <==> #[trigger] is_somebodys(t, events, i)) by {
                if i < n {
                    assert(is_somebodys(t, ahead, i) <==> before.contains(i));
                    if before.contains(i) {
                        let j = choose|j: int| 0 <= j < before.len() && before[j] == i;
                        assert(places[j] == i);
                    }
                    if places.contains(i) {
                        let j = choose|j: int| 0 <= j < places.len() && places[j] == i;
                        assert(before[j] == i);
                    }
                } else {
                    assert(places[before.len() as int] == n);
                }
            }
            assert forall|j: int| 0 <= j < places.len() implies 0 <= #[trigger] places[j]
                < events.len() && attributed(t, events)[j] == LinuxModel::Inotify(
                table_at(t, events, places[j]).entries[events[places[j]].wd].live,
                events[places[j]],
            ) by {
                if j < before.len() {
                    assert(places[j] == before[j]);
                    assert(events.take(before[j]) =~= ahead.take(before[j]));
                }
            }
            places
        } else {
            assert forall|i: int| 0 <= i < events.len() implies (before.contains(i)
                <==> #[trigger] is_somebodys(t, events, i)) by {
                if i < n {
                    assert(is_somebodys(t, ahead, i) <==> before.contains(i));
                }
            }
            assert forall|j: int| 0 <= j < before.len() implies 0 <= #[trigger] before[j]
                < events.len() && attributed(t, events)[j] == LinuxModel::Inotify(
                table_at(t, events, before[j]).entries[events[before[j]].wd].live,
                events[before[j]],
            ) by {
                assert(events.take(before[j]) =~= ahead.take(before[j]));
            }
            before
        }
    }
}

/// A record changes the table only as it must: an overflow sentinel erases what
/// is draining, the final marker of a descriptor unmaps that descriptor and
/// unbinds its watches, and any other record changes nothing.
pub proof fn law_a_record_changes_only_what_it_ends(
    t: TableModel,
    events: Seq<EventModel>,
    event: EventModel,
)
    ensures
        table_after_all(t, Seq::empty()) == t,
        ({
            let before = table_after_all(t, events);
            let after = table_after_all(t, events.push(event));
            if event.mask.0 & 0x4000 != 0 {
                &&& forall|wd: i32| #[trigger]
                    after.entries.contains_key(wd) <==> before.entries.contains_key(wd)
                        && !before.entries[wd].draining
                &&& forall|wd: i32| #[trigger]
                    after.entries.contains_key(wd) ==> after.entries[wd] == before.entries[wd]
                &&& after.bound == before.bound
            } else if event.mask.0 & 0x8000 != 0 {
                &&& after.entries == before.entries.remove(event.wd)
                &&& forall|a: WatchId| #[trigger]
                    after.bound.contains_key(a) <==> before.bound.contains_key(a)
                        && before.bound[a] != event.wd
                &&& forall|a: WatchId| #[trigger]
                    after.bound.contains_key(a) ==> after.bound[a] == before.bound[a]
            } else {
                after == before
            }
        }),
{
    assert(events.push(event).drop_last() =~= events);
}

/// A buffer without a loss in it is delivered whole, and one with a loss tells
/// the loss. Where the tail of a buffer was lost in decoding, what was draining
/// is erased behind its records, and all else stands.
pub proof fn law_a_buffer_is_delivered_whole_or_lost(t: TableModel, buffer: Decoded)
    ensures
        ({
            let lost = buffer.lossy || exists|i: int|
                0 <= i < buffer.events.len() && (#[trigger] buffer.events[i]).mask.0 & 0x4000
                    != 0;
            let events = attributed(t, buffer.events);
            let read = table_after_all(t, buffer.events);
            let after = table_after_buffer(t, buffer);
            &&& lost ==> buffer_forwarded(t, buffer) == Some(MessageModel::Overflow)
            &&& !lost && events.len() > 0 ==> buffer_forwarded(t, buffer) == Some(
                MessageModel::Batch(events),
            )
            &&& !lost && events.len() == 0 ==> buffer_forwarded(t, buffer) is None
            &&& !buffer.lossy ==> after == read
            &&& buffer.lossy ==> after.bound == read.bound
            &&& buffer.lossy ==> forall|wd: i32| #[trigger]
                after.entries.contains_key(wd) <==> read.entries.contains_key(wd)
                    && !read.entries[wd].draining
            &&& buffer.lossy ==> forall|wd: i32| #[trigger]
                after.entries.contains_key(wd) ==> after.entries[wd] == read.entries[wd]
        }),
{
    let events = buffer.events;
    if exists|i: int| 0 <= i < events.len() && (#[trigger] events[i]).mask.0 & 0x4000 != 0 {
        let i = choose|i: int|
            0 <= i < events.len() && (#[trigger] events[i]).mask.0 & 0x4000 != 0;
        assert(events[i].mask.has(IN_Q_OVERFLOW));
    }
    if overflowed(events) {
        let i = choose|i: int|
            0 <= i < events.len() && (#[trigger] events[i]).mask.has(IN_Q_OVERFLOW);
        assert(events[i].mask.0 & 0x4000 != 0);
    }
}

} // verus!
