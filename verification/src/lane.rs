//! The lane: what of the messages that are offered is put on the queue.
//!
//! A loss tells the consumer to look at everything again. While one is still
//! waiting at the end of the queue, another one says nothing more, so it is
//! folded into the first. Only so many batches may wait; one that there is no
//! room for is dropped, and a loss stands for it. A fatal error is put on the
//! queue once.

use vstd::prelude::*;

use crate::attribution::{LinuxModel, MessageModel, SourceMessage, message_view};

verus! {

/// What is known of the queue.
#[derive(Clone, Copy, Debug, PartialEq, Eq, Structural)]
pub struct Lane {
    /// Whether the last message that waits on the queue is a loss.
    pub loss_at_tail: bool,
    /// Whether a fatal error has been put on the queue.
    pub fatal_sent: bool,
    /// How many batches wait on the queue.
    pub waiting: usize,
    /// How many batches may wait there.
    pub capacity: usize,
}

/// An optional message as a sequence.
pub open spec fn one_of(message: Option<MessageModel>) -> Seq<MessageModel> {
    match message {
        Some(m) => seq![m],
        None => Seq::empty(),
    }
}

/// The lane after a loss was offered, and what is put on the queue.
pub open spec fn loss_laned(lane: Lane) -> (Lane, Option<MessageModel>) {
    (
        Lane { loss_at_tail: true, ..lane },
        if lane.loss_at_tail {
            None
        } else {
            Some(MessageModel::Overflow)
        },
    )
}

/// The lane after a message was offered, and what is put on the queue.
pub open spec fn laned(lane: Lane, message: MessageModel) -> (Lane, Option<MessageModel>) {
    match message {
        MessageModel::Overflow => loss_laned(lane),
        MessageModel::Batch(_) => if lane.waiting >= lane.capacity {
            loss_laned(lane)
        } else {
            (
                Lane { loss_at_tail: false, waiting: (lane.waiting + 1) as usize, ..lane },
                Some(message),
            )
        },
        MessageModel::Fatal(_) => if lane.fatal_sent {
            (lane, None)
        } else {
            (Lane { loss_at_tail: false, fatal_sent: true, ..lane }, Some(message))
        },
    }
}

/// As `laned`, where there may be no message.
pub open spec fn passed(lane: Lane, message: Option<MessageModel>) -> (
    Lane,
    Option<MessageModel>,
) {
    match message {
        Some(m) => laned(lane, m),
        None => (lane, None),
    }
}

/// As `laned`, for one message after the other.
pub open spec fn laned_all(lane: Lane, messages: Seq<MessageModel>) -> (Lane, Seq<MessageModel>)
    decreases messages.len(),
{
    if messages.len() == 0 {
        (lane, Seq::empty())
    } else {
        let (next, m) = laned(lane, messages.first());
        let (end, rest) = laned_all(next, messages.drop_first());
        (end, one_of(m) + rest)
    }
}

impl Lane {
    /// The lane of an empty queue on which `capacity` batches may wait.
    pub open spec fn fresh(capacity: usize) -> Lane {
        Lane { loss_at_tail: false, fatal_sent: false, waiting: 0, capacity }
    }

    /// The lane once the consumer has taken this many batches.
    pub open spec fn relieved(self, batches: int) -> Lane {
        Lane {
            waiting: if batches > self.waiting {
                0
            } else {
                (self.waiting - batches) as usize
            },
            ..self
        }
    }

    /// The lane once nothing waits on the queue any more.
    pub open spec fn cleared(self) -> Lane {
        Lane { loss_at_tail: false, ..self }
    }

    /// The lane of an empty queue on which `capacity` batches may wait.
    pub fn new(capacity: usize) -> (r: Lane)
        ensures
            r == Lane::fresh(capacity),
    {
        Lane { loss_at_tail: false, fatal_sent: false, waiting: 0, capacity }
    }

    /// Takes a loss, and returns it if it is to be put on the queue.
    pub fn lose(&mut self) -> (r: Option<SourceMessage>)
        ensures
            (*final(self), message_view(r)) == loss_laned(*old(self)),
    {
        let folded = self.loss_at_tail;
        self.loss_at_tail = true;
        if folded {
            None
        } else {
            Some(SourceMessage::Overflow)
        }
    }

    /// Takes a message, and returns what is to be put on the queue, if anything.
    pub fn offer(&mut self, message: SourceMessage) -> (r: Option<SourceMessage>)
        ensures
            (*final(self), message_view(r)) == laned(*old(self), message@),
    {
        match message {
            SourceMessage::Overflow => self.lose(),
            SourceMessage::Batch(events) => {
                if self.waiting >= self.capacity {
                    self.lose()
                } else {
                    self.loss_at_tail = false;
                    self.waiting = self.waiting + 1;
                    Some(SourceMessage::Batch(events))
                }
            },
            SourceMessage::Fatal(error) => {
                if self.fatal_sent {
                    None
                } else {
                    self.loss_at_tail = false;
                    self.fatal_sent = true;
                    Some(SourceMessage::Fatal(error))
                }
            },
        }
    }

    /// Notes that the consumer has taken this many batches.
    pub fn on_taken(&mut self, batches: usize)
        ensures
            *final(self) == old(self).relieved(batches as int),
    {
        self.waiting = self.waiting.saturating_sub(batches);
    }

    /// Notes that the consumer has taken the last message of the queue.
    pub fn on_emptied(&mut self)
        ensures
            *final(self) == old(self).cleared(),
    {
        self.loss_at_tail = false;
    }
}

/// Whether the last message that waits is a loss.
pub open spec fn ends_in_loss(queue: Seq<MessageModel>) -> bool {
    queue.len() > 0 && queue.last() is Overflow
}

/// The batches among the messages, in order.
pub open spec fn batches(messages: Seq<MessageModel>) -> Seq<MessageModel>
    decreases messages.len(),
{
    if messages.len() == 0 {
        Seq::empty()
    } else if messages.first() is Batch {
        seq![messages.first()] + batches(messages.drop_first())
    } else {
        batches(messages.drop_first())
    }
}

/// Whether the lane is right about the queue, and no more batches wait there
/// than may.
pub open spec fn tells(lane: Lane, queue: Seq<MessageModel>) -> bool {
    &&& lane.loss_at_tail == ends_in_loss(queue)
    &&& lane.waiting == batches(queue).len()
    &&& lane.waiting <= lane.capacity
}

/// The lane once the consumer has taken the first message of the queue.
pub open spec fn after_taking(lane: Lane, queue: Seq<MessageModel>) -> Lane {
    let relieved = lane.relieved(
        if queue.first() is Batch {
            1
        } else {
            0
        },
    );
    if queue.len() == 1 {
        relieved.cleared()
    } else {
        relieved
    }
}

proof fn lemma_batches_of_both(a: Seq<MessageModel>, b: Seq<MessageModel>)
    ensures
        batches(a + b) == batches(a) + batches(b),
    decreases a.len(),
{
    if a.len() == 0 {
        assert(a + b =~= b);
        assert(batches(a) + batches(b) =~= batches(b));
    } else {
        lemma_batches_of_both(a.drop_first(), b);
        assert((a + b).drop_first() =~= a.drop_first() + b);
        assert((a + b).first() == a.first());
        assert(batches(a + b) =~= batches(a) + batches(b));
    }
}

/// Whether no loss waits directly behind another one.
pub open spec fn losses_apart(queue: Seq<MessageModel>) -> bool {
    forall|i: int|
        0 <= i < queue.len() - 1 && #[trigger] queue[i] is Overflow ==> !(queue[i
            + 1] is Overflow)
}

/// A lane that is right about its queue stays so, when a message is offered and
/// when the consumer takes one; so no more batches ever wait than may.
pub proof fn law_the_lane_knows_the_tail(
    lane: Lane,
    queue: Seq<MessageModel>,
    message: MessageModel,
)
    requires
        tells(lane, queue),
    ensures
        tells(laned(lane, message).0, queue + one_of(laned(lane, message).1)),
        queue.len() > 0 ==> tells(after_taking(lane, queue), queue.drop_first()),
{
    let put = one_of(laned(lane, message).1);
    lemma_batches_of_both(queue, put);
    if put.len() > 0 {
        assert(put.drop_first() =~= Seq::empty());
        assert(batches(put.drop_first()).len() == 0);
    }
    if queue.len() > 1 {
        assert(queue.drop_first().last() == queue.last());
    }
    assert(put.len() == 0 ==> queue + put =~= queue);
    assert(put.len() > 0 ==> (queue + put).last() == put.last());
}

/// Whatever is offered, no loss is put on the queue directly behind another
/// one that waits there.
pub proof fn law_no_loss_waits_behind_a_loss(
    lane: Lane,
    queue: Seq<MessageModel>,
    messages: Seq<MessageModel>,
)
    requires
        tells(lane, queue),
        losses_apart(queue),
    ensures
        losses_apart(queue + laned_all(lane, messages).1),
        tells(laned_all(lane, messages).0, queue + laned_all(lane, messages).1),
    decreases messages.len(),
{
    let end = queue + laned_all(lane, messages).1;
    if messages.len() == 0 {
        assert(end =~= queue);
    } else {
        let (next, m) = laned(lane, messages.first());
        law_the_lane_knows_the_tail(lane, queue, messages.first());
        let then = queue + one_of(m);
        assert forall|i: int|
            0 <= i < then.len() - 1 && #[trigger] then[i] is Overflow implies !(then[i
            + 1] is Overflow) by {
            assert(then[i] == queue[i]);
            if i + 1 < queue.len() {
                assert(then[i + 1] == queue[i + 1]);
            }
        }
        law_no_loss_waits_behind_a_loss(next, then, messages.drop_first());
        assert(end =~= then + laned_all(next, messages.drop_first()).1);
    }
}

/// Every loss is covered: once one has been offered, and nothing after it, a
/// loss waits at the end of the queue, put there now or before.
pub proof fn law_a_loss_is_covered(
    lane: Lane,
    queue: Seq<MessageModel>,
    messages: Seq<MessageModel>,
)
    requires
        tells(lane, queue),
        messages.len() > 0,
        messages.last() is Overflow,
    ensures
        ends_in_loss(queue + laned_all(lane, messages).1),
    decreases messages.len(),
{
    let (next, m) = laned(lane, messages.first());
    law_the_lane_knows_the_tail(lane, queue, messages.first());
    let rest = messages.drop_first();
    assert(queue + laned_all(lane, messages).1 =~= (queue + one_of(m)) + laned_all(next, rest).1);
    if rest.len() == 0 {
        assert(queue + one_of(m) + laned_all(next, rest).1 =~= queue + one_of(m));
    } else {
        law_a_loss_is_covered(next, queue + one_of(m), rest);
    }
}

/// Whether every message is a loss.
pub open spec fn all_losses(messages: Seq<MessageModel>) -> bool {
    forall|i: int| 0 <= i < messages.len() ==> #[trigger] messages[i] is Overflow
}

/// A run of losses is one loss, and none where a loss waits already.
pub proof fn law_a_run_of_losses_is_one(lane: Lane, messages: Seq<MessageModel>)
    requires
        messages.len() > 0,
        all_losses(messages),
    ensures
        laned_all(lane, messages).1 == (if lane.loss_at_tail {
            Seq::empty()
        } else {
            seq![MessageModel::Overflow]
        }),
    decreases messages.len(),
{
    let (next, m) = laned(lane, messages.first());
    let rest = messages.drop_first();
    assert(messages.first() == messages[0]);
    assert forall|i: int| 0 <= i < rest.len() implies #[trigger] rest[i] is Overflow by {
        assert(rest[i] == messages[i + 1]);
    }
    if rest.len() > 0 {
        law_a_run_of_losses_is_one(next, rest);
    }
    assert(laned_all(next, rest).1 =~= Seq::empty());
    assert(laned_all(lane, messages).1 =~= one_of(m));
}

/// No events are lost unsaid: a batch is put on the queue, or there is no room
/// for it and a loss waits at the queue's end.
pub proof fn law_a_refused_batch_is_covered(
    lane: Lane,
    queue: Seq<MessageModel>,
    events: Seq<LinuxModel>,
)
    requires
        tells(lane, queue),
    ensures
        ({
            let batch = MessageModel::Batch(events);
            let put = laned(lane, batch).1;
            if batches(queue).len() < lane.capacity {
                put == Some(batch)
            } else {
                put != Some(batch) && ends_in_loss(queue + one_of(put))
            }
        }),
{
    law_the_lane_knows_the_tail(lane, queue, MessageModel::Batch(events));
}

/// Where there is room for all of them, the batches on the queue are those that
/// were offered, in order: nothing but losses is folded.
pub proof fn law_no_events_are_folded(lane: Lane, messages: Seq<MessageModel>)
    requires
        lane.waiting + batches(messages).len() <= lane.capacity,
    ensures
        batches(laned_all(lane, messages).1) == batches(messages),
    decreases messages.len(),
{
    if messages.len() > 0 {
        let (next, m) = laned(lane, messages.first());
        let rest = laned_all(next, messages.drop_first()).1;
        law_no_events_are_folded(next, messages.drop_first());
        let put = one_of(m) + rest;
        if m is Some {
            assert(put.drop_first() =~= rest);
            assert(put.first() == messages.first());
        } else {
            assert(put =~= rest);
        }
    }
}

/// A fatal error is put on the queue at most once, whatever else is offered.
pub proof fn law_a_fatal_error_is_put_there_once(
    lane: Lane,
    messages: Seq<MessageModel>,
    i: int,
    j: int,
)
    requires
        0 <= i < j < laned_all(lane, messages).1.len(),
        laned_all(lane, messages).1[i] is Fatal,
    ensures
        !(laned_all(lane, messages).1[j] is Fatal),
    decreases messages.len(),
{
    let (next, m) = laned(lane, messages.first());
    let rest = laned_all(next, messages.drop_first()).1;
    if m is Some {
        if i == 0 {
            lemma_no_second_fatal_error(next, messages.drop_first(), j - 1);
        } else {
            assert(laned_all(lane, messages).1[i] == rest[i - 1]);
            law_a_fatal_error_is_put_there_once(next, messages.drop_first(), i - 1, j - 1);
        }
        assert(laned_all(lane, messages).1[j] == rest[j - 1]);
    } else {
        assert(laned_all(lane, messages).1 =~= rest);
        law_a_fatal_error_is_put_there_once(next, messages.drop_first(), i, j);
    }
}

proof fn lemma_no_second_fatal_error(lane: Lane, messages: Seq<MessageModel>, i: int)
    requires
        lane.fatal_sent,
        0 <= i < laned_all(lane, messages).1.len(),
    ensures
        !(laned_all(lane, messages).1[i] is Fatal),
    decreases messages.len(),
{
    let (next, m) = laned(lane, messages.first());
    let rest = laned_all(next, messages.drop_first()).1;
    let before = one_of(m).len();
    if i >= before {
        assert(laned_all(lane, messages).1[i] == rest[i - before]);
        lemma_no_second_fatal_error(next, messages.drop_first(), i - before);
    } else {
        assert(laned_all(lane, messages).1[i] == one_of(m)[i]);
    }
}

/// What is offered is put on the queue as it is, or not at all: a batch where there is
/// room for it, and otherwise as a loss; a loss unless one waits at the end of the queue;
/// and a fatal error unless there was one. The lane remembers what was put there.
pub proof fn law_what_is_offered_is_put_there_as_it_is(lane: Lane, message: MessageModel)
    ensures
        ({
            let (next, put) = laned(lane, message);
            let lost = Some(MessageModel::Overflow);
            &&& next.capacity == lane.capacity
            &&& match message {
                MessageModel::Batch(_) => if lane.waiting < lane.capacity {
                    &&& put == Some(message)
                    &&& next.waiting == lane.waiting + 1
                    &&& !next.loss_at_tail && next.fatal_sent == lane.fatal_sent
                } else {
                    &&& put == if lane.loss_at_tail {
                        None
                    } else {
                        lost
                    }
                    &&& next == Lane { loss_at_tail: true, ..lane }
                },
                MessageModel::Overflow => {
                    &&& put == if lane.loss_at_tail {
                        None
                    } else {
                        lost
                    }
                    &&& next == Lane { loss_at_tail: true, ..lane }
                },
                MessageModel::Fatal(_) => if lane.fatal_sent {
                    put is None && next == lane
                } else {
                    &&& put == Some(message)
                    &&& next == Lane { loss_at_tail: false, fatal_sent: true, ..lane }
                },
            }
        }),
        passed(lane, Some(message)) == laned(lane, message),
        passed(lane, None) == (lane, None::<MessageModel>),
{
}

} // verus!
