//! The cut: reading the kernel's queue down before a batch is answered.
//!
//! Whoever holds the answer to a batch must also hold every record the kernel
//! had queued when the batch was carried out. So before the answer leaves, the
//! queue is read until it is empty. A queue that cannot be shown to be empty
//! within bounds is not left behind: the instance is renewed, so that nothing
//! older than the loss signal can follow it.

use vstd::prelude::*;

use crate::attribution::{MessageModel, SourceMessage, message_view};
use crate::error::{EAGAIN, EINTR, IoError, SourceError};
use crate::inotify::instance::{Instance, InstanceModel};
use crate::inotify::protocol::{Answer, Ask, fits};
use crate::inotify::renewal::Renewal;
use crate::lane::{
    Lane, all_losses, ends_in_loss, laned_all, law_a_loss_is_covered, law_a_run_of_losses_is_one,
    law_no_loss_waits_behind_a_loss, losses_apart, one_of, passed, tells,
};

verus! {

/// How many reads the queue gets where its length is unknown.
pub const MAX_CUT_FALLBACK_READS: u32 = 72;

/// The largest count of queued bytes that is believed: the kernel counts in a
/// signed word, so anything above it has wrapped.
pub const MAX_CREDIBLE_QUEUE_BYTES: u64 = 0x7fff_ffff;

/// How many reads the queue gets where its length is known.
pub const MAX_CUT_OWED_READS: u32 = 4096;

/// How many interrupted reads are made good.
pub const MAX_CUT_INTERRUPTED_READS: u32 = 256;

/// How far a cut has come: what the queue is believed to owe still, the reads
/// that were made, and how many of them were interrupted.
#[derive(Clone, Copy, Debug, PartialEq, Eq, Structural)]
pub struct CutProgress {
    pub owed: Option<u64>,
    pub reads: u32,
    pub interrupted: u32,
}

/// One cut under way.
#[derive(Clone, Copy, Debug, PartialEq, Eq, Structural)]
pub enum Cut {
    /// The queue's length is being asked for.
    Queued,
    /// The queue is being read.
    Read(CutProgress),
    /// A read was interrupted; whether a teardown waits is being asked.
    Interrupted(CutProgress),
    /// A read was forwarded; whether a teardown waits is being asked.
    Forwarded(CutProgress),
    /// The queue could not be shown to be empty; the instance is being renewed.
    Retire(Renewal),
    /// The cut has ended; the reader goes on, or stops.
    Done { stop: bool },
}

impl CutProgress {
    /// How many reads the queue gets.
    pub open spec fn limit(self) -> u32 {
        if self.owed is Some {
            MAX_CUT_OWED_READS
        } else {
            MAX_CUT_FALLBACK_READS
        }
    }

    /// Within its bounds.
    pub open spec fn wf(self) -> bool {
        self.reads <= self.limit() && self.interrupted < MAX_CUT_INTERRUPTED_READS
    }

    /// The progress with `n` bytes less owed.
    pub open spec fn paid(self, n: int) -> CutProgress {
        CutProgress {
            owed: match self.owed {
                Some(o) => Some(
                    if o >= n {
                        (o - n) as u64
                    } else {
                        0
                    },
                ),
                None => None,
            },
            ..self
        }
    }

    /// The progress with one more read made.
    pub open spec fn read_once(self) -> CutProgress {
        CutProgress { reads: (self.reads + 1) as u32, ..self }
    }

    /// The progress with one more read interrupted.
    pub open spec fn interrupted_once(self) -> CutProgress {
        CutProgress { interrupted: (self.interrupted + 1) as u32, ..self }
    }
}

impl Cut {
    /// What the cut waits for.
    pub open spec fn ask_spec(self) -> Ask {
        match self {
            Cut::Queued => Ask::Queued,
            Cut::Read(_) => Ask::Read,
            Cut::Interrupted(_) | Cut::Forwarded(_) => Ask::Shutdown,
            Cut::Retire(renewal) => renewal.ask_spec(),
            Cut::Done { .. } => Ask::Nothing,
        }
    }

    /// Within its bounds.
    pub open spec fn wf(self) -> bool {
        match self {
            Cut::Read(p) => p.wf() && p.reads > 0,
            Cut::Forwarded(p) => p.wf(),
            Cut::Interrupted(p) => p.reads <= p.limit() && p.interrupted
                <= MAX_CUT_INTERRUPTED_READS,
            Cut::Retire(r) => !(r is Done) && !(r is Refused),
            _ => true,
        }
    }

    /// The cut at the head of its loop: one more read, or no more.
    pub open spec fn again(p: CutProgress) -> Cut {
        if p.reads >= p.limit() {
            Cut::Retire(Renewal::Create)
        } else {
            Cut::Read(p.read_once())
        }
    }

    /// The cut, the instance and the message offered to the lane after an
    /// answer.
    pub open spec fn next(self, i: InstanceModel, answer: Answer) -> (
        Cut,
        InstanceModel,
        Option<MessageModel>,
    ) {
        match (self, answer) {
            (Cut::Queued, Answer::Queued(queued)) => {
                let owed = match queued {
                    Ok(bytes) if bytes <= MAX_CREDIBLE_QUEUE_BYTES => Some(bytes),
                    _ => None,
                };
                (Cut::again(CutProgress { owed, reads: 0, interrupted: 0 }), i, None)
            },
            (Cut::Read(p), Answer::Read(Ok(bytes))) => if bytes@.len() == 0 {
                (Cut::Done { stop: false }, i, None)
            } else {
                (
                    Cut::Forwarded(p.paid(bytes@.len() as int)),
                    i.after_read(bytes@),
                    i.sends_for(bytes@),
                )
            },
            (Cut::Read(p), Answer::Read(Err(e))) => if e == EAGAIN {
                (Cut::Done { stop: false }, i, None)
            } else if e == EINTR {
                (Cut::Interrupted(p.interrupted_once()), i, None)
            } else {
                (
                    Cut::Done { stop: true },
                    i,
                    Some(MessageModel::Fatal(SourceError::ReadFailed { source: IoError::Os(e) })),
                )
            },
            (Cut::Interrupted(p), Answer::Shutdown(stop)) => if stop {
                (Cut::Done { stop: true }, i, Some(MessageModel::Overflow))
            } else if p.interrupted >= MAX_CUT_INTERRUPTED_READS {
                (Cut::Retire(Renewal::Create), i, None)
            } else {
                (Cut::again(p), i, None)
            },
            (Cut::Forwarded(p), Answer::Shutdown(stop)) => if stop {
                (Cut::Done { stop: true }, i, Some(MessageModel::Overflow))
            } else {
                (Cut::again(p), i, None)
            },
            (Cut::Retire(renewal), _) => match renewal.next(i, answer) {
                (Renewal::Done, j, m) => (Cut::Done { stop: false }, j, m),
                (Renewal::Refused(e), j, _) => (
                    Cut::Done { stop: true },
                    j,
                    Some(MessageModel::Fatal(e)),
                ),
                (r, j, m) => (Cut::Retire(r), j, m),
            },
            _ => (self, i, None),
        }
    }

    /// What the cut waits for.
    pub fn ask(&self) -> (r: Ask)
        ensures
            r == self.ask_spec(),
    {
        match self {
            Cut::Queued => Ask::Queued,
            Cut::Read(_) => Ask::Read,
            Cut::Interrupted(_) | Cut::Forwarded(_) => Ask::Shutdown,
            Cut::Retire(renewal) => renewal.ask(),
            Cut::Done { .. } => Ask::Nothing,
        }
    }

    /// The cut at the head of its loop.
    fn at_head(p: CutProgress) -> (r: Cut)
        requires
            p.wf(),
        ensures
            r == Cut::again(p),
            r.wf(),
    {
        let limit: u32 = if p.owed.is_some() {
            MAX_CUT_OWED_READS
        } else {
            MAX_CUT_FALLBACK_READS
        };
        if p.reads >= limit {
            Cut::Retire(Renewal::Create)
        } else {
            Cut::Read(CutProgress { reads: p.reads + 1, ..p })
        }
    }

    /// Takes an answer, and returns the message to put on the queue, if any.
    pub fn step(
        &mut self,
        instance: &mut Instance,
        lane: &mut Lane,
        answer: Answer,
    ) -> (r: Option<SourceMessage>)
        requires
            old(instance).wf(),
            old(self).wf(),
            fits(old(self).ask_spec(), answer),
        ensures
            final(instance).wf(),
            final(self).wf(),
            ({
                let (next, after, offered) = old(self).next(old(instance)@, answer);
                &&& *final(self) == next
                &&& final(instance)@ == after
                &&& (*final(lane), message_view(r)) == passed(*old(lane), offered)
            }),
    {
        match (*self, answer) {
            (Cut::Queued, Answer::Queued(queued)) => {
                let owed: Option<u64> = match queued {
                    Ok(bytes) => if bytes <= MAX_CREDIBLE_QUEUE_BYTES {
                        Some(bytes)
                    } else {
                        None
                    },
                    Err(_) => None,
                };
                *self = Cut::at_head(CutProgress { owed, reads: 0, interrupted: 0 });
                None
            },
            (Cut::Read(p), Answer::Read(Ok(bytes))) => {
                if bytes.len() == 0 {
                    *self = Cut::Done { stop: false };
                    None
                } else {
                    let owed: Option<u64> = match p.owed {
                        Some(o) => Some(o.saturating_sub(bytes.len() as u64)),
                        None => None,
                    };
                    *self = Cut::Forwarded(CutProgress { owed, ..p });
                    instance.take_in(lane, bytes)
                }
            },
            (Cut::Read(p), Answer::Read(Err(e))) => {
                if e == EAGAIN {
                    *self = Cut::Done { stop: false };
                    None
                } else if e == EINTR {
                    *self = Cut::Interrupted(
                        CutProgress { interrupted: p.interrupted + 1, ..p },
                    );
                    None
                } else {
                    *self = Cut::Done { stop: true };
                    lane.offer(
                        SourceMessage::Fatal(SourceError::ReadFailed { source: IoError::Os(e) }),
                    )
                }
            },
            (Cut::Interrupted(p), Answer::Shutdown(stop)) => {
                if stop {
                    *self = Cut::Done { stop: true };
                    lane.offer(SourceMessage::Overflow)
                } else {
                    if p.interrupted >= MAX_CUT_INTERRUPTED_READS {
                        *self = Cut::Retire(Renewal::Create);
                    } else {
                        *self = Cut::at_head(p);
                    }
                    None
                }
            },
            (Cut::Forwarded(p), Answer::Shutdown(stop)) => {
                if stop {
                    *self = Cut::Done { stop: true };
                    lane.offer(SourceMessage::Overflow)
                } else {
                    *self = Cut::at_head(p);
                    None
                }
            },
            (Cut::Retire(renewal), _) => {
                let mut renewal = renewal;
                let message = renewal.step(instance, lane, answer);
                match renewal {
                    Renewal::Done => {
                        *self = Cut::Done { stop: false };
                        message
                    },
                    Renewal::Refused(e) => {
                        *self = Cut::Done { stop: true };
                        lane.offer(SourceMessage::Fatal(e))
                    },
                    _ => {
                        *self = Cut::Retire(renewal);
                        message
                    },
                }
            },
            _ => None,
        }
    }

    /// Whether the answers, one after the other, are what the cut asks for.
    pub open spec fn served(self, i: InstanceModel, answers: Seq<Answer>) -> bool
        decreases answers.len(),
    {
        answers.len() == 0 || {
            let (c, j, _) = self.next(i, answers.first());
            fits(self.ask_spec(), answers.first()) && c.served(j, answers.drop_first())
        }
    }

    /// The cut, the instance and the messages offered to the lane after the
    /// answers.
    pub open spec fn run(self, i: InstanceModel, answers: Seq<Answer>) -> (
        Cut,
        InstanceModel,
        Seq<MessageModel>,
    )
        decreases answers.len(),
    {
        if answers.len() == 0 {
            (self, i, Seq::empty())
        } else {
            let (c, j, m) = self.next(i, answers.first());
            let (end, k, rest) = c.run(j, answers.drop_first());
            (end, k, one_of(m) + rest)
        }
    }

    /// How many reads are left to be asked for ahead of a renewal, at most.
    pub open spec fn reads_left(self) -> nat {
        match self {
            Cut::Queued => MAX_CUT_OWED_READS as nat,
            Cut::Read(p) => (p.limit() - p.reads + 1) as nat,
            Cut::Interrupted(p) | Cut::Forwarded(p) => (p.limit() - p.reads) as nat,
            _ => 0,
        }
    }

    /// How many answers are left to come, at most: two for each read, and those
    /// of a renewal.
    pub open spec fn answers_left(self) -> nat {
        let renewal = Renewal::Create.answers_left();
        match self {
            Cut::Queued => 2 * self.reads_left() + renewal + 1,
            Cut::Read(_) => 2 * self.reads_left() + renewal,
            Cut::Interrupted(_) | Cut::Forwarded(_) => 2 * self.reads_left() + renewal + 1,
            Cut::Retire(r) => r.answers_left(),
            Cut::Done { .. } => 0,
        }
    }
}

proof fn lemma_step_keeps_wf(cut: Cut, i: InstanceModel, answer: Answer)
    requires
        cut.wf(),
        fits(cut.ask_spec(), answer),
    ensures
        cut.next(i, answer).0.wf(),
        cut.next(i, answer).0.answers_left() < cut.answers_left(),
{
}

/// A cut ends within a bounded number of answers, whatever they are: a queue
/// that never runs empty, or a storm of interruptions, holds nothing up.
pub proof fn law_a_cut_ends(cut: Cut, i: InstanceModel, answers: Seq<Answer>)
    requires
        cut.wf(),
        cut.served(i, answers),
    ensures
        answers.len() + cut.run(i, answers).0.answers_left() <= cut.answers_left(),
    decreases answers.len(),
{
    if answers.len() > 0 {
        lemma_step_keeps_wf(cut, i, answers.first());
        let (c, j, _) = cut.next(i, answers.first());
        law_a_cut_ends(c, j, answers.drop_first());
    }
}

/// Whether the answer shows that the queue is empty.
pub open spec fn shows_empty(answer: Answer) -> bool {
    match answer {
        Answer::Read(Ok(bytes)) => bytes@.len() == 0,
        Answer::Read(Err(e)) => e == EAGAIN,
        _ => false,
    }
}

/// A cut leaves nothing unread behind: where the reader goes on, either the
/// last answer showed that the queue is empty, or the instance is a fresh one
/// and the last message offered was the loss signal. Where the reader stops, it
/// was the loss signal or the fatal error.
pub proof fn law_a_cut_leaves_nothing_behind(cut: Cut, i: InstanceModel, answers: Seq<Answer>)
    requires
        cut.wf(),
        cut.served(i, answers),
        !(cut is Done),
    ensures
        match cut.run(i, answers) {
            (Cut::Done { stop }, j, sent) => {
                &&& answers.len() > 0
                &&& !stop ==> {
                    ||| shows_empty(answers.last())
                    ||| (j == i.renewed() && sent.len() > 0 && sent.last()
                        == MessageModel::Overflow)
                }
                &&& stop ==> sent.len() > 0 && (sent.last() == MessageModel::Overflow
                    || sent.last() is Fatal)
            },
            _ => true,
        },
    decreases answers.len(),
{
    if answers.len() > 0 {
        lemma_step_keeps_wf(cut, i, answers.first());
        let (c, j, m) = cut.next(i, answers.first());
        let rest = c.run(j, answers.drop_first());
        if c is Done {
            reveal_with_fuel(Cut::served, 2);
            assert(answers.drop_first().len() == 0);
            assert(one_of(m) + rest.2 =~= one_of(m));
        } else {
            law_a_cut_leaves_nothing_behind(c, j, answers.drop_first());
            if rest.0 is Done {
                assert(answers.drop_first().last() == answers.last());
                if rest.2.len() > 0 {
                    assert((one_of(m) + rest.2).last() == rest.2.last());
                }
            }
        }
    }
}

/// What a cut leaves unread is covered on the queue itself: where the reader
/// goes on without having seen the queue empty, a loss waits at the end of the
/// consumer's queue, put there by this cut or before it. Where the reader stops
/// for a teardown, so it does. However many reads are lossy, no loss is put on
/// the queue directly behind another one, and where nothing but losses came of
/// the cut, one is put there, or none if one waits already.
pub proof fn law_a_cut_is_covered_by_one_loss(
    cut: Cut,
    i: InstanceModel,
    lane: Lane,
    queue: Seq<MessageModel>,
    answers: Seq<Answer>,
)
    requires
        cut.wf(),
        cut.served(i, answers),
        !(cut is Done),
        tells(lane, queue),
        losses_apart(queue),
    ensures
        ({
            let (end, _, offered) = cut.run(i, answers);
            let after = queue + laned_all(lane, offered).1;
            &&& losses_apart(after)
            &&& tells(laned_all(lane, offered).0, after)
            &&& all_losses(offered) && offered.len() > 0 ==> laned_all(lane, offered).1 == (
            if lane.loss_at_tail {
                Seq::empty()
            } else {
                seq![MessageModel::Overflow]
            })
            &&& match end {
                Cut::Done { stop } => {
                    &&& !stop ==> shows_empty(answers.last()) || ends_in_loss(after)
                    &&& stop ==> ends_in_loss(after) || offered.last() is Fatal
                },
                _ => true,
            }
        }),
{
    law_a_cut_leaves_nothing_behind(cut, i, answers);
    let offered = cut.run(i, answers).2;
    law_no_loss_waits_behind_a_loss(lane, queue, offered);
    if offered.len() > 0 && offered.last() is Overflow {
        law_a_loss_is_covered(lane, queue, offered);
    }
    if all_losses(offered) && offered.len() > 0 {
        law_a_run_of_losses_is_one(lane, offered);
    }
}

} // verus!
