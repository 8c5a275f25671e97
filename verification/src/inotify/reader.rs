//! The reader: one loop that serves control requests and forwards records.
//!
//! Control is served ahead of the wait, after every wake-up and between any two
//! reads, so neither a teardown nor a batch ever waits for the records to run
//! out. A batch is answered once the kernel's queue has been cut; only a batch
//! that a teardown has cut short is answered without, since the reader then
//! stops.

use vstd::prelude::*;

use crate::attribution::{MessageModel, SourceMessage, message_view};
use crate::error::{EAGAIN, EINTR, Errno, IoError, SourceError};
use crate::inotify::batch::{Batch, BatchModel, BatchState, ControlOp, arms};
use crate::inotify::cut::Cut;
use crate::inotify::instance::{Instance, InstanceModel};
use crate::inotify::protocol::{Answer, Ask, fits};
use crate::lane::{Lane, passed};
use crate::watch::WatchOutcome;

verus! {

/// A request to the reader.
#[derive(Debug)]
pub enum Control {
    /// Carry out the operations, and answer.
    Batch(Vec<ControlOp>),
    /// Stop.
    Shutdown,
}

/// Where in the loop control is being served.
#[derive(Clone, Copy, Debug, PartialEq, Eq, Structural)]
pub enum Place {
    /// Ahead of the wait.
    Guard,
    /// After a wake-up, with records to be read or without.
    Woken { source_ready: bool },
    /// Ahead of a read.
    Between,
}

/// Why the reader stopped.
#[derive(Clone, Copy, Debug, PartialEq, Eq, Structural)]
pub enum DrainExit {
    /// It was told to.
    Shutdown,
    /// It could not go on.
    Died,
}

/// Where in its loop the reader is.
#[derive(Clone, Copy, Debug, PartialEq, Eq, Structural)]
pub enum ReaderState {
    /// About to wait: requests from here on must wake it.
    Park,
    /// Looking for a request.
    Receive(Place),
    /// Carrying out a batch.
    Batch(Place),
    /// Cutting the queue ahead of an answer.
    Cut(Place, Cut),
    /// Answering a batch, to stop afterwards or not.
    Reply(Place, bool),
    /// Waiting for records or requests.
    Poll,
    /// Clearing the wake-up, with records to be read or without.
    Clear { source_ready: bool },
    /// Reading records.
    Read,
    /// Stopped.
    Exit(DrainExit),
}

/// What the reader waits for.
#[derive(Clone, Copy, Debug, PartialEq, Eq, Structural)]
pub enum ReaderAsk {
    /// Have requests from here on wake the reader.
    Park,
    /// Take the next request, if there is one.
    Receive,
    /// Answer the batch with its replies.
    Reply,
    /// Wait for records or a wake-up; requests need not wake it afterwards.
    Poll,
    /// Clear the wake-up.
    Clear,
    /// What the work at hand asks for.
    Do(Ask),
    /// Nothing: the reader has stopped.
    Exit,
}

/// What comes back.
#[derive(Debug)]
pub enum ReaderAnswer<'a> {
    Parked,
    Received(Option<Control>),
    Replied,
    /// Whether there are records, and whether there was a wake-up.
    Polled(Result<(bool, bool), Errno>),
    Cleared,
    Did(Answer<'a>),
}

/// The reader's own state, beside its instance.
#[derive(Debug)]
pub struct Reader {
    state: ReaderState,
    batch: Batch,
}

/// What a `Reader` stands for.
#[verifier::ext_equal]
pub struct ReaderModel {
    pub state: ReaderState,
    pub batch: BatchModel,
}

impl View for Reader {
    type V = ReaderModel;

    closed spec fn view(&self) -> ReaderModel {
        ReaderModel { state: self.state, batch: self.batch@ }
    }
}

/// The error of a read or a wait.
pub open spec fn read_failed(e: Errno) -> SourceError {
    SourceError::ReadFailed { source: IoError::Os(e) }
}

impl ReaderModel {
    /// What the reader waits for.
    pub open spec fn ask(self) -> ReaderAsk {
        match self.state {
            ReaderState::Park => ReaderAsk::Park,
            ReaderState::Receive(_) => ReaderAsk::Receive,
            ReaderState::Batch(_) => ReaderAsk::Do(self.batch.ask()),
            ReaderState::Cut(_, cut) => ReaderAsk::Do(cut.ask_spec()),
            ReaderState::Reply(_, _) => ReaderAsk::Reply,
            ReaderState::Poll => ReaderAsk::Poll,
            ReaderState::Clear { .. } => ReaderAsk::Clear,
            ReaderState::Read => ReaderAsk::Do(Ask::Read),
            ReaderState::Exit(_) => ReaderAsk::Exit,
        }
    }

    /// Whether the answer is of the sort that was asked for.
    pub open spec fn fits(self, answer: ReaderAnswer) -> bool {
        match self.ask() {
            ReaderAsk::Park => answer is Parked,
            ReaderAsk::Receive => answer is Received,
            ReaderAsk::Reply => answer is Replied,
            ReaderAsk::Poll => answer is Polled,
            ReaderAsk::Clear => answer is Cleared,
            ReaderAsk::Do(ask) => answer matches ReaderAnswer::Did(a) && fits(ask, a),
            ReaderAsk::Exit => false,
        }
    }

    /// What the kernel's answer is relied on for.
    pub open spec fn relies_on(self, i: InstanceModel, answer: ReaderAnswer) -> bool {
        match (self.state, answer) {
            (ReaderState::Batch(_), ReaderAnswer::Did(a)) => self.batch.relies_on(i, a),
            _ => true,
        }
    }

    /// The reader's invariant: the work at hand is within its own bounds, and a
    /// batch that is about to be answered has an answer for each of its arms.
    pub open spec fn wf(self, i: InstanceModel) -> bool {
        match self.state {
            ReaderState::Batch(_) => self.batch.wf(i) && !(self.batch.state is Done),
            ReaderState::Cut(_, cut) => {
                &&& cut.wf()
                &&& !(cut is Done)
                &&& self.batch.state == (BatchState::Done { preempted: false })
                &&& self.batch.replies.len() == arms(self.batch.ops)
            },
            ReaderState::Reply(_, stop) => {
                &&& self.batch.state matches BatchState::Done { preempted } && (preempted ==> stop)
                &&& self.batch.replies.len() == arms(self.batch.ops)
            },
            _ => true,
        }
    }

    /// The reader in another state.
    pub open spec fn to(self, state: ReaderState) -> ReaderModel {
        ReaderModel { state, ..self }
    }

    /// Where the reader goes once there are no more requests.
    pub open spec fn after_control(place: Place) -> ReaderState {
        match place {
            Place::Guard => ReaderState::Poll,
            Place::Woken { source_ready } => if source_ready {
                ReaderState::Receive(Place::Between)
            } else {
                ReaderState::Park
            },
            Place::Between => ReaderState::Read,
        }
    }

    /// The reader, the instance and the message offered to the lane after an
    /// answer.
    pub open spec fn next(self, i: InstanceModel, answer: ReaderAnswer) -> (
        ReaderModel,
        InstanceModel,
        Option<MessageModel>,
    ) {
        match (self.state, answer) {
            (ReaderState::Park, _) => (self.to(ReaderState::Receive(Place::Guard)), i, None),
            (ReaderState::Receive(place), ReaderAnswer::Received(request)) => match request {
                Some(Control::Batch(ops)) => (
                    ReaderModel {
                        state: ReaderState::Batch(place),
                        batch: BatchModel::start(ops@),
                    },
                    i,
                    None,
                ),
                Some(Control::Shutdown) => (
                    self.to(ReaderState::Exit(DrainExit::Shutdown)),
                    i,
                    None,
                ),
                None => (self.to(ReaderModel::after_control(place)), i, None),
            },
            (ReaderState::Batch(place), ReaderAnswer::Did(a)) => {
                let (b, j, m) = self.batch.next(i, a);
                let state = match b.state {
                    BatchState::Done { preempted } => if preempted {
                        ReaderState::Reply(place, true)
                    } else {
                        ReaderState::Cut(place, Cut::Queued)
                    },
                    _ => self.state,
                };
                (ReaderModel { state, batch: b }, j, m)
            },
            (ReaderState::Cut(place, cut), ReaderAnswer::Did(a)) => {
                let (c, j, m) = cut.next(i, a);
                let state = match c {
                    Cut::Done { stop } => ReaderState::Reply(place, stop),
                    _ => ReaderState::Cut(place, c),
                };
                (self.to(state), j, m)
            },
            (ReaderState::Reply(place, stop), _) => if stop {
                (self.to(ReaderState::Exit(DrainExit::Shutdown)), i, None)
            } else {
                (self.to(ReaderState::Receive(place)), i, None)
            },
            (ReaderState::Poll, ReaderAnswer::Polled(Err(e))) => if e == EINTR {
                (self.to(ReaderState::Park), i, None)
            } else {
                (
                    self.to(ReaderState::Exit(DrainExit::Died)),
                    i,
                    Some(MessageModel::Fatal(read_failed(e))),
                )
            },
            (ReaderState::Poll, ReaderAnswer::Polled(Ok((source_ready, event_ready)))) => if
                event_ready {
                (self.to(ReaderState::Clear { source_ready }), i, None)
            } else {
                (
                    self.to(ReaderModel::after_control(Place::Woken { source_ready })),
                    i,
                    None,
                )
            },
            (ReaderState::Clear { source_ready }, _) => (
                self.to(ReaderState::Receive(Place::Woken { source_ready })),
                i,
                None,
            ),
            (ReaderState::Read, ReaderAnswer::Did(Answer::Read(Ok(bytes)))) => if bytes@.len()
                == 0 {
                (self.to(ReaderState::Park), i, None)
            } else {
                (
                    self.to(ReaderState::Receive(Place::Between)),
                    i.after_read(bytes@),
                    i.sends_for(bytes@),
                )
            },
            (ReaderState::Read, ReaderAnswer::Did(Answer::Read(Err(e)))) => if e == EAGAIN {
                (self.to(ReaderState::Park), i, None)
            } else if e == EINTR {
                (self.to(ReaderState::Receive(Place::Between)), i, None)
            } else {
                (
                    self.to(ReaderState::Exit(DrainExit::Died)),
                    i,
                    Some(MessageModel::Fatal(read_failed(e))),
                )
            },
            _ => (self, i, None),
        }
    }
}

impl Reader {
    /// The reader's invariant.
    pub open spec fn wf(&self, i: InstanceModel) -> bool {
        self@.wf(i)
    }

    /// A reader at the start of its loop.
    pub fn new() -> (r: Reader)
        ensures
            r@ == (ReaderModel {
                state: ReaderState::Park,
                batch: BatchModel::start(Seq::empty()),
            }),
            forall|i: InstanceModel| r.wf(i),
    {
        let ops: Vec<ControlOp> = Vec::new();
        assert(ops@ =~= Seq::empty());
        Reader { state: ReaderState::Park, batch: Batch::new(ops) }
    }

    /// A reader that serves control at `place`.
    pub fn at(place: Place) -> (r: Reader)
        ensures
            r@ == (ReaderModel {
                state: ReaderState::Receive(place),
                batch: BatchModel::start(Seq::empty()),
            }),
            forall|i: InstanceModel| r.wf(i),
    {
        let ops: Vec<ControlOp> = Vec::new();
        assert(ops@ =~= Seq::empty());
        Reader { state: ReaderState::Receive(place), batch: Batch::new(ops) }
    }

    /// Where in its loop the reader is.
    pub fn state(&self) -> (r: ReaderState)
        ensures
            r == self@.state,
    {
        self.state
    }

    /// How many operations of the batch at hand have been taken up.
    pub fn taken(&self) -> (r: usize)
        ensures
            r == self@.batch.taken,
    {
        self.batch.taken()
    }

    /// The replies to the batch at hand.
    pub fn replies(&self) -> (r: &[WatchOutcome])
        ensures
            r@ == self@.batch.replies,
    {
        self.batch.replies()
    }

    /// What the reader waits for.
    pub fn ask(&self) -> (r: ReaderAsk)
        ensures
            r == self@.ask(),
    {
        match &self.state {
            ReaderState::Park => ReaderAsk::Park,
            ReaderState::Receive(_) => ReaderAsk::Receive,
            ReaderState::Batch(_) => ReaderAsk::Do(self.batch.ask()),
            ReaderState::Cut(_, cut) => ReaderAsk::Do(cut.ask()),
            ReaderState::Reply(_, _) => ReaderAsk::Reply,
            ReaderState::Poll => ReaderAsk::Poll,
            ReaderState::Clear { .. } => ReaderAsk::Clear,
            ReaderState::Read => ReaderAsk::Do(Ask::Read),
            ReaderState::Exit(_) => ReaderAsk::Exit,
        }
    }

    /// Whether the answer is what the kernel is relied on for.
    pub fn accepts(&self, instance: &Instance, answer: &ReaderAnswer) -> (r: bool)
        ensures
            r == self@.relies_on(instance@, *answer),
    {
        match (&self.state, answer) {
            (ReaderState::Batch(_), ReaderAnswer::Did(a)) => self.batch.accepts(instance, *a),
            _ => true,
        }
    }

    /// Where the reader goes once there are no more requests.
    fn leave_control(place: Place) -> (r: ReaderState)
        ensures
            r == ReaderModel::after_control(place),
    {
        match place {
            Place::Guard => ReaderState::Poll,
            Place::Woken { source_ready } => if source_ready {
                ReaderState::Receive(Place::Between)
            } else {
                ReaderState::Park
            },
            Place::Between => ReaderState::Read,
        }
    }

    /// Takes an answer, and returns the message to put on the queue, if any.
    pub fn step(
        &mut self,
        instance: &mut Instance,
        lane: &mut Lane,
        answer: ReaderAnswer,
    ) -> (r: Option<SourceMessage>)
        requires
            old(instance).wf(),
            old(self).wf(old(instance)@),
            old(self)@.fits(answer),
            old(self)@.relies_on(old(instance)@, answer),
        ensures
            final(instance).wf(),
            final(self).wf(final(instance)@),
            ({
                let (next, after, offered) = old(self)@.next(old(instance)@, answer);
                &&& final(self)@ == next
                &&& final(instance)@ == after
                &&& (*final(lane), message_view(r)) == passed(*old(lane), offered)
            }),
    {
        match (self.state, answer) {
            (ReaderState::Park, _) => {
                self.state = ReaderState::Receive(Place::Guard);
                None
            },
            (ReaderState::Receive(place), ReaderAnswer::Received(request)) => {
                match request {
                    Some(Control::Batch(ops)) => {
                        self.batch = Batch::new(ops);
                        self.state = ReaderState::Batch(place);
                    },
                    Some(Control::Shutdown) => {
                        self.state = ReaderState::Exit(DrainExit::Shutdown);
                    },
                    None => {
                        self.state = Reader::leave_control(place);
                    },
                }
                None
            },
            (ReaderState::Batch(place), ReaderAnswer::Did(a)) => {
                let message = self.batch.step(instance, lane, a);
                if let Some(preempted) = self.batch.ended() {
                    assert(self.batch@.ops.take(self.batch@.ops.len() as int)
                        =~= self.batch@.ops);
                    if preempted {
                        self.state = ReaderState::Reply(place, true);
                    } else {
                        self.state = ReaderState::Cut(place, Cut::Queued);
                    }
                }
                message
            },
            (ReaderState::Cut(place, cut), ReaderAnswer::Did(a)) => {
                let mut cut = cut;
                let message = cut.step(instance, lane, a);
                self.state = match cut {
                    Cut::Done { stop } => ReaderState::Reply(place, stop),
                    _ => ReaderState::Cut(place, cut),
                };
                message
            },
            (ReaderState::Reply(place, stop), _) => {
                self.state = if stop {
                    ReaderState::Exit(DrainExit::Shutdown)
                } else {
                    ReaderState::Receive(place)
                };
                None
            },
            (ReaderState::Poll, ReaderAnswer::Polled(Err(e))) => {
                if e == EINTR {
                    self.state = ReaderState::Park;
                    None
                } else {
                    self.state = ReaderState::Exit(DrainExit::Died);
                    lane.offer(
                        SourceMessage::Fatal(SourceError::ReadFailed { source: IoError::Os(e) }),
                    )
                }
            },
            (ReaderState::Poll, ReaderAnswer::Polled(Ok((source_ready, event_ready)))) => {
                self.state = if event_ready {
                    ReaderState::Clear { source_ready }
                } else {
                    Reader::leave_control(Place::Woken { source_ready })
                };
                None
            },
            (ReaderState::Clear { source_ready }, _) => {
                self.state = ReaderState::Receive(Place::Woken { source_ready });
                None
            },
            (ReaderState::Read, ReaderAnswer::Did(Answer::Read(Ok(bytes)))) => {
                if bytes.len() == 0 {
                    self.state = ReaderState::Park;
                    None
                } else {
                    self.state = ReaderState::Receive(Place::Between);
                    instance.take_in(lane, bytes)
                }
            },
            (ReaderState::Read, ReaderAnswer::Did(Answer::Read(Err(e)))) => {
                if e == EAGAIN {
                    self.state = ReaderState::Park;
                    None
                } else if e == EINTR {
                    self.state = ReaderState::Receive(Place::Between);
                    None
                } else {
                    self.state = ReaderState::Exit(DrainExit::Died);
                    lane.offer(
                        SourceMessage::Fatal(SourceError::ReadFailed { source: IoError::Os(e) }),
                    )
                }
            },
            _ => None,
        }
    }
}

/// No batch is answered ahead of its cut: the reader comes to an answer from
/// the end of a cut, or from a batch that a teardown has cut short, after which
/// it stops. Either way every arm of the batch has its answer.
pub proof fn law_an_answer_follows_the_cut(r: ReaderModel, i: InstanceModel, answer: ReaderAnswer)
    requires
        i.table.wf(),
        r.wf(i),
        r.fits(answer),
        r.relies_on(i, answer),
        !(r.state is Reply),
        r.next(i, answer).0.state is Reply,
    ensures
        r.next(i, answer).0.batch.ops == r.batch.ops,
        match r.state {
            ReaderState::Cut(_, cut) => cut.next(i, answer->Did_0).0 == (Cut::Done {
                stop: r.next(i, answer).0.state->Reply_1,
            }),
            ReaderState::Batch(_) => {
                &&& r.next(i, answer).0.batch.state == (BatchState::Done { preempted: true })
                &&& r.next(i, answer).0.state->Reply_1
            },
            _ => false,
        },
{
}

/// A read is always preceded by a look for requests: the reader comes to a read
/// only from a look that found none.
pub proof fn law_requests_come_ahead_of_reads(
    r: ReaderModel,
    i: InstanceModel,
    answer: ReaderAnswer,
)
    requires
        r.fits(answer),
        r.next(i, answer).0.state is Read,
    ensures
        r.state == ReaderState::Receive(Place::Between),
        answer matches ReaderAnswer::Received(None),
{
}

/// A request to stop stops the reader wherever it is found.
pub proof fn law_a_shutdown_is_obeyed_at_once(r: ReaderModel, i: InstanceModel, place: Place)
    requires
        r.state == ReaderState::Receive(place),
    ensures
        r.next(i, ReaderAnswer::Received(Some(Control::Shutdown))).0.state == ReaderState::Exit(
            DrainExit::Shutdown,
        ),
{
}

/// A fatal error ends the reader: after it the batch at hand is answered, if
/// there is one, and nothing else is sent.
pub proof fn law_a_fatal_error_ends_the_reader(
    r: ReaderModel,
    i: InstanceModel,
    answer: ReaderAnswer,
)
    requires
        i.table.wf(),
        r.wf(i),
        r.fits(answer),
        r.next(i, answer).2 matches Some(MessageModel::Fatal(_)),
    ensures
        match r.next(i, answer).0.state {
            ReaderState::Exit(_) => true,
            ReaderState::Reply(_, stop) => stop,
            _ => false,
        },
{
}

/// A reader that is to stop answers the batch at hand and stops, without a
/// further message.
pub proof fn law_a_stopping_reader_only_answers(
    r: ReaderModel,
    i: InstanceModel,
    answer: ReaderAnswer,
    place: Place,
)
    requires
        r.state == ReaderState::Reply(place, true),
    ensures
        r.next(i, answer).0 == r.to(ReaderState::Exit(DrainExit::Shutdown)),
        r.next(i, answer).1 == i,
        r.next(i, answer).2 is None,
{
}

} // verus!
