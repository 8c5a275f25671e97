//! What the reader does with what it reads and with what it is asked for.

use vstd::prelude::*;

use crate::attribution::{MessageModel, buffer_forwarded, table_after_buffer};
use crate::error::{Errno, IoError, SourceError};
use crate::inotify::arm::{ArmState, Arming};
use crate::inotify::batch::{BatchModel, BatchState, ControlOp, arms};
use crate::inotify::cut::{Cut, CutProgress};
use crate::inotify::decode::decoded;
use crate::inotify::instance::InstanceModel;
use crate::inotify::protocol::{Answer, Ask, fits};
use crate::inotify::reader::{
    Control, DrainExit, Place, ReaderAnswer, ReaderAsk, ReaderModel, ReaderState,
};
use crate::inotify::renewal::Renewal;
use crate::inotify::table::{DrainDecision, TableModel, TableOp};
use crate::watch::{WatchError, WatchOutcome};

verus! {

/// Whatever is read is delivered, wherever in its work the reader reads it: the records
/// are attributed against the table as it stands, and what comes of them is offered.
/// Nothing else of the instance changes.
pub proof fn law_what_is_read_is_delivered(r: ReaderModel, i: InstanceModel, bytes: &[u8])
    requires
        r.ask() == ReaderAsk::Do(Ask::Read),
        bytes@.len() > 0,
    ensures
        ({
            let (_, j, offered) = r.next(i, ReaderAnswer::Did(Answer::Read(Ok(bytes))));
            let records = decoded(bytes@, i.order);
            &&& j == InstanceModel { table: table_after_buffer(i.table, records), ..i }
            &&& offered == buffer_forwarded(i.table, records)
        }),
{
}

/// The failure of a read or a wait.
pub open spec fn failure(e: Errno) -> MessageModel {
    MessageModel::Fatal(SourceError::ReadFailed { source: IoError::Os(e) })
}

/// Nothing but what is read is told, less what was lost and what ended the reader. A loss
/// is told where an instance takes the place of another, and where a teardown leaves a
/// queue unread behind a batch. An error is told where a read or a wait fails for good,
/// and where an instance that is to be replaced cannot be.
pub proof fn law_nothing_but_what_is_read_is_told(
    r: ReaderModel,
    i: InstanceModel,
    answer: ReaderAnswer,
)
    requires
        r.fits(answer),
        !(answer matches ReaderAnswer::Did(Answer::Read(Ok(bytes))) && bytes@.len() > 0),
    ensures
        r.next(i, answer).2 == match (r.state, answer) {
            (_, ReaderAnswer::Did(Answer::Replaced)) => Some(MessageModel::Overflow),
            (ReaderState::Cut(_, _), ReaderAnswer::Did(Answer::Shutdown(true))) => Some(
                MessageModel::Overflow,
            ),
            (ReaderState::Cut(_, Cut::Read(_)), ReaderAnswer::Did(Answer::Read(Err(e)))) => if e
                == Errno::Again || e == Errno::Intr {
                None
            } else {
                Some(failure(e))
            },
            (ReaderState::Read, ReaderAnswer::Did(Answer::Read(Err(e)))) => if e == Errno::Again
                || e == Errno::Intr {
                None
            } else {
                Some(failure(e))
            },
            (ReaderState::Poll, ReaderAnswer::Polled(Err(e))) => if e == Errno::Intr {
                None
            } else {
                Some(failure(e))
            },
            (ReaderState::Cut(_, _), ReaderAnswer::Did(Answer::Created(Err(e)))) => Some(
                MessageModel::Fatal(e),
            ),
            _ => None,
        },
{
}

/// The loop of the reader. It looks for requests ahead of every wait, after every wake-up
/// and ahead of every read; where there are records it reads them until the queue is
/// empty; a wake-up is cleared before requests are looked for; an interruption has it begin
/// again; and any other error ends it.
pub proof fn law_the_reader_goes_round(r: ReaderModel, i: InstanceModel, answer: ReaderAnswer)
    requires
        r.fits(answer),
        !(r.state is Batch) && !(r.state is Cut),
    ensures
        ({
            let (n, _, _) = r.next(i, answer);
            match (r.state, answer) {
                (ReaderState::Park, _) => n.state == ReaderState::Receive(Place::Guard),
                (
                    ReaderState::Receive(place),
                    ReaderAnswer::Received(Some(Control::Batch(ops))),
                ) => {
                    &&& n.state == ReaderState::Batch(place)
                    &&& n.batch.ops == ops@
                    &&& n.batch.taken == 0
                    &&& n.batch.replies.len() == 0
                    &&& n.batch.state is Check
                },
                (ReaderState::Receive(_), ReaderAnswer::Received(Some(Control::Shutdown))) =>
                    n.state == ReaderState::Exit(DrainExit::Shutdown),
                (ReaderState::Receive(Place::Guard), _) => n.state is Poll,
                (ReaderState::Receive(Place::Between), _) => n.state is Read,
                (ReaderState::Receive(Place::Woken { source_ready }), _) => n.state == if
                    source_ready {
                    ReaderState::Receive(Place::Between)
                } else {
                    ReaderState::Park
                },
                (ReaderState::Reply(place, stop), _) => n.state == if stop {
                    ReaderState::Exit(DrainExit::Shutdown)
                } else {
                    ReaderState::Receive(place)
                },
                (ReaderState::Poll, ReaderAnswer::Polled(Ok((records, woken)))) => n.state == if
                    woken {
                    ReaderState::Clear { source_ready: records }
                } else if records {
                    ReaderState::Receive(Place::Between)
                } else {
                    ReaderState::Park
                },
                (ReaderState::Poll, ReaderAnswer::Polled(Err(e))) => n.state == if e
                    == Errno::Intr {
                    ReaderState::Park
                } else {
                    ReaderState::Exit(DrainExit::Died)
                },
                (ReaderState::Clear { source_ready }, _) => n.state == ReaderState::Receive(
                    Place::Woken { source_ready },
                ),
                (ReaderState::Read, ReaderAnswer::Did(Answer::Read(Ok(bytes)))) => n.state == if
                    bytes@.len() > 0 {
                    ReaderState::Receive(Place::Between)
                } else {
                    ReaderState::Park
                },
                (ReaderState::Read, ReaderAnswer::Did(Answer::Read(Err(e)))) => n.state == if e
                    == Errno::Again {
                    ReaderState::Park
                } else if e == Errno::Intr {
                    ReaderState::Receive(Place::Between)
                } else {
                    ReaderState::Exit(DrainExit::Died)
                },
                _ => false,
            }
        }),
        !(r.state is Receive) ==> r.next(i, answer).0.batch == r.batch,
{
}

/// A batch that is at work stays with the reader until it is done, and is then cut, or
/// answered at once where a teardown has cut it short. Its replies are those that it came
/// to, and a cut changes none of them.
pub proof fn law_a_batch_is_served_to_its_end(r: ReaderModel, i: InstanceModel, a: Answer)
    requires
        r.fits(ReaderAnswer::Did(a)),
        r.state is Batch || r.state is Cut,
    ensures
        ({
            let (n, j, offered) = r.next(i, ReaderAnswer::Did(a));
            match r.state {
                ReaderState::Batch(place) => {
                    &&& (n.batch, j, offered) == r.batch.next(i, a)
                    &&& n.state == match n.batch.state {
                        BatchState::Done { preempted: true } => ReaderState::Reply(place, true),
                        BatchState::Done { preempted: false } => ReaderState::Cut(
                            place,
                            Cut::Queued,
                        ),
                        _ => ReaderState::Batch(place),
                    }
                },
                ReaderState::Cut(place, cut) => {
                    let (c, k, m) = cut.next(i, a);
                    &&& n.batch == r.batch
                    &&& (j, offered) == (k, m)
                    &&& n.state == match c {
                        Cut::Done { stop } => ReaderState::Reply(place, stop),
                        _ => ReaderState::Cut(place, c),
                    }
                },
                _ => true,
            }
        }),
{
}

/// Each operation of a batch is carried out, in order. An arm is placed for its own watch
/// and with its own expectation, behind a renewal where the instance's descriptors run
/// short, and its outcome is the next reply. A disarm takes its watch out of the table, and
/// the kernel watch is removed where nobody else is on it. Where the instance cannot be
/// renewed, the arm fails and the batch goes on.
pub proof fn law_each_operation_is_carried_out(b: BatchModel, i: InstanceModel, answer: Answer)
    requires
        0 <= b.taken <= b.ops.len(),
        b.taken > 0 || b.state is Check,
        b.state is Renew || b.state is Arm ==> b.ops[b.taken - 1] is Arm,
        fits(b.ask(), answer),
        !(b.state is Check && answer == Answer::Shutdown(true)),
    ensures
        ({
            let (n, j, _) = b.next(i, answer);
            &&& n.ops == b.ops
            &&& match b.state {
                BatchState::Check => if b.taken == b.ops.len() {
                    &&& n.state == BatchState::Done { preempted: false }
                    &&& n.replies == b.replies && j == i
                } else {
                    &&& n.taken == b.taken + 1
                    &&& n.replies == b.replies
                    &&& match b.ops[b.taken] {
                        ControlOp::Arm { watch, expected } => {
                            &&& j == i
                            &&& n.state == if i.alloc_cursor >= i.threshold {
                                BatchState::Renew(Renewal::Create)
                            } else {
                                BatchState::Arm(
                                    Arming { watch, expected, state: ArmState::Open },
                                )
                            }
                        },
                        ControlOp::Disarm(watch) => {
                            &&& j == InstanceModel {
                                table: i.table.after(TableOp::Drain(watch)),
                                ..i
                            }
                            &&& n.state == match i.table.drain_decision(watch) {
                                DrainDecision::RemoveWd(wd) => BatchState::Remove(wd),
                                DrainDecision::KeepWd => BatchState::Check,
                            }
                        },
                    }
                },
                BatchState::Arm(arming) => {
                    let (a, k) = arming.next(i, answer);
                    &&& n.taken == b.taken && j == k
                    &&& match a.state {
                        ArmState::Done(outcome) => n.state is Check && n.replies
                            == b.replies.push(outcome),
                        _ => n.state == BatchState::Arm(a) && n.replies == b.replies,
                    }
                },
                BatchState::Renew(renewal) => {
                    let (r, k, _) = renewal.next(i, answer);
                    let op = b.ops[b.taken - 1];
                    &&& n.taken == b.taken && j == k
                    &&& match r {
                        Renewal::Done => n.replies == b.replies && n.state == BatchState::Arm(
                            Arming {
                                watch: op->Arm_watch,
                                expected: op->Arm_expected,
                                state: ArmState::Open,
                            },
                        ),
                        Renewal::Refused(_) => n.state is Check && n.replies == b.replies.push(
                            WatchOutcome::Failed(WatchError::Io),
                        ),
                        _ => n.state == BatchState::Renew(r) && n.replies == b.replies,
                    }
                },
                BatchState::Remove(wd) => {
                    &&& n.taken == b.taken && n.replies == b.replies && n.state is Check
                    &&& j == if answer == Answer::Removed(Err(Errno::Inval)) {
                        InstanceModel { table: i.table.after(TableOp::EraseDead(wd)), ..i }
                    } else {
                        i
                    }
                },
                BatchState::Done { .. } => true,
            }
        }),
{
}

/// A teardown ends a batch at once: no operation is taken up any more, every arm that was
/// not has failed, and nothing of the instance changes.
pub proof fn law_a_teardown_ends_a_batch(b: BatchModel, i: InstanceModel, k: int)
    requires
        b.state is Check,
        0 <= b.taken <= b.ops.len(),
    ensures
        ({
            let (n, j, offered) = b.next(i, Answer::Shutdown(true));
            &&& n.state == BatchState::Done { preempted: true }
            &&& n.taken == b.taken && n.ops == b.ops && j == i && offered is None
            &&& b.replies.is_prefix_of(n.replies)
            &&& b.replies.len() <= k < n.replies.len() ==> n.replies[k] == WatchOutcome::Failed(
                WatchError::Io,
            )
        }),
{
    let n = b.next(i, Answer::Shutdown(true)).0;
    assert(n.replies.take(b.replies.len() as int) =~= b.replies);
}

/// A renewal creates first, then reads the dying instance until its queue is empty or 64
/// reads were made, and then replaces it. The one in its place has nothing in its table and
/// no attempt counted.
pub proof fn law_a_renewal_reads_before_it_replaces(
    renewal: Renewal,
    i: InstanceModel,
    answer: Answer,
)
    requires
        fits(renewal.ask_spec(), answer),
    ensures
        ({
            let (r, j, _) = renewal.next(i, answer);
            match (renewal, answer) {
                (Renewal::Create, Answer::Created(Ok(_))) => r == Renewal::Drain(0) && j == i,
                (Renewal::Create, Answer::Created(Err(e))) => r == Renewal::Refused(e) && j == i,
                (Renewal::Drain(reads), Answer::Read(read)) => {
                    let goes_on = match read {
                        Ok(bytes) => bytes@.len() > 0,
                        Err(e) => e == Errno::Intr,
                    };
                    &&& r == if goes_on && reads + 1 < 64 {
                        Renewal::Drain((reads + 1) as u32)
                    } else {
                        Renewal::Replace
                    }
                    &&& read is Err ==> j == i
                },
                (Renewal::Replace, _) => r is Done && j == (InstanceModel {
                    table: TableModel { entries: Map::empty(), bound: Map::empty() },
                    alloc_cursor: 0,
                    ..i
                }),
                _ => false,
            }
        }),
{
}

/// How many reads a cut makes: 4096 where the queue's length is known, and 72 where it is
/// not, or is more than the kernel can count.
pub open spec fn reads_of(progress: CutProgress) -> int {
    if progress.owed is Some {
        4096
    } else {
        72
    }
}

/// A cut reads on until the queue is empty. It gives up only where it has made all of its
/// reads or 256 of them were interrupted, and then the instance is replaced; it ends early
/// only for a teardown or an error, and the reader then stops.
pub proof fn law_a_cut_reads_on(cut: Cut, i: InstanceModel, answer: Answer)
    requires
        cut.wf(),
        fits(cut.ask_spec(), answer),
    ensures
        ({
            let (c, j, _) = cut.next(i, answer);
            let on = |p: CutProgress|
                if p.reads >= reads_of(p) {
                    c == Cut::Retire(Renewal::Create)
                } else {
                    c == Cut::Read(CutProgress { reads: (p.reads + 1) as u32, ..p })
                };
            match (cut, answer) {
                (Cut::Queued, Answer::Queued(queued)) => {
                    let owed = match queued {
                        Ok(bytes) => if bytes <= 0x7fff_ffff {
                            Some(bytes)
                        } else {
                            None
                        },
                        Err(_) => None::<u64>,
                    };
                    on(CutProgress { owed, reads: 0, interrupted: 0 }) && j == i
                },
                (Cut::Read(p), Answer::Read(Ok(bytes))) => if bytes@.len() == 0 {
                    c == (Cut::Done { stop: false }) && j == i
                } else {
                    &&& c is Forwarded
                    &&& c->Forwarded_0.reads == p.reads
                    &&& c->Forwarded_0.interrupted == p.interrupted
                    &&& c->Forwarded_0.owed is Some <==> p.owed is Some
                    &&& p.owed is Some && bytes@.len() <= p.owed->0 ==> c->Forwarded_0.owed->0
                        + bytes@.len() == p.owed->0
                    &&& p.owed is Some && bytes@.len() > p.owed->0 ==> c->Forwarded_0.owed->0 == 0
                },
                (Cut::Read(p), Answer::Read(Err(e))) => {
                    &&& j == i
                    &&& c == if e == Errno::Again {
                        Cut::Done { stop: false }
                    } else if e == Errno::Intr {
                        Cut::Interrupted(
                            CutProgress { interrupted: (p.interrupted + 1) as u32, ..p },
                        )
                    } else {
                        Cut::Done { stop: true }
                    }
                },
                (Cut::Interrupted(p), Answer::Shutdown(stop)) => {
                    &&& j == i
                    &&& if stop {
                        c == Cut::Done { stop: true }
                    } else if p.interrupted >= 256 {
                        c == Cut::Retire(Renewal::Create)
                    } else {
                        on(p)
                    }
                },
                (Cut::Forwarded(p), Answer::Shutdown(stop)) => {
                    &&& j == i
                    &&& if stop {
                        c == Cut::Done { stop: true }
                    } else {
                        on(p)
                    }
                },
                (Cut::Retire(renewal), _) => {
                    let (r, k, _) = renewal.next(i, answer);
                    &&& j == k
                    &&& c == match r {
                        Renewal::Done => Cut::Done { stop: false },
                        Renewal::Refused(_) => Cut::Done { stop: true },
                        _ => Cut::Retire(r),
                    }
                },
                _ => false,
            }
        }),
{
}

/// The arms of a batch are the operations that place a watch, and no other.
pub proof fn law_only_arms_are_counted(ops: Seq<ControlOp>, op: ControlOp)
    ensures
        arms(Seq::empty()) == 0,
        arms(ops.push(op)) == arms(ops) + (match op {
            ControlOp::Arm { .. } => 1int,
            ControlOp::Disarm(_) => 0int,
        }),
{
    assert(ops.push(op).drop_last() =~= ops);
}

/// What the reader and its work ask for in each of their states.
pub proof fn law_the_reader_asks_for_what_it_needs(r: ReaderModel)
    ensures
        r.ask() == match r.state {
            ReaderState::Park => ReaderAsk::Park,
            ReaderState::Receive(_) => ReaderAsk::Receive,
            ReaderState::Batch(_) => ReaderAsk::Do(
                match r.batch.state {
                    BatchState::Check => Ask::Shutdown,
                    BatchState::Renew(renewal) => renewal_needs(renewal),
                    BatchState::Arm(arming) => arming.ask_spec(),
                    BatchState::Remove(wd) => Ask::Remove(wd),
                    BatchState::Done { .. } => Ask::Nothing,
                },
            ),
            ReaderState::Cut(_, cut) => ReaderAsk::Do(
                match cut {
                    Cut::Queued => Ask::Queued,
                    Cut::Read(_) => Ask::Read,
                    Cut::Interrupted(_) => Ask::Shutdown,
                    Cut::Forwarded(_) => Ask::Shutdown,
                    Cut::Retire(renewal) => renewal_needs(renewal),
                    Cut::Done { .. } => Ask::Nothing,
                },
            ),
            ReaderState::Reply(_, _) => ReaderAsk::Reply,
            ReaderState::Poll => ReaderAsk::Poll,
            ReaderState::Clear { .. } => ReaderAsk::Clear,
            ReaderState::Read => ReaderAsk::Do(Ask::Read),
            ReaderState::Exit(_) => ReaderAsk::Exit,
        },
{
}

/// What a renewal needs: first a replacement, then what is queued, and then the exchange.
pub open spec fn renewal_needs(renewal: Renewal) -> Ask {
    match renewal {
        Renewal::Create => Ask::Create,
        Renewal::Drain(_) => Ask::Read,
        Renewal::Replace => Ask::Replace,
        Renewal::Done => Ask::Nothing,
        Renewal::Refused(_) => Ask::Nothing,
    }
}

} // verus!
