//! Renewal: putting a fresh instance in the place of the one in use.
//!
//! The replacement is created first, so that a renewal which cannot get one
//! changes nothing. What the dying instance still has queued is read and
//! forwarded next, as far as a bounded number of reads goes. Then the fresh
//! instance takes over with an empty table, and one loss signal covers
//! whatever was left unread.

use vstd::prelude::*;

use crate::attribution::{MessageModel, SourceMessage, message_view};
use crate::error::{EINTR, SourceError};
use crate::inotify::instance::{Instance, InstanceModel};
use crate::inotify::protocol::{Answer, Ask, fits};
use crate::lane::{Lane, one_of, passed};

verus! {

/// How many reads a dying instance gets.
pub const MAX_SWAP_DRAIN_READS: u32 = 64;

/// One renewal under way.
#[derive(Clone, Copy, Debug, PartialEq, Eq, Structural)]
pub enum Renewal {
    /// The replacement is being created.
    Create,
    /// The dying instance is being read, after this many reads.
    Drain(u32),
    /// The replacement is being put in place.
    Replace,
    /// The replacement is in use.
    Done,
    /// There is no replacement, and nothing has changed.
    Refused(SourceError),
}

impl Renewal {
    /// What the renewal waits for.
    pub open spec fn ask_spec(self) -> Ask {
        match self {
            Renewal::Create => Ask::Create,
            Renewal::Drain(_) => Ask::Read,
            Renewal::Replace => Ask::Replace,
            Renewal::Done | Renewal::Refused(_) => Ask::Nothing,
        }
    }

    /// The renewal once one more read has been made after `reads` of them.
    pub open spec fn counted(reads: u32) -> Renewal {
        if reads + 1 >= MAX_SWAP_DRAIN_READS {
            Renewal::Replace
        } else {
            Renewal::Drain((reads + 1) as u32)
        }
    }

    /// The renewal, the instance and the message offered to the lane after an
    /// answer.
    pub open spec fn next(self, i: InstanceModel, answer: Answer) -> (
        Renewal,
        InstanceModel,
        Option<MessageModel>,
    ) {
        match (self, answer) {
            (Renewal::Create, Answer::Created(Err(e))) => (Renewal::Refused(e), i, None),
            (Renewal::Create, Answer::Created(Ok(_))) => (Renewal::Drain(0), i, None),
            (Renewal::Drain(reads), Answer::Read(Ok(bytes))) => if bytes@.len() == 0 {
                (Renewal::Replace, i, None)
            } else {
                (Renewal::counted(reads), i.after_read(bytes@), i.sends_for(bytes@))
            },
            (Renewal::Drain(reads), Answer::Read(Err(e))) => if e == EINTR {
                (Renewal::counted(reads), i, None)
            } else {
                (Renewal::Replace, i, None)
            },
            (Renewal::Replace, _) => (
                Renewal::Done,
                i.renewed(),
                Some(MessageModel::Overflow),
            ),
            _ => (self, i, None),
        }
    }

    /// What the renewal waits for.
    pub fn ask(&self) -> (r: Ask)
        ensures
            r == self.ask_spec(),
    {
        match self {
            Renewal::Create => Ask::Create,
            Renewal::Drain(_) => Ask::Read,
            Renewal::Replace => Ask::Replace,
            Renewal::Done | Renewal::Refused(_) => Ask::Nothing,
        }
    }

    /// Takes an answer, and returns the message to put on the queue, if any.
    pub fn step(
        &mut self,
        instance: &mut Instance,
        lane: &mut Lane,
        answer: Answer,
    ) -> (r: Option<SourceMessage>)
        requires
            old(instance).wf(),
            fits(old(self).ask_spec(), answer),
        ensures
            final(instance).wf(),
            ({
                let (next, after, offered) = old(self).next(old(instance)@, answer);
                &&& *final(self) == next
                &&& final(instance)@ == after
                &&& (*final(lane), message_view(r)) == passed(*old(lane), offered)
            }),
    {
        match (*self, answer) {
            (Renewal::Create, Answer::Created(created)) => {
                match created {
                    Ok(_) => {
                        *self = Renewal::Drain(0);
                    },
                    Err(e) => {
                        *self = Renewal::Refused(e);
                    },
                }
                None
            },
            (Renewal::Drain(reads), Answer::Read(Ok(bytes))) => {
                if bytes.len() == 0 {
                    *self = Renewal::Replace;
                    None
                } else {
                    *self = Renewal::count(reads);
                    instance.take_in(lane, bytes)
                }
            },
            (Renewal::Drain(reads), Answer::Read(Err(e))) => {
                if e == EINTR {
                    *self = Renewal::count(reads);
                } else {
                    *self = Renewal::Replace;
                }
                None
            },
            (Renewal::Replace, _) => {
                instance.renew();
                *self = Renewal::Done;
                lane.offer(SourceMessage::Overflow)
            },
            _ => None,
        }
    }

    /// Counts one more read.
    fn count(reads: u32) -> (r: Renewal)
        ensures
            r == Renewal::counted(reads),
    {
        if reads >= MAX_SWAP_DRAIN_READS - 1 {
            Renewal::Replace
        } else {
            Renewal::Drain(reads + 1)
        }
    }

    /// Whether the answers, one after the other, are what the renewal asks for.
    pub open spec fn served(self, i: InstanceModel, answers: Seq<Answer>) -> bool
        decreases answers.len(),
    {
        answers.len() == 0 || {
            let (r, j, _) = self.next(i, answers.first());
            fits(self.ask_spec(), answers.first()) && r.served(j, answers.drop_first())
        }
    }

    /// The renewal, the instance and the messages offered to the lane after the
    /// answers.
    pub open spec fn run(self, i: InstanceModel, answers: Seq<Answer>) -> (
        Renewal,
        InstanceModel,
        Seq<MessageModel>,
    )
        decreases answers.len(),
    {
        if answers.len() == 0 {
            (self, i, Seq::empty())
        } else {
            let (r, j, m) = self.next(i, answers.first());
            let (end, k, rest) = r.run(j, answers.drop_first());
            (end, k, one_of(m) + rest)
        }
    }

    /// How many answers are left to come, at most.
    pub open spec fn answers_left(self) -> nat {
        match self {
            Renewal::Create => (MAX_SWAP_DRAIN_READS + 2) as nat,
            Renewal::Drain(reads) => if reads >= MAX_SWAP_DRAIN_READS {
                2
            } else {
                (MAX_SWAP_DRAIN_READS - reads + 1) as nat
            },
            Renewal::Replace => 1,
            Renewal::Done | Renewal::Refused(_) => 0,
        }
    }
}

/// A renewal ends within a bounded number of answers, whatever they are.
pub proof fn law_a_renewal_ends(renewal: Renewal, i: InstanceModel, answers: Seq<Answer>)
    requires
        renewal.served(i, answers),
    ensures
        answers.len() + renewal.run(i, answers).0.answers_left() <= renewal.answers_left(),
    decreases answers.len(),
{
    if answers.len() > 0 {
        let (r, j, _) = renewal.next(i, answers.first());
        law_a_renewal_ends(r, j, answers.drop_first());
    }
}

/// A renewal either takes place or changes nothing: where no replacement could
/// be created, the instance is untouched and nothing was offered; where it took
/// place, the instance is fresh, its threshold unchanged, and the last thing
/// that was offered is the loss signal.
pub proof fn law_a_renewal_is_all_or_nothing(i: InstanceModel, answers: Seq<Answer>)
    requires
        Renewal::Create.served(i, answers),
    ensures
        match Renewal::Create.run(i, answers) {
            (Renewal::Refused(_), j, sent) => j == i && sent.len() == 0,
            (Renewal::Done, j, sent) => j == i.renewed() && sent.len() > 0 && sent.last()
                == MessageModel::Overflow,
            _ => true,
        },
{
    if answers.len() > 0 {
        let (r, j, m) = Renewal::Create.next(i, answers.first());
        lemma_drained_renewal_replaces(r, j, answers.drop_first());
        let rest = r.run(j, answers.drop_first()).2;
        assert(one_of(m) + rest =~= rest);
    }
}

proof fn lemma_drained_renewal_replaces(renewal: Renewal, i: InstanceModel, answers: Seq<Answer>)
    requires
        renewal.served(i, answers),
        !(renewal is Create),
    ensures
        match renewal.run(i, answers) {
            (Renewal::Refused(e), j, sent) => {
                &&& renewal == Renewal::Refused(e)
                &&& answers.len() == 0
                &&& sent.len() == 0
                &&& j == i
            },
            (Renewal::Done, j, sent) => renewal is Done || {
                &&& j == i.renewed()
                &&& sent.len() > 0
                &&& sent.last() == MessageModel::Overflow
            },
            _ => true,
        },
    decreases answers.len(),
{
    if answers.len() > 0 {
        let (r, j, m) = renewal.next(i, answers.first());
        lemma_drained_renewal_replaces(r, j, answers.drop_first());
        let rest = r.run(j, answers.drop_first());
        if r is Done || r is Refused {
            reveal_with_fuel(Renewal::served, 2);
            assert(answers.drop_first().len() == 0);
            assert(one_of(m) + rest.2 =~= one_of(m));
        } else if rest.0 is Done {
            assert((one_of(m) + rest.2).last() == rest.2.last());
        }
    }
}

} // verus!
