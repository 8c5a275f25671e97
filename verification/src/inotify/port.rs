//! The caller's side of a batch: what is handed back, once and in any case.

use vstd::prelude::*;

use crate::inotify::batch::{ControlOp, arms, failed_arm_reply, untried};
use crate::watch::WatchOutcome;

verus! {

/// What a caller gets back for a batch.
#[derive(Debug, PartialEq, Eq)]
pub struct BatchOutcome {
    /// The outcome of each arm, in order.
    pub replies: Vec<WatchOutcome>,
    /// Whether the reader answered; otherwise it is gone.
    pub answered: bool,
}

/// Counts the arms of a batch.
pub fn arm_count(ops: &Vec<ControlOp>) -> (r: usize)
    ensures
        r == arms(ops@),
{
    let mut count: usize = 0;
    let mut i: usize = 0;
    assert(ops@.take(0) =~= Seq::empty());
    while i < ops.len()
        invariant
            i <= ops@.len(),
            count <= i,
            count == arms(ops@.take(i as int)),
        decreases ops@.len() - i,
    {
        assert(ops@.take(i + 1).drop_last() =~= ops@.take(i as int));
        if matches!(ops[i], ControlOp::Arm { .. }) {
            count = count + 1;
        }
        i = i + 1;
    }
    assert(ops@.take(i as int) =~= ops@);
    count
}

/// What comes of a batch whose reader is gone: every arm has failed.
pub fn dead_batch(arm_count: usize) -> (r: BatchOutcome)
    ensures
        !r.answered,
        r.replies@ == Seq::new(arm_count as nat, |i: int| untried()),
{
    let mut replies: Vec<WatchOutcome> = Vec::new();
    let mut i: usize = 0;
    while i < arm_count
        invariant
            i <= arm_count,
            replies@ =~= Seq::new(i as nat, |i: int| untried()),
        decreases arm_count - i,
    {
        replies.push(failed_arm_reply());
        i = i + 1;
    }
    BatchOutcome { replies, answered: false }
}

/// The obligation to hand a batch's outcome back.
#[derive(Debug)]
pub struct BatchReply {
    arm_count: usize,
    owed: bool,
}

/// What a `BatchReply` stands for.
pub struct ReplyModel {
    pub arm_count: usize,
    /// Whether the outcome is still to be handed back.
    pub owed: bool,
}

impl View for BatchReply {
    type V = ReplyModel;

    closed spec fn view(&self) -> ReplyModel {
        ReplyModel { arm_count: self.arm_count, owed: self.owed }
    }
}

impl BatchReply {
    /// The obligation for a batch of `arm_count` arms.
    pub fn new(arm_count: usize) -> (r: BatchReply)
        ensures
            r@ == (ReplyModel { arm_count, owed: true }),
    {
        BatchReply { arm_count, owed: true }
    }

    /// Hands the reader's replies back, unless the outcome has been handed back
    /// before.
    pub fn answer(&mut self, replies: Vec<WatchOutcome>) -> (r: Option<BatchOutcome>)
        ensures
            final(self)@ == (ReplyModel { owed: false, ..old(self)@ }),
            old(self)@.owed ==> r == Some(BatchOutcome { replies, answered: true }),
            !old(self)@.owed ==> r is None,
    {
        if self.owed {
            self.owed = false;
            Some(BatchOutcome { replies, answered: true })
        } else {
            None
        }
    }

    /// Hands back that the reader is gone, unless the outcome has been handed
    /// back before. An obligation that is given up must come through here.
    pub fn abandon(&mut self) -> (r: Option<BatchOutcome>)
        ensures
            final(self)@ == (ReplyModel { owed: false, ..old(self)@ }),
            match r {
                Some(outcome) => old(self)@.owed && !outcome.answered && outcome.replies@
                    == Seq::new(old(self)@.arm_count as nat, |i: int| untried()),
                None => !old(self)@.owed,
            },
    {
        if self.owed {
            self.owed = false;
            Some(dead_batch(self.arm_count))
        } else {
            None
        }
    }
}

impl ReplyModel {
    /// How often an outcome is handed back over this many calls, whether they
    /// answer or abandon.
    pub open spec fn handed_back(self, calls: nat) -> nat
        decreases calls,
    {
        if calls == 0 {
            0
        } else {
            (if self.owed {
                1nat
            } else {
                0nat
            }) + (ReplyModel { owed: false, ..self }).handed_back((calls - 1) as nat)
        }
    }
}

/// A batch's outcome is handed back exactly once, by whatever call comes first:
/// never twice, and not at all only where no call is made.
pub proof fn law_a_batch_is_answered_exactly_once(reply: ReplyModel, calls: nat)
    requires
        reply.owed,
        calls > 0,
    ensures
        reply.handed_back(calls) == 1,
{
    lemma_nothing_more_is_handed_back(ReplyModel { owed: false, ..reply }, (calls - 1) as nat);
}

proof fn lemma_nothing_more_is_handed_back(reply: ReplyModel, calls: nat)
    requires
        !reply.owed,
    ensures
        reply.handed_back(calls) == 0,
    decreases calls,
{
    if calls > 0 {
        lemma_nothing_more_is_handed_back(reply, (calls - 1) as nat);
    }
}

} // verus!
