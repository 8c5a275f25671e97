//! Carrying out a batch of arms and disarms, one after the other.
//!
//! A teardown is looked for ahead of every operation, and ends the batch there:
//! the arms that are left fail. Every arm of a batch is answered, in order.

use vstd::prelude::*;

use crate::attribution::{
    MessageModel, SourceMessage, law_a_buffer_keeps_the_invariant, message_view,
};
use crate::error::EBADF;
use crate::inotify::arm::{
    ArmState, Arming, ExpectedObject, after_removal, disarm, erase_dead_on_invalid,
    law_an_arm_keeps_the_invariant,
};
use crate::inotify::decode::decoded;
use crate::inotify::instance::{Instance, InstanceModel};
use crate::inotify::protocol::{Answer, Ask, fits};
use crate::inotify::renewal::Renewal;
use crate::inotify::table::{
    DrainDecision, TableOp, law_every_operation_keeps_the_invariant,
};
use crate::lane::{Lane, passed};
use crate::watch::{WatchError, WatchId, WatchOutcome};

verus! {

/// One operation of a batch.
#[derive(Clone, Copy, Debug, PartialEq, Eq, Structural)]
pub enum ControlOp {
    /// Place the watch; its target must have the expected identity.
    Arm { watch: WatchId, expected: Option<ExpectedObject> },
    /// End the watch.
    Disarm(WatchId),
}

/// How many of the operations are arms.
pub open spec fn arms(ops: Seq<ControlOp>) -> nat
    decreases ops.len(),
{
    if ops.len() == 0 {
        0
    } else {
        arms(ops.drop_last()) + (if ops.last() is Arm {
            1nat
        } else {
            0nat
        })
    }
}

/// The outcome of an arm that was not tried.
pub open spec fn untried() -> WatchOutcome {
    WatchOutcome::Failed(WatchError::Io)
}

/// The outcome of an arm that was not tried.
pub fn failed_arm_reply() -> (r: WatchOutcome)
    ensures
        r == untried(),
{
    WatchOutcome::Failed(WatchError::Io)
}

/// How far a batch has come with the operation at hand.
#[derive(Clone, Copy, Debug, PartialEq, Eq, Structural)]
pub enum BatchState {
    /// Whether a teardown waits is being asked, ahead of the next operation.
    Check,
    /// The instance is being renewed ahead of an arm.
    Renew(Renewal),
    /// An arm is under way.
    Arm(Arming),
    /// A kernel watch that nobody watches any more is being removed.
    Remove(i32),
    /// The batch has ended, cut short by a teardown or not.
    Done { preempted: bool },
}

/// One batch under way.
#[derive(Debug)]
pub struct Batch {
    ops: Vec<ControlOp>,
    /// How many operations have been taken up.
    taken: usize,
    replies: Vec<WatchOutcome>,
    state: BatchState,
}

/// What a `Batch` stands for.
#[verifier::ext_equal]
pub struct BatchModel {
    pub ops: Seq<ControlOp>,
    pub taken: int,
    pub replies: Seq<WatchOutcome>,
    pub state: BatchState,
}

impl View for Batch {
    type V = BatchModel;

    closed spec fn view(&self) -> BatchModel {
        BatchModel {
            ops: self.ops@,
            taken: self.taken as int,
            replies: self.replies@,
            state: self.state,
        }
    }
}

impl BatchModel {
    /// A batch of `ops`, at its start.
    pub open spec fn start(ops: Seq<ControlOp>) -> BatchModel {
        BatchModel { ops, taken: 0, replies: Seq::empty(), state: BatchState::Check }
    }

    /// What the batch waits for.
    pub open spec fn ask(self) -> Ask {
        match self.state {
            BatchState::Check => Ask::Shutdown,
            BatchState::Renew(renewal) => renewal.ask_spec(),
            BatchState::Arm(arming) => arming.ask_spec(),
            BatchState::Remove(wd) => Ask::Remove(wd),
            BatchState::Done { .. } => Ask::Nothing,
        }
    }

    /// How many operations have been dealt with.
    pub open spec fn settled(self) -> int {
        match self.state {
            BatchState::Renew(_) | BatchState::Arm(_) => self.taken - 1,
            BatchState::Done { .. } => self.ops.len() as int,
            _ => self.taken,
        }
    }

    /// The batch's invariant: every arm that has been dealt with is answered,
    /// and what is under way belongs to the last operation that was taken up.
    pub open spec fn wf(self, i: InstanceModel) -> bool {
        &&& 0 <= self.taken <= self.ops.len()
        &&& 0 <= self.settled()
        &&& self.replies.len() == arms(self.ops.take(self.settled()))
        &&& match self.state {
            BatchState::Renew(renewal) => {
                &&& self.taken > 0
                &&& self.ops[self.taken - 1] is Arm
                &&& !(renewal is Done)
                &&& !(renewal is Refused)
            },
            BatchState::Arm(arming) => {
                &&& self.taken > 0
                &&& self.ops[self.taken - 1] is Arm
                &&& arming.wf(i.table)
                &&& !(arming.state is Done)
            },
            BatchState::Remove(wd) => i.table.is_draining(wd),
            _ => true,
        }
    }

    /// What the kernel's answer is relied on for.
    pub open spec fn relies_on(self, i: InstanceModel, answer: Answer) -> bool {
        match self.state {
            BatchState::Arm(arming) => arming.relies_on(i.table, answer),
            BatchState::Remove(_) => answer matches Answer::Removed(Err(e)) ==> e != EBADF,
            _ => true,
        }
    }

    /// The batch in another state.
    pub open spec fn to(self, state: BatchState) -> BatchModel {
        BatchModel { state, ..self }
    }

    /// The batch with one more arm answered.
    pub open spec fn answered(self, outcome: WatchOutcome) -> BatchModel {
        BatchModel { replies: self.replies.push(outcome), state: BatchState::Check, ..self }
    }

    /// The batch cut short: the arms that were not taken up fail.
    pub open spec fn preempted(self) -> BatchModel {
        let left = self.ops.skip(self.taken);
        BatchModel {
            replies: self.replies + Seq::new(arms(left), |k: int| untried()),
            state: BatchState::Done { preempted: true },
            ..self
        }
    }

    /// The arm that the operation at hand asks for, at its start.
    pub open spec fn arming(self) -> Arming {
        match self.ops[self.taken - 1] {
            ControlOp::Arm { watch, expected } => Arming {
                watch,
                expected,
                state: ArmState::Open,
            },
            ControlOp::Disarm(watch) => Arming { watch, expected: None, state: ArmState::Open },
        }
    }

    /// The batch and the instance once the next operation is taken up.
    pub open spec fn take_up(self, i: InstanceModel) -> (BatchModel, InstanceModel) {
        let b = BatchModel { taken: self.taken + 1, ..self };
        match self.ops[self.taken] {
            ControlOp::Arm { .. } => if i.needs_rebuild() {
                (b.to(BatchState::Renew(Renewal::Create)), i)
            } else {
                (b.to(BatchState::Arm(b.arming())), i)
            },
            ControlOp::Disarm(watch) => {
                let left = i.with_table(i.table.drained(watch));
                match i.table.drain_decision(watch) {
                    DrainDecision::RemoveWd(wd) => (b.to(BatchState::Remove(wd)), left),
                    DrainDecision::KeepWd => (b, left),
                }
            },
        }
    }

    /// The batch, the instance and the message offered to the lane after an
    /// answer.
    pub open spec fn next(self, i: InstanceModel, answer: Answer) -> (
        BatchModel,
        InstanceModel,
        Option<MessageModel>,
    ) {
        match (self.state, answer) {
            (BatchState::Check, Answer::Shutdown(stop)) => if stop {
                (self.preempted(), i, None)
            } else if self.taken == self.ops.len() {
                (self.to(BatchState::Done { preempted: false }), i, None)
            } else {
                let (b, j) = self.take_up(i);
                (b, j, None)
            },
            (BatchState::Renew(renewal), _) => match renewal.next(i, answer) {
                (Renewal::Done, j, m) => (self.to(BatchState::Arm(self.arming())), j, m),
                (Renewal::Refused(_), j, m) => (self.answered(untried()), j, m),
                (r, j, m) => (self.to(BatchState::Renew(r)), j, m),
            },
            (BatchState::Arm(arming), _) => {
                let (a, j) = arming.next(i, answer);
                match a.state {
                    ArmState::Done(outcome) => (self.answered(outcome), j, None),
                    _ => (self.to(BatchState::Arm(a)), j, None),
                }
            },
            (BatchState::Remove(wd), Answer::Removed(removed)) => (
                self.to(BatchState::Check),
                after_removal(i, wd, removed),
                None,
            ),
            _ => (self, i, None),
        }
    }
}

proof fn lemma_arms_split(ops: Seq<ControlOp>, at: int)
    requires
        0 <= at <= ops.len(),
    ensures
        arms(ops) == arms(ops.take(at)) + arms(ops.skip(at)),
    decreases ops.len() - at,
{
    if at == ops.len() {
        assert(ops.take(at) =~= ops);
    } else {
        lemma_arms_split(ops, at + 1);
        assert(ops.take(at + 1).drop_last() =~= ops.take(at));
        lemma_arms_first(ops.skip(at));
        assert(ops.skip(at).drop_first() =~= ops.skip(at + 1));
    }
}

proof fn lemma_arms_first(ops: Seq<ControlOp>)
    requires
        ops.len() > 0,
    ensures
        arms(ops) == arms(ops.drop_first()) + (if ops.first() is Arm {
            1nat
        } else {
            0nat
        }),
    decreases ops.len(),
{
    if ops.len() > 1 {
        lemma_arms_first(ops.drop_last());
        assert(ops.drop_last().drop_first() =~= ops.drop_first().drop_last());
    } else {
        assert(ops.drop_first() =~= Seq::empty());
        assert(ops.drop_last() =~= Seq::empty());
    }
}

impl Batch {
    /// The batch's invariant.
    pub open spec fn wf(&self, i: InstanceModel) -> bool {
        self@.wf(i)
    }

    /// A batch of `ops`, at its start.
    pub fn new(ops: Vec<ControlOp>) -> (r: Batch)
        ensures
            r@ == BatchModel::start(ops@),
            forall|i: InstanceModel| r.wf(i),
    {
        let r = Batch { ops, taken: 0, replies: Vec::new(), state: BatchState::Check };
        assert(r@ =~= BatchModel::start(ops@));
        assert(ops@.take(0) =~= Seq::empty());
        r
    }

    /// What the batch waits for.
    pub fn ask(&self) -> (r: Ask)
        ensures
            r == self@.ask(),
    {
        match &self.state {
            BatchState::Check => Ask::Shutdown,
            BatchState::Renew(renewal) => renewal.ask(),
            BatchState::Arm(arming) => arming.ask(),
            BatchState::Remove(wd) => Ask::Remove(*wd),
            BatchState::Done { .. } => Ask::Nothing,
        }
    }

    /// How many operations have been taken up: the operation at hand is the
    /// last of them.
    pub fn taken(&self) -> (r: usize)
        ensures
            r == self@.taken,
    {
        self.taken
    }

    /// The answers so far, one for each arm that has been dealt with.
    pub fn replies(&self) -> (r: &[WatchOutcome])
        ensures
            r@ == self@.replies,
    {
        self.replies.as_slice()
    }

    /// Whether the batch has ended, and if so whether a teardown cut it short.
    pub fn ended(&self) -> (r: Option<bool>)
        ensures
            r == match self@.state {
                BatchState::Done { preempted } => Some(preempted),
                _ => None,
            },
    {
        match self.state {
            BatchState::Done { preempted } => Some(preempted),
            _ => None,
        }
    }

    /// Whether the answer is what the kernel is relied on for.
    pub fn accepts(&self, instance: &Instance, answer: Answer) -> (r: bool)
        ensures
            r == self@.relies_on(instance@, answer),
    {
        match (&self.state, answer) {
            (BatchState::Arm(arming), _) => arming.accepts(instance, answer),
            (BatchState::Remove(_), Answer::Removed(Err(e))) => e != EBADF,
            _ => true,
        }
    }

    /// The arm that the operation at hand asks for, at its start.
    fn start_arm(&self) -> (r: Arming)
        requires
            0 < self@.taken <= self@.ops.len(),
        ensures
            r == self@.arming(),
    {
        match self.ops[self.taken - 1] {
            ControlOp::Arm { watch, expected } => Arming::new(watch, expected),
            ControlOp::Disarm(watch) => Arming::new(watch, None),
        }
    }

    /// Fails the arms that were not taken up, and ends the batch.
    fn preempt(&mut self)
        requires
            old(self)@.taken <= old(self)@.ops.len(),
        ensures
            final(self)@ == old(self)@.preempted(),
    {
        let ghost left = self.ops@.skip(self.taken as int);
        let ghost before = self.replies@;
        let mut at: usize = self.taken;
        assert(left.take(0) =~= Seq::empty());
        while at < self.ops.len()
            invariant
                self.taken <= at <= self.ops@.len(),
                self.ops == old(self).ops,
                self.taken == old(self).taken,
                left == self.ops@.skip(self.taken as int),
                self.replies@ =~= before + Seq::new(
                    arms(left.take(at - self.taken)),
                    |k: int| untried(),
                ),
            decreases self.ops@.len() - at,
        {
            assert(left.take(at + 1 - self.taken).drop_last() =~= left.take(at - self.taken));
            assert(left.take(at + 1 - self.taken).last() == self.ops@[at as int]);
            if matches!(self.ops[at], ControlOp::Arm { .. }) {
                self.replies.push(failed_arm_reply());
            }
            at = at + 1;
        }
        self.state = BatchState::Done { preempted: true };
        assert(left.take(at - self.taken) =~= left);
        assert(self@ =~= old(self)@.preempted());
    }

    /// Answers the arm at hand.
    fn answer(&mut self, outcome: WatchOutcome)
        ensures
            final(self)@ == old(self)@.answered(outcome),
    {
        self.replies.push(outcome);
        self.state = BatchState::Check;
        assert(self@ =~= old(self)@.answered(outcome));
    }

    /// Takes up the next operation.
    fn take_up(&mut self, instance: &mut Instance)
        requires
            old(instance).wf(),
            old(self).wf(old(instance)@),
            old(self)@.state is Check,
            old(self)@.taken < old(self)@.ops.len(),
        ensures
            final(instance).wf(),
            (final(self)@, final(instance)@) == old(self)@.take_up(old(instance)@),
    {
        assert(self.taken < self.ops.len());
        let op = self.ops[self.taken];
        self.taken = self.taken + 1;
        match op {
            ControlOp::Arm { .. } => {
                if instance.needs_rebuild() {
                    self.state = BatchState::Renew(Renewal::Create);
                } else {
                    self.state = BatchState::Arm(self.start_arm());
                }
            },
            ControlOp::Disarm(watch) => {
                match disarm(instance, watch) {
                    DrainDecision::RemoveWd(wd) => {
                        self.state = BatchState::Remove(wd);
                    },
                    DrainDecision::KeepWd => {},
                }
            },
        }
        assert(self@ =~= old(self)@.take_up(old(instance)@).0);
    }

    /// Takes an answer, and returns the message to put on the queue, if any.
    pub fn step(
        &mut self,
        instance: &mut Instance,
        lane: &mut Lane,
        answer: Answer,
    ) -> (r: Option<SourceMessage>)
        requires
            old(instance).wf(),
            old(self).wf(old(instance)@),
            fits(old(self)@.ask(), answer),
            old(self)@.relies_on(old(instance)@, answer),
        ensures
            final(instance).wf(),
            final(self).wf(final(instance)@),
            ({
                let (next, after, offered) = old(self)@.next(old(instance)@, answer);
                &&& final(self)@ == next
                &&& final(instance)@ == after
                &&& (*final(lane), message_view(r)) == passed(*old(lane), offered)
            }),
    {
        proof {
            lemma_step_keeps_wf(self@, instance@, answer);
        }
        match (self.state, answer) {
            (BatchState::Check, Answer::Shutdown(stop)) => {
                if stop {
                    self.preempt();
                } else if self.taken == self.ops.len() {
                    self.state = BatchState::Done { preempted: false };
                } else {
                    self.take_up(instance);
                }
                None
            },
            (BatchState::Renew(renewal), _) => {
                let mut renewal = renewal;
                let message = renewal.step(instance, lane, answer);
                match renewal {
                    Renewal::Done => {
                        self.state = BatchState::Arm(self.start_arm());
                    },
                    Renewal::Refused(_) => {
                        self.answer(failed_arm_reply());
                    },
                    _ => {
                        self.state = BatchState::Renew(renewal);
                    },
                }
                message
            },
            (BatchState::Arm(arming), _) => {
                let mut arming = arming;
                arming.step(instance, answer);
                match arming.state {
                    ArmState::Done(outcome) => {
                        self.answer(outcome);
                    },
                    _ => {
                        self.state = BatchState::Arm(arming);
                    },
                }
                None
            },
            (BatchState::Remove(wd), Answer::Removed(removed)) => {
                erase_dead_on_invalid(instance, wd, removed);
                self.state = BatchState::Check;
                None
            },
            _ => None,
        }
    }
}

proof fn lemma_step_keeps_wf(b: BatchModel, i: InstanceModel, answer: Answer)
    requires
        i.table.wf(),
        b.wf(i),
        fits(b.ask(), answer),
        b.relies_on(i, answer),
    ensures
        b.next(i, answer).0.wf(b.next(i, answer).1),
{
    let (n, j, _) = b.next(i, answer);
    lemma_arms_split(b.ops, b.taken);
    if b.taken > 0 {
        assert(b.ops.take(b.taken).drop_last() =~= b.ops.take(b.taken - 1));
    }
    if b.taken < b.ops.len() {
        assert(b.ops.take(b.taken + 1).drop_last() =~= b.ops.take(b.taken));
    }
    assert(b.ops.take(b.ops.len() as int) =~= b.ops);
    match (b.state, answer) {
        (BatchState::Check, Answer::Shutdown(stop)) => {
            if !stop && b.taken < b.ops.len() {
                if let ControlOp::Disarm(watch) = b.ops[b.taken] {
                    if i.table.bound.contains_key(watch) {
                        assert(i.table.attributes(i.table.bound[watch], watch));
                    }
                }
            }
        },
        (BatchState::Arm(arming), _) => {
            let t = i.table;
            if t.bound.contains_key(arming.watch) {
                assert(t.attributes(t.bound[arming.watch], arming.watch));
            }
        },
        _ => {},
    }
}

impl BatchModel {
    /// Whether the answers, one after the other, are what the batch asks for
    /// and relies on.
    pub open spec fn served(self, i: InstanceModel, answers: Seq<Answer>) -> bool
        decreases answers.len(),
    {
        answers.len() == 0 || {
            let (b, j, _) = self.next(i, answers.first());
            &&& fits(self.ask(), answers.first())
            &&& self.relies_on(i, answers.first())
            &&& b.served(j, answers.drop_first())
        }
    }

    /// The batch and the instance after the answers.
    pub open spec fn run(self, i: InstanceModel, answers: Seq<Answer>) -> (
        BatchModel,
        InstanceModel,
    )
        decreases answers.len(),
    {
        if answers.len() == 0 {
            (self, i)
        } else {
            let (b, j, _) = self.next(i, answers.first());
            b.run(j, answers.drop_first())
        }
    }

    /// How many answers are left to come, at most: for each operation that was
    /// not taken up, those of a renewal, of an arm and of the look for a
    /// teardown ahead of it.
    pub open spec fn answers_left(self) -> int {
        let ahead = 73 * (self.ops.len() - self.taken) + 1;
        match self.state {
            BatchState::Check => ahead,
            BatchState::Renew(renewal) => ahead + renewal.answers_left() + 5,
            BatchState::Arm(arming) => ahead + arming.answers_left(),
            BatchState::Remove(_) => ahead + 1,
            BatchState::Done { .. } => 0,
        }
    }

    /// Whether the attempts that are counted on the instance, with those that
    /// the arm at hand may still make, stay within one of its threshold.
    pub open spec fn within_threshold(self, i: InstanceModel) -> bool {
        let left = match self.state {
            BatchState::Arm(arming) => arming.adds_left(),
            _ => 0,
        };
        i.alloc_cursor + left <= i.threshold + 1
    }
}

/// A batch that has ended has answered every one of its arms, in order and
/// whatever happened on the way, and each arm once.
pub proof fn law_every_arm_is_answered(b: BatchModel, i: InstanceModel, answers: Seq<Answer>)
    requires
        i.table.wf(),
        b.wf(i),
        b.served(i, answers),
    ensures
        b.run(i, answers).0.ops == b.ops,
        b.run(i, answers).0.state is Done ==> b.run(i, answers).0.replies.len() == arms(b.ops),
        b.replies.is_prefix_of(b.run(i, answers).0.replies),
    decreases answers.len(),
{
    assert(b.ops.take(b.ops.len() as int) =~= b.ops);
    if answers.len() > 0 {
        lemma_step_keeps_wf(b, i, answers.first());
        lemma_step_keeps_table_wf(b, i, answers.first());
        let (n, j, _) = b.next(i, answers.first());
        law_every_arm_is_answered(n, j, answers.drop_first());
        assert(b.replies.is_prefix_of(n.replies));
        let all = b.run(i, answers).0.replies;
        assert(b.replies =~= all.take(b.replies.len() as int)) by {
            assert(n.replies =~= all.take(n.replies.len() as int));
            assert forall|k: int| 0 <= k < b.replies.len() implies b.replies[k] == all[k] by {
                assert(b.replies[k] == n.replies.take(b.replies.len() as int)[k]);
                assert(n.replies[k] == all.take(n.replies.len() as int)[k]);
            }
        }
    }
}

proof fn lemma_step_keeps_table_wf(b: BatchModel, i: InstanceModel, answer: Answer)
    requires
        i.table.wf(),
        b.wf(i),
        fits(b.ask(), answer),
        b.relies_on(i, answer),
    ensures
        b.next(i, answer).1.table.wf(),
{
    match (b.state, answer) {
        (BatchState::Check, Answer::Shutdown(stop)) => {
            if !stop && b.taken < b.ops.len() {
                if let ControlOp::Disarm(watch) = b.ops[b.taken] {
                    law_every_operation_keeps_the_invariant(i.table, TableOp::Drain(watch));
                }
            }
        },
        (BatchState::Renew(_), Answer::Read(Ok(bytes))) => {
            law_a_buffer_keeps_the_invariant(i.table, decoded(bytes@, i.order));
        },
        (BatchState::Arm(arming), _) => {
            law_an_arm_keeps_the_invariant(arming, i, answer);
        },
        (BatchState::Remove(wd), Answer::Removed(_)) => {
            law_every_operation_keeps_the_invariant(i.table, TableOp::EraseDead(wd));
        },
        _ => {},
    }
}

/// The descriptors of an instance never run out over a batch: an arm starts
/// only below the threshold, so the attempts that are counted on one instance
/// stay within one of it.
pub proof fn law_attempts_stay_within_the_threshold(
    b: BatchModel,
    i: InstanceModel,
    answers: Seq<Answer>,
)
    requires
        i.threshold >= 1,
        b.within_threshold(i),
        b.served(i, answers),
    ensures
        b.run(i, answers).0.within_threshold(b.run(i, answers).1),
        b.run(i, answers).1.threshold == i.threshold,
        b.run(i, answers).1.alloc_cursor <= i.threshold + 1,
    decreases answers.len(),
{
    if answers.len() > 0 {
        let (n, j, _) = b.next(i, answers.first());
        law_attempts_stay_within_the_threshold(n, j, answers.drop_first());
    }
}

/// A batch ends within a bounded number of answers, whatever they are.
pub proof fn law_a_batch_ends(b: BatchModel, i: InstanceModel, answers: Seq<Answer>)
    requires
        i.table.wf(),
        b.wf(i),
        b.served(i, answers),
    ensures
        answers.len() + b.run(i, answers).0.answers_left() <= b.answers_left(),
    decreases answers.len(),
{
    if answers.len() > 0 {
        lemma_step_keeps_wf(b, i, answers.first());
        lemma_step_keeps_table_wf(b, i, answers.first());
        let (n, j, _) = b.next(i, answers.first());
        law_a_batch_ends(n, j, answers.drop_first());
    }
}

} // verus!
