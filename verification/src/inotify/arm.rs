//! Arming: placing one watch.
//!
//! The target is opened first and its identity checked, so that the watch lands
//! on the object that was asked for. The kernel's answer decides what becomes
//! of a binding the watch already had: nothing is removed before the new
//! watch stands.

use vstd::prelude::*;

use crate::error::{
    EACCES, EBADF, EEXIST, EINVAL, ENOENT, ENOSPC, ENOTDIR, EPERM, Errno,
};
use crate::inotify::decode::{IN_DONT_FOLLOW, IN_MASK_CREATE, WATCH_MASK};
use crate::inotify::instance::{Instance, InstanceModel};
use crate::inotify::protocol::{Answer, Ask, fits};
use crate::inotify::table::{
    DrainDecision, TableModel, TableOp, law_every_operation_keeps_the_invariant,
};
use crate::watch::{WatchError, WatchId, WatchOutcome};

verus! {

/// The identity that the opened target must have.
#[derive(Clone, Copy, Debug, PartialEq, Eq, Structural)]
pub struct ExpectedObject {
    pub dev: u64,
    pub ino: u64,
}

/// Why the kernel's answer fails an arm.
pub open spec fn watch_error(err: Errno) -> WatchError {
    if err == ENOENT {
        WatchError::NotFound
    } else if err == ENOTDIR {
        WatchError::Gone
    } else if err == EACCES || err == EPERM {
        WatchError::Permission
    } else if err == ENOSPC {
        WatchError::NoSpace
    } else {
        WatchError::Io
    }
}

/// Why the kernel's answer fails an arm.
pub fn errno_to_watch_error(err: Errno) -> (r: WatchError)
    ensures
        r == watch_error(err),
{
    if err == ENOENT {
        WatchError::NotFound
    } else if err == ENOTDIR {
        WatchError::Gone
    } else if err == EACCES || err == EPERM {
        WatchError::Permission
    } else if err == ENOSPC {
        WatchError::NoSpace
    } else {
        WatchError::Io
    }
}

/// Whether the opened target is the object that was expected.
pub open spec fn is_expected(
    stat: Result<(u64, u64), Errno>,
    expected: Option<ExpectedObject>,
) -> bool {
    match expected {
        None => true,
        Some(object) => stat == Ok::<(u64, u64), Errno>((object.dev, object.ino)),
    }
}

/// Whether the opened target is the object that was expected; without an
/// expectation, anything is.
pub fn object_matches(
    stat: Result<(u64, u64), Errno>,
    expected: Option<ExpectedObject>,
) -> (r: bool)
    ensures
        r == is_expected(stat, expected),
{
    match expected {
        None => true,
        Some(object) => match stat {
            Ok((dev, ino)) => dev == object.dev && ino == object.ino,
            Err(_) => false,
        },
    }
}

/// The instance once the kernel has answered the removal of the draining `wd`:
/// an answer that there is no such watch proves that no marker is owed.
pub open spec fn after_removal(
    i: InstanceModel,
    wd: i32,
    removed: Result<(), Errno>,
) -> InstanceModel {
    if removed == Err::<(), Errno>(EINVAL) {
        i.with_table(i.table.without(wd))
    } else {
        i
    }
}

/// Takes the kernel's answer to the removal of the draining `wd`.
pub fn erase_dead_on_invalid(instance: &mut Instance, wd: i32, removed: Result<(), Errno>)
    requires
        old(instance).wf(),
        old(instance)@.table.is_draining(wd),
        removed != Err::<(), Errno>(EBADF),
    ensures
        final(instance).wf(),
        final(instance)@ == after_removal(old(instance)@, wd, removed),
{
    if let Err(e) = removed {
        if e == EINVAL {
            instance.table.erase_dead(wd);
        }
    }
}

/// Takes `anchor` out of attribution. What is returned must be done with the
/// kernel watch, and the answer handed to `erase_dead_on_invalid`.
pub fn disarm(instance: &mut Instance, anchor: WatchId) -> (r: DrainDecision)
    requires
        old(instance).wf(),
    ensures
        final(instance).wf(),
        final(instance)@ == old(instance)@.with_table(old(instance)@.table.drained(anchor)),
        r == old(instance)@.table.drain_decision(anchor),
        r matches DrainDecision::RemoveWd(wd) ==> final(instance)@.table.is_draining(wd),
{
    proof {
        if instance@.table.bound.contains_key(anchor) {
            assert(instance@.table.attributes(instance@.table.bound[anchor], anchor));
        }
    }
    instance.table.begin_drain(anchor)
}

/// The mask of the first attempt: symlinks need no guarding on a target that is
/// open already, and an inode that is watched already is refused.
pub open spec fn create_mask() -> u32 {
    WATCH_MASK & !IN_DONT_FOLLOW
}

/// The mask of the second attempt: an inode that is watched already yields its
/// descriptor.
pub open spec fn update_mask() -> u32 {
    create_mask() & !IN_MASK_CREATE
}

/// How far an arm has come.
#[derive(Clone, Copy, Debug, PartialEq, Eq, Structural)]
pub enum ArmState {
    /// The target is being opened.
    Open,
    /// The opened target's identity is being read.
    Stat,
    /// A watch of its own is being added.
    Add,
    /// The inode is watched already; its descriptor is being asked for.
    AddAgain,
    /// The second attempt made a watch of its own after all, which is being
    /// removed.
    Refuse(i32),
    /// The watch stands on `wd`; the kernel watch `old`, which it has left
    /// behind, is being removed.
    Supersede { old: i32, wd: i32, fresh: bool },
    /// The arm has ended.
    Done(WatchOutcome),
}

/// One arm under way.
#[derive(Clone, Copy, Debug, PartialEq, Eq, Structural)]
pub struct Arming {
    pub watch: WatchId,
    pub expected: Option<ExpectedObject>,
    pub state: ArmState,
}

impl Arming {
    /// What the arm waits for.
    pub open spec fn ask_spec(self) -> Ask {
        match self.state {
            ArmState::Open => Ask::Open,
            ArmState::Stat => Ask::Stat,
            ArmState::Add => Ask::Add(create_mask()),
            ArmState::AddAgain => Ask::Add(update_mask()),
            ArmState::Refuse(wd) => Ask::Remove(wd),
            ArmState::Supersede { old, .. } => Ask::Remove(old),
            ArmState::Done(_) => Ask::Nothing,
        }
    }

    /// What the table is known to hold while the arm waits.
    pub open spec fn wf(self, t: TableModel) -> bool {
        match self.state {
            ArmState::Supersede { old, wd, fresh } => {
                &&& t.is_draining(old)
                &&& old != wd
                &&& !t.bound.contains_key(self.watch)
                &&& if fresh {
                    !t.entries.contains_key(wd)
                } else {
                    t.is_live(wd)
                }
            },
            _ => true,
        }
    }

    /// What the kernel's answer is relied on for: a watch of its own comes on a
    /// descriptor that is not mapped, neither attempt ever lands on one that is
    /// draining, and the instance in use is open.
    pub open spec fn relies_on(self, t: TableModel, answer: Answer) -> bool {
        match (self.state, answer) {
            (ArmState::Add, Answer::Added(Ok(wd))) => !t.entries.contains_key(wd),
            (ArmState::AddAgain, Answer::Added(Ok(wd))) => !t.is_draining(wd),
            (ArmState::Supersede { .. }, Answer::Removed(Err(e))) => e != EBADF,
            _ => true,
        }
    }

    /// The arm in another state.
    pub open spec fn to(self, state: ArmState) -> Arming {
        Arming { state, ..self }
    }

    /// The arm once it has failed.
    pub open spec fn failed(self, error: WatchError) -> Arming {
        self.to(ArmState::Done(WatchOutcome::Failed(error)))
    }

    /// The arm and the instance once the watch is bound to `wd`.
    pub open spec fn bound(self, i: InstanceModel, wd: i32, fresh: bool) -> (
        Arming,
        InstanceModel,
    ) {
        if fresh {
            (
                self.to(ArmState::Done(WatchOutcome::Installed(wd))),
                i.with_table(i.table.registered(wd, self.watch)),
            )
        } else {
            (
                self.to(ArmState::Done(WatchOutcome::Aliased(wd))),
                i.with_table(i.table.aliased(wd, self.watch)),
            )
        }
    }

    /// The arm and the instance once the kernel has granted `wd`: a binding to
    /// another descriptor is left first, and where it was that descriptor's
    /// last, its kernel watch must go.
    pub open spec fn granted(self, i: InstanceModel, wd: i32, fresh: bool) -> (
        Arming,
        InstanceModel,
    ) {
        let t = i.table;
        if t.bound.contains_key(self.watch) && t.bound[self.watch] != wd {
            let left = i.with_table(t.drained(self.watch));
            match t.drain_decision(self.watch) {
                DrainDecision::RemoveWd(old) => (
                    self.to(ArmState::Supersede { old, wd, fresh }),
                    left,
                ),
                DrainDecision::KeepWd => self.bound(left, wd, fresh),
            }
        } else {
            self.bound(i, wd, fresh)
        }
    }

    /// The arm and the instance after an answer.
    pub open spec fn next(self, i: InstanceModel, answer: Answer) -> (Arming, InstanceModel) {
        match (self.state, answer) {
            (ArmState::Open, Answer::Opened(Err(e))) => (self.failed(watch_error(e)), i),
            (ArmState::Open, Answer::Opened(Ok(_))) => if self.expected is Some {
                (self.to(ArmState::Stat), i)
            } else {
                (self.to(ArmState::Add), i.counted())
            },
            (ArmState::Stat, Answer::Stat(stat)) => if is_expected(stat, self.expected) {
                (self.to(ArmState::Add), i.counted())
            } else {
                (self.failed(WatchError::Gone), i)
            },
            (ArmState::Add, Answer::Added(Ok(wd))) => self.granted(i, wd, true),
            (ArmState::Add, Answer::Added(Err(e))) => if e == EEXIST {
                (self.to(ArmState::AddAgain), i.counted())
            } else {
                (self.failed(watch_error(e)), i)
            },
            (ArmState::AddAgain, Answer::Added(Ok(wd))) => if i.table.is_live(wd) {
                self.granted(i, wd, false)
            } else {
                (self.to(ArmState::Refuse(wd)), i)
            },
            (ArmState::AddAgain, Answer::Added(Err(e))) => (self.failed(watch_error(e)), i),
            (ArmState::Refuse(_), _) => (self.failed(WatchError::Io), i),
            (ArmState::Supersede { old, wd, fresh }, Answer::Removed(removed)) => self.bound(
                after_removal(i, old, removed),
                wd,
                fresh,
            ),
            _ => (self, i),
        }
    }

    /// An arm of `watch`, at its start.
    pub fn new(watch: WatchId, expected: Option<ExpectedObject>) -> (r: Arming)
        ensures
            r == (Arming { watch, expected, state: ArmState::Open }),
    {
        Arming { watch, expected, state: ArmState::Open }
    }

    /// Whether the answer is what the kernel is relied on for.
    pub fn accepts(&self, instance: &Instance, answer: Answer) -> (r: bool)
        ensures
            r == self.relies_on(instance@.table, answer),
    {
        match (self.state, answer) {
            (ArmState::Add, Answer::Added(Ok(wd))) => !instance.table.contains(wd),
            (ArmState::AddAgain, Answer::Added(Ok(wd))) => !instance.table.contains(wd)
                || instance.table.is_live(wd),
            (ArmState::Supersede { .. }, Answer::Removed(Err(e))) => e != EBADF,
            _ => true,
        }
    }

    /// What the arm waits for.
    pub fn ask(&self) -> (r: Ask)
        ensures
            r == self.ask_spec(),
    {
        match self.state {
            ArmState::Open => Ask::Open,
            ArmState::Stat => Ask::Stat,
            ArmState::Add => Ask::Add(WATCH_MASK & !IN_DONT_FOLLOW),
            ArmState::AddAgain => Ask::Add(WATCH_MASK & !IN_DONT_FOLLOW & !IN_MASK_CREATE),
            ArmState::Refuse(wd) => Ask::Remove(wd),
            ArmState::Supersede { old, .. } => Ask::Remove(old),
            ArmState::Done(_) => Ask::Nothing,
        }
    }

    /// Binds the watch to `wd` and ends the arm.
    fn bind(&mut self, instance: &mut Instance, wd: i32, fresh: bool)
        requires
            old(instance).wf(),
            if fresh {
                old(instance)@.table.can_register(wd, old(self).watch)
            } else {
                old(instance)@.table.can_alias(wd, old(self).watch)
            },
        ensures
            final(instance).wf(),
            (*final(self), final(instance)@) == old(self).bound(old(instance)@, wd, fresh),
    {
        if fresh {
            instance.table.register(wd, self.watch);
            self.state = ArmState::Done(WatchOutcome::Installed(wd));
        } else {
            instance.table.alias(wd, self.watch);
            self.state = ArmState::Done(WatchOutcome::Aliased(wd));
        }
    }

    /// Takes the descriptor that the kernel granted.
    fn grant(&mut self, instance: &mut Instance, wd: i32, fresh: bool)
        requires
            old(instance).wf(),
            if fresh {
                !old(instance)@.table.entries.contains_key(wd)
            } else {
                old(instance)@.table.is_live(wd)
            },
        ensures
            final(instance).wf(),
            (*final(self), final(instance)@) == old(self).granted(old(instance)@, wd, fresh),
            final(self).wf(final(instance)@.table),
    {
        let ghost t = instance.table@;
        proof {
            if t.bound.contains_key(self.watch) {
                assert(t.attributes(t.bound[self.watch], self.watch));
            }
            if t.entries.contains_key(wd) {
                assert(t.drained(self.watch).is_live(wd) || t.bound[self.watch] == wd);
            }
        }
        match instance.table.wd_of(self.watch) {
            Some(bound) => {
                if bound != wd {
                    match instance.table.begin_drain(self.watch) {
                        DrainDecision::RemoveWd(old) => {
                            self.state = ArmState::Supersede { old, wd, fresh };
                            return ;
                        },
                        DrainDecision::KeepWd => {},
                    }
                }
            },
            None => {},
        }
        self.bind(instance, wd, fresh);
    }

    /// Takes an answer.
    pub fn step(&mut self, instance: &mut Instance, answer: Answer)
        requires
            old(instance).wf(),
            old(self).wf(old(instance)@.table),
            fits(old(self).ask_spec(), answer),
            old(self).relies_on(old(instance)@.table, answer),
        ensures
            final(instance).wf(),
            final(self).wf(final(instance)@.table),
            (*final(self), final(instance)@) == old(self).next(old(instance)@, answer),
    {
        match (self.state, answer) {
            (ArmState::Open, Answer::Opened(Err(e))) => {
                self.state = ArmState::Done(WatchOutcome::Failed(errno_to_watch_error(e)));
            },
            (ArmState::Open, Answer::Opened(Ok(_))) => {
                if self.expected.is_some() {
                    self.state = ArmState::Stat;
                } else {
                    instance.count_add();
                    self.state = ArmState::Add;
                }
            },
            (ArmState::Stat, Answer::Stat(stat)) => {
                if object_matches(stat, self.expected) {
                    instance.count_add();
                    self.state = ArmState::Add;
                } else {
                    self.state = ArmState::Done(WatchOutcome::Failed(WatchError::Gone));
                }
            },
            (ArmState::Add, Answer::Added(Ok(wd))) => {
                self.grant(instance, wd, true);
            },
            (ArmState::Add, Answer::Added(Err(e))) => {
                if e == EEXIST {
                    instance.count_add();
                    self.state = ArmState::AddAgain;
                } else {
                    self.state = ArmState::Done(WatchOutcome::Failed(errno_to_watch_error(e)));
                }
            },
            (ArmState::AddAgain, Answer::Added(Ok(wd))) => {
                if instance.table.is_live(wd) {
                    self.grant(instance, wd, false);
                } else {
                    self.state = ArmState::Refuse(wd);
                }
            },
            (ArmState::AddAgain, Answer::Added(Err(e))) => {
                self.state = ArmState::Done(WatchOutcome::Failed(errno_to_watch_error(e)));
            },
            (ArmState::Refuse(_), _) => {
                self.state = ArmState::Done(WatchOutcome::Failed(WatchError::Io));
            },
            (ArmState::Supersede { old, wd, fresh }, Answer::Removed(removed)) => {
                erase_dead_on_invalid(instance, old, removed);
                self.bind(instance, wd, fresh);
            },
            _ => {},
        }
    }
}

impl Arming {
    /// Whether the answers, one after the other, are what the arm asks for and
    /// relies on.
    pub open spec fn served(self, i: InstanceModel, answers: Seq<Answer>) -> bool
        decreases answers.len(),
    {
        answers.len() == 0 || {
            let (a, j) = self.next(i, answers.first());
            &&& fits(self.ask_spec(), answers.first())
            &&& self.relies_on(i.table, answers.first())
            &&& a.served(j, answers.drop_first())
        }
    }

    /// The arm and the instance after the answers.
    pub open spec fn run(self, i: InstanceModel, answers: Seq<Answer>) -> (Arming, InstanceModel)
        decreases answers.len(),
    {
        if answers.len() == 0 {
            (self, i)
        } else {
            let (a, j) = self.next(i, answers.first());
            a.run(j, answers.drop_first())
        }
    }

    /// How many answers are left to come, at most.
    pub open spec fn answers_left(self) -> nat {
        match self.state {
            ArmState::Open => 5,
            ArmState::Stat => 4,
            ArmState::Add => 3,
            ArmState::AddAgain => 2,
            ArmState::Refuse(_) => 1,
            ArmState::Supersede { .. } => 1,
            ArmState::Done(_) => 0,
        }
    }

    /// How many attempts are left to count, at most.
    pub open spec fn adds_left(self) -> nat {
        match self.state {
            ArmState::Open | ArmState::Stat => 2,
            ArmState::Add => 1,
            _ => 0,
        }
    }

    /// What has become of the table `t` that the arm started with: it is
    /// untouched until the kernel has granted a descriptor, and afterwards the
    /// watch is bound there and every other watch where it was.
    pub open spec fn explains(self, t: TableModel, now: TableModel) -> bool {
        match self.state {
            ArmState::Supersede { .. } => now == t.drained(self.watch),
            ArmState::Done(WatchOutcome::Installed(wd)) | ArmState::Done(
                WatchOutcome::Aliased(wd),
            ) => {
                &&& now.bound.contains_key(self.watch)
                &&& now.bound[self.watch] == wd
                &&& forall|b: WatchId|
                    b != self.watch ==> (#[trigger] now.bound.contains_key(b)
                        <==> t.bound.contains_key(b))
                &&& forall|b: WatchId|
                    b != self.watch && #[trigger] t.bound.contains_key(b) ==> now.bound[b]
                        == t.bound[b]
            },
            _ => now == t,
        }
    }
}

/// An arm keeps the table's invariant at every step.
pub proof fn law_an_arm_keeps_the_invariant(arming: Arming, i: InstanceModel, answer: Answer)
    requires
        i.table.wf(),
        arming.wf(i.table),
        arming.relies_on(i.table, answer),
    ensures
        arming.next(i, answer).1.table.wf(),
        arming.next(i, answer).0.wf(arming.next(i, answer).1.table),
{
    let t = i.table;
    let w = arming.watch;
    let left = t.drained(w);
    if t.bound.contains_key(w) {
        assert(t.attributes(t.bound[w], w));
    }
    law_every_operation_keeps_the_invariant(t, TableOp::Drain(w));
    match (arming.state, answer) {
        (ArmState::Add, Answer::Added(Ok(wd))) => {
            if t.bound.contains_key(w) {
                law_every_operation_keeps_the_invariant(left, TableOp::Register(wd, w));
            } else {
                law_every_operation_keeps_the_invariant(t, TableOp::Register(wd, w));
            }
        },
        (ArmState::AddAgain, Answer::Added(Ok(wd))) => {
            if t.is_live(wd) {
                if t.bound.contains_key(w) && t.bound[w] != wd {
                    law_every_operation_keeps_the_invariant(left, TableOp::Alias(wd, w));
                } else {
                    law_every_operation_keeps_the_invariant(t, TableOp::Alias(wd, w));
                }
            }
        },
        (ArmState::Supersede { old, wd, fresh }, Answer::Removed(removed)) => {
            law_every_operation_keeps_the_invariant(t, TableOp::EraseDead(old));
            let after = after_removal(i, old, removed).table;
            if fresh {
                law_every_operation_keeps_the_invariant(after, TableOp::Register(wd, w));
            } else {
                law_every_operation_keeps_the_invariant(after, TableOp::Alias(wd, w));
            }
        },
        _ => {},
    }
}

/// An arm ends within five answers.
pub proof fn law_an_arm_ends(arming: Arming, i: InstanceModel, answers: Seq<Answer>)
    requires
        arming.served(i, answers),
    ensures
        answers.len() + arming.run(i, answers).0.answers_left() <= arming.answers_left(),
    decreases answers.len(),
{
    if answers.len() > 0 {
        let (a, j) = arming.next(i, answers.first());
        law_an_arm_ends(a, j, answers.drop_first());
    }
}

/// An arm makes at most two attempts to add a watch, and each is counted.
pub proof fn law_an_arm_counts_at_most_two_attempts(
    arming: Arming,
    i: InstanceModel,
    answers: Seq<Answer>,
)
    requires
        arming.served(i, answers),
    ensures
        arming.run(i, answers).1.alloc_cursor + arming.run(i, answers).0.adds_left()
            <= i.alloc_cursor + arming.adds_left(),
        arming.run(i, answers).1.alloc_cursor >= i.alloc_cursor,
        arming.run(i, answers).1.threshold == i.threshold,
        arming.adds_left() <= 2,
    decreases answers.len(),
{
    if answers.len() > 0 {
        let (a, j) = arming.next(i, answers.first());
        law_an_arm_counts_at_most_two_attempts(a, j, answers.drop_first());
    }
}

/// An arm does what it reports: where it ends in `Installed(wd)` or
/// `Aliased(wd)` the watch is bound to `wd`, where it fails the table is what
/// it was, and in both cases no other watch's binding has changed.
pub proof fn law_an_arm_does_what_it_reports(
    start: TableModel,
    arming: Arming,
    i: InstanceModel,
    answers: Seq<Answer>,
)
    requires
        start.wf(),
        arming.wf(i.table),
        arming.explains(start, i.table),
        arming.served(i, answers),
    ensures
        arming.run(i, answers).0.wf(arming.run(i, answers).1.table),
        arming.run(i, answers).0.explains(start, arming.run(i, answers).1.table),
    decreases answers.len(),
{
    if answers.len() > 0 {
        let (a, j) = arming.next(i, answers.first());
        if start.bound.contains_key(arming.watch) {
            assert(start.attributes(start.bound[arming.watch], arming.watch));
        }
        law_every_operation_keeps_the_invariant(start, TableOp::Drain(arming.watch));
        let t = start.drained(arming.watch);
        if let Answer::Added(Ok(wd)) = answers.first() {
            assert(start.attributes(wd, arming.watch) <==> start.bound.contains_key(arming.watch)
                && start.bound[arming.watch] == wd);
            assert(t.attributes(wd, arming.watch) <==> t.bound.contains_key(arming.watch)
                && t.bound[arming.watch] == wd);
        }
        if let ArmState::Supersede { wd, .. } = arming.state {
            assert(t.attributes(wd, arming.watch) <==> t.bound.contains_key(arming.watch)
                && t.bound[arming.watch] == wd);
        }
        assert(a.wf(j.table));
        assert(a.explains(start, j.table));
        law_an_arm_does_what_it_reports(start, a, j, answers.drop_first());
    }
}

} // verus!
