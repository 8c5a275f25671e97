//! What each operation on the table does, and what each answer of the kernel means
//! for the watch that is being placed.

use vstd::prelude::*;

use crate::error::Errno;
use crate::inotify::arm::{ArmState, Arming, ExpectedObject, create_mask, update_mask};
use crate::inotify::instance::InstanceModel;
use crate::inotify::protocol::{Answer, Ask, fits};
use crate::inotify::table::{DrainDecision, TableModel, TableOp};
use crate::watch::{WatchError, WatchId, WatchOutcome};

verus! {

/// Whether two tables have the same entry on the descriptor, or both have none.
pub open spec fn same_at(a: TableModel, b: TableModel, wd: i32) -> bool {
    &&& a.entries.contains_key(wd) <==> b.entries.contains_key(wd)
    &&& a.entries.contains_key(wd) ==> a.entries[wd] == b.entries[wd]
}

/// Whether two tables bind the watch alike.
pub open spec fn same_for(a: TableModel, b: TableModel, watch: WatchId) -> bool {
    &&& a.bound.contains_key(watch) <==> b.bound.contains_key(watch)
    &&& a.bound.contains_key(watch) ==> a.bound[watch] == b.bound[watch]
}

/// A fresh descriptor has the one watch that it was registered for; all else stands.
pub proof fn law_a_registered_watch_is_the_only_one(t: TableModel, wd: i32, a: WatchId)
    ensures
        ({
            let n = t.after(TableOp::Register(wd, a));
            &&& n.entries.contains_key(wd)
            &&& n.entries[wd].live == seq![a]
            &&& !n.entries[wd].draining
            &&& n.bound.contains_key(a) && n.bound[a] == wd
            &&& forall|w: i32| w != wd ==> #[trigger] same_at(t, n, w)
            &&& forall|b: WatchId| b != a ==> #[trigger] same_for(t, n, b)
        }),
{
}

/// A watch that joins a descriptor comes behind those that are there, once; all else
/// stands.
pub proof fn law_an_alias_comes_behind_the_others(t: TableModel, wd: i32, a: WatchId)
    requires
        t.wf(),
        t.takes(TableOp::Alias(wd, a)),
    ensures
        ({
            let n = t.after(TableOp::Alias(wd, a));
            &&& n.entries.contains_key(wd)
            &&& n.entries[wd].live == if t.entries[wd].live.contains(a) {
                t.entries[wd].live
            } else {
                t.entries[wd].live.push(a)
            }
            &&& !n.entries[wd].draining
            &&& n.bound.contains_key(a) && n.bound[a] == wd
            &&& forall|w: i32| w != wd ==> #[trigger] same_at(t, n, w)
            &&& forall|b: WatchId| b != a ==> #[trigger] same_for(t, n, b)
        }),
{
    assert(t.attributes(wd, a) <==> t.bound.contains_key(a) && t.bound[a] == wd);
}

/// A watch that leaves leaves the others on its descriptor in their order. Where it was
/// the last one, and only then, the kernel watch is to be removed, and the descriptor
/// stays mapped and draining. A watch that is bound nowhere changes nothing.
pub proof fn law_a_watch_leaves_the_others_in_order(t: TableModel, a: WatchId)
    requires
        t.wf(),
    ensures
        ({
            let n = t.after(TableOp::Drain(a));
            if t.bound.contains_key(a) {
                let wd = t.bound[a];
                let live = t.entries[wd].live;
                &&& t.entries.contains_key(wd)
                &&& exists|k: int|
                    0 <= k < live.len() && #[trigger] live[k] == a && n.entries[wd].live
                        == live.take(k) + live.skip(k + 1)
                &&& n.entries.contains_key(wd)
                &&& n.entries[wd].draining <==> live.len() == 1
                &&& !n.bound.contains_key(a)
                &&& t.drain_decision(a) == if live.len() == 1 {
                    DrainDecision::RemoveWd(wd)
                } else {
                    DrainDecision::KeepWd
                }
                &&& forall|w: i32| w != wd ==> #[trigger] same_at(t, n, w)
                &&& forall|b: WatchId| b != a ==> #[trigger] same_for(t, n, b)
            } else {
                n == t && t.drain_decision(a) == DrainDecision::KeepWd
            }
        }),
{
    if t.bound.contains_key(a) {
        let wd = t.bound[a];
        assert(t.attributes(wd, a));
        let live = t.entries[wd].live;
        let k = live.index_of(a);
        assert(live[k] == a);
        assert(live.remove(k) =~= live.take(k) + live.skip(k + 1));
    }
}

/// The final marker of a descriptor unmaps it and unbinds its watches; proof that no
/// marker is owed unmaps a draining one; a loss unmaps all that are draining. All else
/// stands.
pub proof fn law_what_has_ended_is_unmapped(t: TableModel, wd: i32)
    ensures
        ({
            let n = t.after(TableOp::Ignored(wd));
            &&& !n.entries.contains_key(wd)
            &&& forall|w: i32| w != wd ==> #[trigger] same_at(t, n, w)
            &&& forall|b: WatchId| #[trigger]
                n.bound.contains_key(b) <==> t.bound.contains_key(b) && t.bound[b] != wd
            &&& forall|b: WatchId| #[trigger] n.bound.contains_key(b) ==> n.bound[b] == t.bound[b]
        }),
        ({
            let n = t.after(TableOp::EraseDead(wd));
            &&& !n.entries.contains_key(wd)
            &&& forall|w: i32| w != wd ==> #[trigger] same_at(t, n, w)
            &&& n.bound == t.bound
        }),
        ({
            let n = t.after(TableOp::Loss);
            &&& forall|w: i32| #[trigger]
                n.entries.contains_key(w) <==> t.entries.contains_key(w) && !t.entries[w].draining
            &&& forall|w: i32| #[trigger]
                n.entries.contains_key(w) ==> n.entries[w] == t.entries[w]
            &&& n.bound == t.bound
        }),
{
}

/// What a watch is placed with. The first attempt asks for every record that there is of
/// a directory's children and of the directory itself, of a directory only, without what
/// was unlinked, and where nothing is watched yet; the second one asks for the same where
/// something is.
pub proof fn law_a_watch_asks_for_every_record()
    ensures
        create_mask() == 0x1500_0fc6,
        update_mask() == 0x0500_0fc6,
{
    assert(0x4u32 | 0x100 | 0x200 | 0x400 | 0x2 | 0x800 | 0x40 | 0x80 | 0x100_0000 | 0x200_0000
        | 0x400_0000 | 0x1000_0000 == 0x1700_0fc6u32) by (bit_vector);
    assert(0x1700_0fc6u32 & !0x200_0000u32 == 0x1500_0fc6u32) by (bit_vector);
    assert(0x1500_0fc6u32 & !0x1000_0000u32 == 0x0500_0fc6u32) by (bit_vector);
}

/// What the kernel's refusal means.
pub open spec fn meaning(e: Errno) -> WatchError {
    match e {
        Errno::NoEnt => WatchError::NotFound,
        Errno::NotDir => WatchError::Gone,
        Errno::Acces => WatchError::Permission,
        Errno::Perm => WatchError::Permission,
        Errno::NoSpc => WatchError::NoSpace,
        _ => WatchError::Io,
    }
}

/// Whether one more attempt to add a watch is counted, and nothing else has changed.
pub open spec fn has_counted_one(i: InstanceModel, j: InstanceModel) -> bool {
    &&& j.table == i.table
    &&& j.threshold == i.threshold
    &&& j.order == i.order
    &&& j.alloc_cursor == if i.alloc_cursor == i32::MAX {
        i32::MAX as int
    } else {
        i.alloc_cursor + 1
    }
}

/// The table once the watch stands on the descriptor, alone on a fresh one or behind the
/// others on one that is in use.
pub open spec fn placed(t: TableModel, watch: WatchId, wd: i32, fresh: bool) -> TableModel {
    if fresh {
        t.after(TableOp::Register(wd, watch))
    } else {
        t.after(TableOp::Alias(wd, watch))
    }
}

/// Whether the watch was placed on the descriptor the kernel has granted. It leaves the
/// descriptor that it was on before; where it was the last one there, that kernel watch is
/// to be removed first.
pub open spec fn is_granted(
    arming: Arming,
    i: InstanceModel,
    wd: i32,
    fresh: bool,
    a: Arming,
    j: InstanceModel,
) -> bool {
    let w = arming.watch;
    let t = i.table;
    let moves = t.bound.contains_key(w) && t.bound[w] != wd;
    let left = if moves {
        t.after(TableOp::Drain(w))
    } else {
        t
    };
    if moves && t.entries[t.bound[w]].live.len() == 1 {
        &&& a.state == ArmState::Supersede { old: t.bound[w], wd, fresh }
        &&& j == InstanceModel { table: left, ..i }
    } else {
        &&& a.state == ArmState::Done(
            if fresh {
                WatchOutcome::Installed(wd)
            } else {
                WatchOutcome::Aliased(wd)
            },
        )
        &&& j == InstanceModel { table: placed(left, w, wd, fresh), ..i }
    }
}

/// What each answer of the kernel means for the watch that is being placed. A target that
/// cannot be opened, or is not the one that was expected, is not watched. The first attempt
/// is for a watch of its own; only where the kernel says that the object is watched already
/// is there a second one, for the watch that is there. A second attempt that ends on a
/// descriptor which is not in use is taken back. What fails changes no table.
pub proof fn law_an_arm_follows_the_kernel(arming: Arming, i: InstanceModel, answer: Answer)
    requires
        fits(arming.ask_spec(), answer),
    ensures
        ({
            let (a, j) = arming.next(i, answer);
            let failed = |e: WatchError| a.state == ArmState::Done(WatchOutcome::Failed(e));
            &&& a.watch == arming.watch && a.expected == arming.expected
            &&& match (arming.state, answer) {
                (ArmState::Open, Answer::Opened(Ok(_))) => match arming.expected {
                    Some(_) => a.state == ArmState::Stat && j == i,
                    None => a.state == ArmState::Add && has_counted_one(i, j),
                },
                (ArmState::Open, Answer::Opened(Err(e))) => failed(meaning(e)) && j == i,
                (ArmState::Stat, Answer::Stat(Ok((dev, ino)))) => if arming.expected is None
                    || arming.expected == Some(ExpectedObject { dev, ino }) {
                    a.state == ArmState::Add && has_counted_one(i, j)
                } else {
                    failed(WatchError::Gone) && j == i
                },
                (ArmState::Stat, Answer::Stat(Err(_))) => if arming.expected is None {
                    a.state == ArmState::Add && has_counted_one(i, j)
                } else {
                    failed(WatchError::Gone) && j == i
                },
                (ArmState::Add, Answer::Added(Ok(wd))) => is_granted(arming, i, wd, true, a, j),
                (ArmState::Add, Answer::Added(Err(e))) => if e == Errno::Exist {
                    a.state == ArmState::AddAgain && has_counted_one(i, j)
                } else {
                    failed(meaning(e)) && j == i
                },
                (ArmState::AddAgain, Answer::Added(Ok(wd))) => if i.table.entries.contains_key(wd)
                    && !i.table.entries[wd].draining {
                    is_granted(arming, i, wd, false, a, j)
                } else {
                    a.state == ArmState::Refuse(wd) && j == i
                },
                (ArmState::AddAgain, Answer::Added(Err(e))) => failed(meaning(e)) && j == i,
                (ArmState::Refuse(_), _) => failed(WatchError::Io) && j == i,
                (ArmState::Supersede { old, wd, fresh }, Answer::Removed(removed)) => {
                    let left = if removed == Err::<(), Errno>(Errno::Inval) {
                        i.table.after(TableOp::EraseDead(old))
                    } else {
                        i.table
                    };
                    &&& a.state == ArmState::Done(
                        if fresh {
                            WatchOutcome::Installed(wd)
                        } else {
                            WatchOutcome::Aliased(wd)
                        },
                    )
                    &&& j == InstanceModel { table: placed(left, arming.watch, wd, fresh), ..i }
                },
                _ => false,
            }
        }),
{
}

/// What an arm asks for, step by step: the target first, then its identity where one is
/// expected, and then a watch.
pub proof fn law_an_arm_asks_in_order(arming: Arming)
    ensures
        arming.ask_spec() == match arming.state {
            ArmState::Open => Ask::Open,
            ArmState::Stat => Ask::Stat,
            ArmState::Add => Ask::Add(0x1500_0fc6),
            ArmState::AddAgain => Ask::Add(0x0500_0fc6),
            ArmState::Refuse(wd) => Ask::Remove(wd),
            ArmState::Supersede { old, .. } => Ask::Remove(old),
            ArmState::Done(_) => Ask::Nothing,
        },
{
    law_a_watch_asks_for_every_record();
}

} // verus!
