//! What holds of every descent, whatever the kernel answers.

use vstd::prelude::*;

use crate::error::{Errno, IoError};
use crate::fanotify::fid::{EntryModel, FidModel};
use crate::fanotify::map::{
    MapModel, NodeModel, law_a_path_follows_its_links, law_a_seed_keeps_the_invariant,
    law_hanging_keeps_the_invariant, law_hanging_moves_one_subtree,
    law_nothing_lies_in_what_is_not_held,
};
use crate::fanotify::revealed::{
    AdmitModel, RevealModel, RevealPlanModel, RevealStage, reveal_answers,
};
use crate::fanotify::tree::{KindModel, PlanModel, Stage, WalkModel};
use crate::fanotify::walk::{
    DescentModel, DescentState, FrameModel, LevelModel, Listing, SeedModel, WalkAnswer,
    WalkError, WalkSkip, answers, walk_skip,
};
use crate::path::{components, has_file_name, joined};
use crate::scope::{ScopeFrame, is_directory, is_excluded, mount_id};

verus! {

/// Which of the first `n` entries is the directory `fid`; -1 where none is.
pub open spec fn index_of_fid(found: Seq<EntryModel>, n: int, fid: FidModel) -> int
    decreases n,
{
    if n <= 0 {
        -1
    } else if found[n - 1].fid == fid {
        n - 1
    } else {
        index_of_fid(found, n - 1, fid)
    }
}

/// The path of the `i`-th directory that a descent into `start` found: its name
/// in its parent's path, where its parent is `start` or was found earlier.
pub open spec fn located(start: LevelModel, found: Seq<EntryModel>, i: int) -> Seq<u8>
    decreases i,
{
    if i < 0 {
        Seq::empty()
    } else if found[i].parent == Some(start.fid) {
        joined(start.path, found[i].name)
    } else {
        let j = index_of_fid(found, i, found[i].parent->0);
        if 0 <= j < i {
            joined(located(start, found, j), found[i].name)
        } else {
            Seq::empty()
        }
    }
}

/// Whether the level is `start` or a directory that was found, at its path.
pub open spec fn is_placed(start: LevelModel, found: Seq<EntryModel>, level: LevelModel) -> bool {
    level == start || exists|j: int|
        0 <= j < found.len() && (#[trigger] found[j]).fid == level.fid && located(start, found, j)
            == level.path
}

/// Whether the `i`-th directory found hangs in `start` or in one found earlier.
pub open spec fn is_linked(start: LevelModel, found: Seq<EntryModel>, i: int) -> bool {
    found[i].parent is Some && (found[i].parent == Some(start.fid) || exists|j: int|
        0 <= j < i && Some((#[trigger] found[j]).fid) == found[i].parent)
}

impl DescentModel {
    /// What holds of a descent into `start` that began with `seed` in hand.
    pub open spec fn sound(self, start: LevelModel, seed: SeedModel) -> bool {
        let found = self.seed.entries.skip(seed.entries.len() as int);
        let declined = self.seed.declined;
        let first = seed.declined.len();
        &&& self.wf()
        &&& seed.entries.is_prefix_of(self.seed.entries)
        &&& seed.declined.is_prefix_of(self.seed.declined)
        &&& self.seed.fence_mnt_id == seed.fence_mnt_id
        &&& self.visited.contains(start.fid.handle)
        &&& forall|i: int|
            0 <= i < found.len() ==> {
                &&& (#[trigger] found[i]).fid.fsid == self.frame.fsid
                &&& self.visited.contains(found[i].fid.handle)
                &&& found[i].fid.handle != start.fid.handle
                &&& is_linked(start, found, i)
                &&& !is_excluded(self.frame.exclusions, located(start, found, i))
            }
        &&& forall|i: int, j: int|
            0 <= i < j < found.len() ==> (#[trigger] found[i]).fid.handle != (
            #[trigger] found[j]).fid.handle
        &&& forall|i: int|
            0 <= i < self.stack.len() ==> is_placed(start, found, #[trigger] self.stack[i])
        &&& self.state is List ==> is_placed(start, found, self.entering)
        &&& self.at_entry() ==> !is_excluded(self.frame.exclusions, self.child_path())
        &&& forall|i: int|
            first <= i < declined.len() ==> {
                &&& self.frame.outside((#[trigger] declined[i]).dev, declined[i].mnt_id)
                &&& !is_excluded(self.frame.exclusions, declined[i].location)
            }
        &&& self.frame.budget is Some && found.len() > 0 ==> self.seed.entries.len()
            <= self.frame.budget->0
        &&& declined.len() > first ==> declined.len() <= self.frame.decline_budget
    }

    /// The descent after the answers.
    pub open spec fn run(self, given: Seq<WalkAnswer>) -> DescentModel
        decreases given.len(),
    {
        if given.len() == 0 {
            self
        } else {
            self.next(given.first()).run(given.drop_first())
        }
    }

    /// Whether the answers, one after the other, are what the descent asks for.
    pub open spec fn served(self, given: Seq<WalkAnswer>) -> bool
        decreases given.len(),
    {
        given.len() == 0 || (answers(self.ask(), given.first()) && self.next(
            given.first(),
        ).served(given.drop_first()))
    }
}

proof fn lemma_index_of_fid(found: Seq<EntryModel>, n: int, fid: FidModel)
    requires
        0 <= n <= found.len(),
    ensures
        -1 <= index_of_fid(found, n, fid) < n,
        index_of_fid(found, n, fid) >= 0 ==> found[index_of_fid(found, n, fid)].fid == fid,
        forall|j: int|
            index_of_fid(found, n, fid) < j < n ==> (#[trigger] found[j]).fid != fid,
    decreases n,
{
    if n > 0 && found[n - 1].fid != fid {
        lemma_index_of_fid(found, n - 1, fid);
    }
}

proof fn lemma_same_index(a: Seq<EntryModel>, b: Seq<EntryModel>, n: int, fid: FidModel)
    requires
        0 <= n <= a.len(),
        n <= b.len(),
        forall|k: int| 0 <= k < n ==> a[k] == b[k],
    ensures
        index_of_fid(a, n, fid) == index_of_fid(b, n, fid),
    decreases n,
{
    if n > 0 {
        lemma_same_index(a, b, n - 1, fid);
    }
}

proof fn lemma_located_extended(
    start: LevelModel,
    found: Seq<EntryModel>,
    more: EntryModel,
    i: int,
)
    requires
        0 <= i < found.len(),
    ensures
        located(start, found.push(more), i) == located(start, found, i),
    decreases i,
{
    let longer = found.push(more);
    if found[i].parent != Some(start.fid) {
        let fid = found[i].parent->0;
        lemma_same_index(found, longer, i, fid);
        let j = index_of_fid(found, i, fid);
        if 0 <= j < i {
            lemma_located_extended(start, found, more, j);
        }
    }
}

proof fn lemma_placed_extended(
    start: LevelModel,
    found: Seq<EntryModel>,
    more: EntryModel,
    level: LevelModel,
)
    requires
        is_placed(start, found, level),
    ensures
        is_placed(start, found.push(more), level),
{
    if level != start {
        let j = choose|j: int|
            0 <= j < found.len() && (#[trigger] found[j]).fid == level.fid && located(
                start,
                found,
                j,
            ) == level.path;
        lemma_located_extended(start, found, more, j);
        assert(found.push(more)[j].fid == level.fid);
    }
}

/// A directory found in a placed one is linked, and located at its name there.
proof fn lemma_found_is_placed(
    start: LevelModel,
    found: Seq<EntryModel>,
    top: LevelModel,
    entry: EntryModel,
)
    requires
        is_placed(start, found, top),
        entry.parent == Some(top.fid),
        forall|i: int|
            0 <= i < found.len() ==> (#[trigger] found[i]).fid.handle != start.fid.handle,
        forall|i: int, j: int|
            0 <= i < j < found.len() ==> (#[trigger] found[i]).fid.handle != (
            #[trigger] found[j]).fid.handle,
    ensures
        is_linked(start, found.push(entry), found.len() as int),
        located(start, found.push(entry), found.len() as int) == joined(top.path, entry.name),
{
    let longer = found.push(entry);
    let n = found.len() as int;
    if top != start {
        let j = choose|j: int|
            0 <= j < found.len() && (#[trigger] found[j]).fid == top.fid && located(
                start,
                found,
                j,
            ) == top.path;
        assert(longer[j].fid == top.fid);
        lemma_index_of_fid(longer, n, top.fid);
        let k = index_of_fid(longer, n, top.fid);
        if k < j {
            assert(longer[j].fid != top.fid);
        }
        if j < k {
            assert(longer[k] == found[k]);
            assert(found[j].fid.handle != found[k].fid.handle);
        }
        assert(k == j);
        lemma_located_extended(start, found, entry, j);
    }
}

/// Whatever the kernel answers, a descent stays sound from one answer to the
/// next.
proof fn lemma_step_is_sound(
    d: DescentModel,
    start: LevelModel,
    seed: SeedModel,
    answer: WalkAnswer,
)
    requires
        d.sound(start, seed),
        answers(d.ask(), answer),
    ensures
        d.next(answer).sound(start, seed),
        d.next(answer).frame == d.frame,
{
    let n = d.next(answer);
    let base = seed.entries.len() as int;
    let found = d.seed.entries.skip(base);
    match (d.state, answer) {
        (DescentState::Handle, WalkAnswer::Handle(Some(handle))) => {
            let h = handle@;
            let top = d.stack.last();
            if n.state is List {
                let entry = n.seed.entries.last();
                let longer = found.push(entry);
                assert(n.seed.entries.skip(base) =~= longer);
                assert(seed.entries.is_prefix_of(n.seed.entries)) by {
                    assert(d.seed.entries.take(base) =~= n.seed.entries.take(base));
                }
                lemma_found_is_placed(start, found, top, entry);
                assert forall|i: int| 0 <= i < longer.len() implies {
                    &&& (#[trigger] longer[i]).fid.fsid == n.frame.fsid
                    &&& n.visited.contains(longer[i].fid.handle)
                    &&& longer[i].fid.handle != start.fid.handle
                    &&& is_linked(start, longer, i)
                    &&& !is_excluded(n.frame.exclusions, located(start, longer, i))
                } by {
                    if i < found.len() {
                        assert(longer[i] == found[i]);
                        lemma_located_extended(start, found, entry, i);
                        if found[i].parent != Some(start.fid) {
                            let j = choose|j: int|
                                0 <= j < i && Some((#[trigger] found[j]).fid) == found[i].parent;
                            assert(Some(longer[j].fid) == longer[i].parent);
                        }
                    }
                }
                assert forall|i: int, j: int| 0 <= i < j < longer.len() implies (
                #[trigger] longer[i]).fid.handle != (#[trigger] longer[j]).fid.handle by {
                    assert(longer[i] == found[i]);
                    if j < found.len() {
                        assert(longer[j] == found[j]);
                    }
                }
                assert forall|i: int| 0 <= i < n.stack.len() implies is_placed(
                    start,
                    longer,
                    #[trigger] n.stack[i],
                ) by {
                    assert(is_placed(start, found, d.stack[i]));
                    lemma_placed_extended(start, found, entry, d.stack[i]);
                }
                assert(longer[found.len() as int] == entry);
                assert(is_placed(start, longer, n.entering));
            } else {
                assert(n.seed.entries.skip(base) =~= found);
            }
        },
        (DescentState::Mount { dev, mode }, WalkAnswer::Mount(Ok((mask, id)))) => {
            assert(n.seed.entries.skip(base) =~= found);
            let first = seed.declined.len() as int;
            assert(seed.declined.is_prefix_of(n.seed.declined)) by {
                assert(d.seed.declined.take(first) =~= n.seed.declined.take(first));
            }
        },
        _ => {
            assert(n.seed.entries.skip(base) =~= found);
        },
    }
}

/// Whether the answers from `i` on show an entry to be a directory inside the
/// walk's bounds: it was opened in the directory it is listed in, and of what was
/// opened, the mode is a directory's, the device and the mount are those of the
/// walk, and the handle is `handle`.
pub open spec fn shown_from(
    given: Seq<WalkAnswer>,
    i: int,
    frame: FrameModel,
    handle: Seq<u8>,
) -> bool {
    &&& 0 <= i && i + 3 < given.len()
    &&& was_opened(given[i])
    &&& given[i + 1] matches WalkAnswer::Stat(Ok((dev, mode)))
    &&& given[i + 2] matches WalkAnswer::Mount(Ok((mask, id)))
    &&& given[i + 3] matches WalkAnswer::Handle(Some(h))
    &&& is_directory(mode)
    &&& !frame.outside(dev, mount_id(mask, id))
    &&& h@ == handle
}

/// Whether four answers in a row show a directory with this handle inside the
/// walk's bounds.
pub open spec fn was_shown(given: Seq<WalkAnswer>, frame: FrameModel, handle: Seq<u8>) -> bool {
    exists|i: int| #[trigger] shown_from(given, i, frame, handle)
}

/// What the answers so far have shown of the entry at hand.
spec fn has_shown(d: DescentModel, past: Seq<WalkAnswer>) -> bool {
    let n = past.len() as int;
    match d.state {
        DescentState::Stat => n > 0 && was_opened(past[n - 1]),
        DescentState::Mount { dev, mode } => {
            &&& n > 1
            &&& was_opened(past[n - 2])
            &&& past[n - 1] matches WalkAnswer::Stat(Ok((d1, m1)))
            &&& d1 == dev
            &&& m1 == mode
        },
        DescentState::Handle => {
            &&& n > 2
            &&& was_opened(past[n - 3])
            &&& past[n - 2] matches WalkAnswer::Stat(Ok((dev, mode)))
            &&& past[n - 1] matches WalkAnswer::Mount(Ok((mask, id)))
            &&& is_directory(mode)
            &&& !d.frame.outside(dev, mount_id(mask, id))
        },
        _ => true,
    }
}

proof fn lemma_still_shown(
    past: Seq<WalkAnswer>,
    answer: WalkAnswer,
    frame: FrameModel,
    handle: Seq<u8>,
)
    requires
        was_shown(past, frame, handle),
    ensures
        was_shown(past.push(answer), frame, handle),
{
    let seen = past.push(answer);
    let i = choose|i: int| #[trigger] shown_from(past, i, frame, handle);
    assert(seen[i] == past[i] && seen[i + 1] == past[i + 1] && seen[i + 2] == past[i + 2]
        && seen[i + 3] == past[i + 3]);
    assert(shown_from(seen, i, frame, handle));
}

proof fn lemma_step_has_shown(d: DescentModel, base: int, past: Seq<WalkAnswer>, answer: WalkAnswer)
    requires
        0 <= base <= d.seed.entries.len(),
        answers(d.ask(), answer),
        has_shown(d, past),
        forall|k: int|
            base <= k < d.seed.entries.len() ==> was_shown(
                past,
                d.frame,
                (#[trigger] d.seed.entries[k]).fid.handle,
            ),
    ensures
        ({
            let n = d.next(answer);
            &&& n.frame == d.frame
            &&& base <= n.seed.entries.len()
            &&& has_shown(n, past.push(answer))
            &&& forall|k: int|
                base <= k < n.seed.entries.len() ==> was_shown(
                    past.push(answer),
                    n.frame,
                    (#[trigger] n.seed.entries[k]).fid.handle,
                )
        }),
{
    let n = d.next(answer);
    let seen = past.push(answer);
    let len = past.len() as int;
    assert forall|j: int| 0 <= j < len implies seen[j] == #[trigger] past[j] by {}
    if d.state is Mount {
        assert(seen[len - 2] == past[len - 2] && seen[len - 1] == past[len - 1]);
    }
    if d.state is Stat {
        assert(seen[len - 1] == past[len - 1]);
    }
    assert forall|k: int| base <= k < n.seed.entries.len() implies was_shown(
        seen,
        n.frame,
        (#[trigger] n.seed.entries[k]).fid.handle,
    ) by {
        if k < d.seed.entries.len() {
            assert(n.seed.entries[k] == d.seed.entries[k]);
            lemma_still_shown(past, answer, d.frame, d.seed.entries[k].fid.handle);
        } else {
            assert(seen[len - 3] == past[len - 3] && seen[len - 2] == past[len - 2]
                && seen[len - 1] == past[len - 1]);
            assert(shown_from(seen, len - 3, n.frame, n.seed.entries[k].fid.handle));
        }
    }
}

proof fn lemma_run_has_shown(
    d: DescentModel,
    base: int,
    past: Seq<WalkAnswer>,
    given: Seq<WalkAnswer>,
)
    requires
        0 <= base <= d.seed.entries.len(),
        d.served(given),
        has_shown(d, past),
        forall|k: int|
            base <= k < d.seed.entries.len() ==> was_shown(
                past,
                d.frame,
                (#[trigger] d.seed.entries[k]).fid.handle,
            ),
    ensures
        forall|k: int|
            base <= k < d.run(given).seed.entries.len() ==> was_shown(
                past + given,
                d.frame,
                (#[trigger] d.run(given).seed.entries[k]).fid.handle,
            ),
    decreases given.len(),
{
    if given.len() == 0 {
        assert(past + given =~= past);
    } else {
        lemma_step_has_shown(d, base, past, given.first());
        assert(past + given =~= past.push(given.first()) + given.drop_first());
        lemma_run_has_shown(
            d.next(given.first()),
            base,
            past.push(given.first()),
            given.drop_first(),
        );
    }
}

/// What every descent into `start` finds, whatever the kernel answers:
///
/// - what was in hand before is still there, ahead of what was found;
/// - each directory found was shown, by four answers in a row, to be a directory
///   on the walk's own device and mount with the handle it goes by;
/// - each carries the walk's filesystem identity, was found once, and hangs in
///   `start` or in a directory found before it;
/// - no directory found, and no boundary declined, is excluded or lies beneath
///   an exclusion;
/// - every boundary declined lies on another device or mount;
/// - neither budget is exceeded by what was found.
pub proof fn law_a_descent_is_sound(
    frame: FrameModel,
    start: LevelModel,
    seed: SeedModel,
    given: Seq<WalkAnswer>,
)
    requires
        DescentModel::start(frame, start, seed).served(given),
    ensures
        DescentModel::start(frame, start, seed).run(given).sound(start, seed),
        DescentModel::start(frame, start, seed).run(given).frame == frame,
        forall|k: int|
            seed.entries.len() <= k < DescentModel::start(frame, start, seed).run(
                given,
            ).seed.entries.len() ==> was_shown(
                given,
                frame,
                (#[trigger] DescentModel::start(frame, start, seed).run(
                    given,
                ).seed.entries[k]).fid.handle,
            ),
{
    let d = DescentModel::start(frame, start, seed);
    assert(seed.entries.take(seed.entries.len() as int) =~= seed.entries);
    assert(seed.declined.take(seed.declined.len() as int) =~= seed.declined);
    assert(seed.entries.skip(seed.entries.len() as int) =~= Seq::empty());
    lemma_run_is_sound(d, start, seed, given);
    lemma_run_has_shown(d, seed.entries.len() as int, Seq::empty(), given);
    assert(Seq::<WalkAnswer>::empty() + given =~= given);
}

proof fn lemma_run_is_sound(
    d: DescentModel,
    start: LevelModel,
    seed: SeedModel,
    given: Seq<WalkAnswer>,
)
    requires
        d.sound(start, seed),
        d.served(given),
    ensures
        d.run(given).sound(start, seed),
        d.run(given).frame == d.frame,
    decreases given.len(),
{
    if given.len() > 0 {
        lemma_step_is_sound(d, start, seed, given.first());
        lemma_run_is_sound(d.next(given.first()), start, seed, given.drop_first());
    }
}

/// A descent that is not done holds no error back: an error on an entry either
/// means that there is nothing to map there, or fails the descent.
pub proof fn law_no_error_is_passed_over(d: DescentModel, answer: WalkAnswer, err: Errno)
    requires
        answers(d.ask(), answer),
        walk_skip(err) == WalkSkip::Incomplete,
        match answer {
            WalkAnswer::Listed(r) => r == Err::<(), Errno>(err),
            WalkAnswer::Next(listing) => listing == Listing::Failed(err),
            WalkAnswer::Parent(r) => r == Err::<(), Errno>(err),
            WalkAnswer::Opened(r) => r == Err::<(), Errno>(err),
            WalkAnswer::Stat(r) => r == Err::<(u64, u32), Errno>(err),
            WalkAnswer::Mount(r) => r == Err::<(u32, u64), Errno>(err),
            WalkAnswer::Handle(_) => false,
        },
    ensures
        d.next(answer).state == DescentState::Failed(
            WalkError::Incomplete(IoError::Os(err)),
        ),
{
}

impl WalkModel {
    /// The walk after the answers.
    pub open spec fn run(self, given: Seq<WalkAnswer>) -> WalkModel
        decreases given.len(),
    {
        if given.len() == 0 {
            self
        } else {
            self.next(given.first()).run(given.drop_first())
        }
    }

    /// Whether the answers, one after the other, are what the walk asks for.
    pub open spec fn served(self, given: Seq<WalkAnswer>) -> bool
        decreases given.len(),
    {
        given.len() == 0 || (answers(self.ask(), given.first()) && self.next(
            given.first(),
        ).served(given.drop_first()))
    }
}

/// Whether the seed is what a walk by the plan may come to: a root's seed
/// starts with the root at its path, a subtree's does not hold the subtree
/// itself, no directory is in it twice, and it is within both budgets.
pub open spec fn keeps_to(seed: SeedModel, plan: PlanModel) -> bool {
    &&& plan.kind matches KindModel::Subtree(fid) ==> forall|i: int|
        0 <= i < seed.entries.len() ==> (#[trigger] seed.entries[i]).fid.handle != fid.handle
    &&& !(plan.kind is Subtree) ==> {
        &&& seed.entries.len() > 0
        &&& seed.entries[0].parent is None
        &&& seed.entries[0].name == plan.path
    }
    &&& forall|i: int, j: int|
        0 <= i < j < seed.entries.len() ==> (#[trigger] seed.entries[i]).fid.handle != (
        #[trigger] seed.entries[j]).fid.handle
    &&& plan.frame.budget is Some ==> seed.entries.len() <= plan.frame.budget->0
    &&& seed.declined.len() <= plan.frame.decline_budget
}

/// What a walk's descent starts with: nothing, or the root it starts from.
spec fn starts_with_root(seed: SeedModel, start: LevelModel, plan: PlanModel) -> bool {
    &&& start.path == plan.path
    &&& seed.declined.len() == 0
    &&& match plan.kind {
        KindModel::Subtree(fid) => seed.entries.len() == 0 && start.fid
            == fid,
        _ => {
            &&& seed.entries == seq![EntryModel { fid: start.fid, parent: None, name: plan.path }]
            &&& plan.frame.budget != Some(0usize)
        },
    }
}

proof fn lemma_sound_seed_keeps_to(
    d: DescentModel,
    start: LevelModel,
    seed: SeedModel,
    plan: PlanModel,
)
    requires
        d.sound(start, seed),
        starts_with_root(seed, start, plan),
        d.frame.budget == plan.frame.budget,
        d.frame.decline_budget == plan.frame.decline_budget,
    ensures
        keeps_to(d.seed, plan),
{
    let base = seed.entries.len() as int;
    let all = d.seed.entries;
    let found = all.skip(base);
    assert(seed.entries =~= all.take(base));
    if base == 1 {
        assert(all[0] == all.take(base)[0]);
    }
    assert forall|i: int| base <= i < all.len() implies (#[trigger] all[i]).fid.handle
        != start.fid.handle by {
        assert(all[i] == found[i - base]);
    }
    assert forall|i: int, j: int| 0 <= i < j < all.len() implies (#[trigger] all[i]).fid.handle
        != (#[trigger] all[j]).fid.handle by {
        assert(all[j] == found[j - base]);
        if i >= base {
            assert(all[i] == found[i - base]);
        }
    }
    if found.len() == 0 {
        assert(all.len() == base);
    }
}

proof fn lemma_descending_walk_keeps_to(
    d: DescentModel,
    start: LevelModel,
    seed: SeedModel,
    plan: PlanModel,
    given: Seq<WalkAnswer>,
)
    requires
        d.sound(start, seed),
        starts_with_root(seed, start, plan),
        d.frame.budget == plan.frame.budget,
        d.frame.decline_budget == plan.frame.decline_budget,
        WalkModel::Descend(d).served(given),
    ensures
        WalkModel::Descend(d).run(given) matches WalkModel::Done(found) ==> keeps_to(found, plan),
    decreases given.len(),
{
    if given.len() > 0 {
        let n = d.next(given.first());
        lemma_step_is_sound(d, start, seed, given.first());
        lemma_sound_seed_keeps_to(n, start, seed, plan);
        let w = WalkModel::Descend(d).next(given.first());
        let rest = given.drop_first();
        match w {
            WalkModel::Descend(_) => {
                lemma_descending_walk_keeps_to(n, start, seed, plan, rest);
            },
            _ => {
                lemma_ended_walk_stays(w, rest);
            },
        }
    }
}

proof fn lemma_ended_walk_stays(w: WalkModel, given: Seq<WalkAnswer>)
    requires
        w is Done || w is Failed,
        w.served(given),
    ensures
        w.run(given) == w,
{
    if given.len() > 0 {
        assert(answers(w.ask(), given.first()));
    }
}

/// Whether the answers show that what was opened first has this handle.
pub open spec fn shows_start(given: Seq<WalkAnswer>, handle: Seq<u8>) -> bool {
    &&& given.len() > 1
    &&& was_opened(given[0])
    &&& given[1] matches WalkAnswer::Handle(Some(h))
    &&& h@ == handle
}

/// What every walk that comes to an end has found, whatever the kernel answers.
/// Where the walk began at a path, what was opened there had the handle of the
/// directory that it was to begin at.
pub proof fn law_a_walk_keeps_to_its_plan(plan: PlanModel, given: Seq<WalkAnswer>)
    requires
        WalkModel::Prepare(plan, Stage::Start).served(given),
    ensures
        WalkModel::Prepare(plan, Stage::Start).run(given) matches WalkModel::Done(seed) ==> {
            &&& keeps_to(seed, plan)
            &&& match plan.kind {
                KindModel::Root(fid) => shows_start(given, fid.handle),
                KindModel::Subtree(fid) => shows_start(given, fid.handle),
                KindModel::Pinned => true,
            }
        },
{
    lemma_walk_keeps_to(plan, plan, Stage::Start, given);
    let w = WalkModel::Prepare(plan, Stage::Start);
    if w.run(given) is Done && !(plan.kind is Pinned) {
        assert(given.len() > 0);
        let first = w.next(given.first());
        let rest = given.drop_first();
        if first is Failed {
            lemma_ended_walk_stays(first, rest);
        }
        assert(first == WalkModel::Prepare(plan, Stage::Match));
        assert(first.run(rest) == w.run(given));
        assert(first.served(rest));
        assert(rest.len() > 0);
        assert(answers(first.ask(), rest.first()));
        let second = first.next(rest.first());
        assert(second.served(rest.drop_first()));
        if second is Failed {
            lemma_ended_walk_stays(second, rest.drop_first());
        }
        assert(second.run(rest.drop_first()) == w.run(given));
        assert(given[1] == rest.first());
    }
}

proof fn lemma_walk_keeps_to(
    plan: PlanModel,
    now: PlanModel,
    stage: Stage,
    given: Seq<WalkAnswer>,
)
    requires
        now.kind == plan.kind,
        now.path == plan.path,
        now.frame.budget == plan.frame.budget,
        now.frame.decline_budget == plan.frame.decline_budget,
        stage == Stage::Root ==> !(plan.kind is Subtree),
        WalkModel::Prepare(now, stage).served(given),
    ensures
        WalkModel::Prepare(now, stage).run(given) matches WalkModel::Done(seed) ==> keeps_to(
            seed,
            plan,
        ),
    decreases given.len(),
{
    if given.len() > 0 {
        let w = WalkModel::Prepare(now, stage).next(given.first());
        let rest = given.drop_first();
        match w {
            WalkModel::Prepare(p, s) => {
                lemma_walk_keeps_to(plan, p, s, rest);
            },
            WalkModel::Descend(d) => {
                let start = d.entering;
                let seed = d.seed;
                assert(seed.entries.take(seed.entries.len() as int) =~= seed.entries);
                assert(seed.declined.take(seed.declined.len() as int) =~= seed.declined);
                assert(seed.entries.skip(seed.entries.len() as int) =~= Seq::empty());
                assert(d.sound(start, seed));
                lemma_descending_walk_keeps_to(d, start, seed, plan, rest);
            },
            _ => {
                lemma_ended_walk_stays(w, rest);
            },
        }
    }
}

impl RevealModel {
    /// The walk after the answers.
    pub open spec fn run(self, given: Seq<WalkAnswer>) -> RevealModel
        decreases given.len(),
    {
        if given.len() == 0 {
            self
        } else {
            self.next(given.first()).run(given.drop_first())
        }
    }

    /// Whether the answers, one after the other, are what the walk asks for.
    pub open spec fn served(self, given: Seq<WalkAnswer>) -> bool
        decreases given.len(),
    {
        given.len() == 0 || (reveal_answers(self.ask(), given.first()) && self.next(
            given.first(),
        ).served(given.drop_first()))
    }
}

/// Whether what was revealed is what a walk of the location may find: the
/// location itself comes first and hangs in its parent, no directory is there
/// twice, and both budgets are kept.
pub open spec fn is_revealed_at(
    parent: FidModel,
    seed: SeedModel,
    location: Seq<u8>,
    frame: FrameModel,
) -> bool {
    &&& seed.entries.len() > 0
    &&& seed.entries[0].parent == Some(parent)
    &&& seed.entries[0].name == components(location).last()
    &&& forall|i: int, j: int|
        0 <= i < j < seed.entries.len() ==> (#[trigger] seed.entries[i]).fid.handle != (
        #[trigger] seed.entries[j]).fid.handle
    &&& frame.budget is Some ==> seed.entries.len() <= frame.budget->0
    &&& seed.declined.len() <= frame.decline_budget
}

/// Whether something was opened.
pub open spec fn was_opened(answer: WalkAnswer) -> bool {
    answer matches WalkAnswer::Opened(Ok(_))
}

/// Whether the answers show the location to be a directory with this device and
/// mount.
pub open spec fn shows_child(given: Seq<WalkAnswer>, dev: u64, mnt_id: Option<u64>) -> bool {
    &&& given.len() > 4
    &&& given[3] matches WalkAnswer::Stat(Ok((d, mode)))
    &&& given[4] matches WalkAnswer::Mount(Ok((mask, id)))
    &&& d == dev
    &&& is_directory(mode)
    &&& mount_id(mask, id) == mnt_id
}

/// Whether the answers show the root to have this device and mount.
pub open spec fn shows_root(given: Seq<WalkAnswer>, live: ScopeFrame) -> bool {
    &&& given.len() > 6
    &&& given[5] matches WalkAnswer::Stat(Ok((root_dev, _)))
    &&& given[6] matches WalkAnswer::Mount(Ok((mask, id)))
    &&& live == (ScopeFrame { root_dev: Some(root_dev), root_mnt_id: mount_id(mask, id) })
}

/// Whether the answers show that nothing covers the location: after the parent,
/// the location and the root were opened, all three to be held, the location
/// was read and then the root, the root was as the caller knows it, and the
/// location lies in its scope.
pub open spec fn shows_uncovered(given: Seq<WalkAnswer>, known: ScopeFrame) -> bool {
    &&& given.len() > 6
    &&& forall|i: int| 0 <= i < 3 ==> was_opened(#[trigger] given[i])
    &&& shows_root(given, known)
    &&& exists|dev: u64, mnt_id: Option<u64>| #[trigger]
        shows_child(given, dev, mnt_id) && !known.crossed(Some(dev), mnt_id)
}

/// What every walk of a revealed location comes to, whatever the kernel
/// answers: an excluded location, and one without a name, has nothing to admit;
/// what is revealed hangs in the location's own parent, and was shown not to be
/// covered under a root that is as the caller knows it; and no failure is
/// reported as that of the root.
pub proof fn law_a_revealed_walk_keeps_to_its_location(
    location: Seq<u8>,
    known: ScopeFrame,
    frame: FrameModel,
    given: Seq<WalkAnswer>,
)
    requires
        RevealModel::start(location, known, frame).served(given),
    ensures
        is_excluded(frame.exclusions, location) || !has_file_name(location)
            ==> RevealModel::start(location, known, frame).run(given) == RevealModel::Done(
            AdmitModel::Nothing,
        ),
        RevealModel::start(location, known, frame).run(given) matches RevealModel::Done(
            AdmitModel::Revealed(parent, seed),
        ) ==> is_revealed_at(parent, seed, location, frame) && shows_uncovered(given, known),
        !(RevealModel::start(location, known, frame).run(given) matches RevealModel::Failed(
            WalkError::RootGone(_),
        )),
{
    match RevealModel::start(location, known, frame) {
        RevealModel::Prepare(plan, stage) => {
            lemma_reveal_keeps_to(plan, stage, location, frame, given);
            lemma_reveal_has_seen(
                RevealModel::start(location, known, frame),
                known,
                Seq::empty(),
                given,
            );
            assert(Seq::empty() + given =~= given);
        },
        w => {
            lemma_ended_reveal_stays(w, given);
        },
    }
}

/// What the answers so far have shown a walk that is under way.
spec fn has_seen(w: RevealModel, known: ScopeFrame, past: Seq<WalkAnswer>) -> bool {
    &&& forall|i: int|
        0 <= i < 3 && i < past.len() ==> was_opened(#[trigger] past[i])
    &&& match w {
        RevealModel::Prepare(plan, stage) => {
            &&& plan.known == known
            &&& match stage {
                RevealStage::OpenParent => past.len() == 0,
                RevealStage::OpenChild => past.len() == 1,
                RevealStage::OpenRoot => past.len() == 2,
                RevealStage::StatChild => past.len() == 3,
                RevealStage::MountChild { dev } => {
                    &&& past.len() == 4
                    &&& past[3] matches WalkAnswer::Stat(Ok((d, mode)))
                    &&& d == dev
                    &&& is_directory(mode)
                },
                RevealStage::StatRoot { dev, mnt_id } => past.len() == 5 && shows_child(
                    past,
                    dev,
                    mnt_id,
                ),
                RevealStage::MountRoot { dev, mnt_id, root_dev } => {
                    &&& past.len() == 6
                    &&& shows_child(past, dev, mnt_id)
                    &&& past[5] matches WalkAnswer::Stat(Ok((r, _)))
                    &&& r == root_dev
                },
                RevealStage::ParentHandle { .. } | RevealStage::ChildHandle { .. } =>
                shows_uncovered(past, known),
            }
        },
        RevealModel::Descend(_, d) => shows_uncovered(past, known) && !(d.state is Failed),
        _ => false,
    }
}

proof fn lemma_still_uncovered(
    past: Seq<WalkAnswer>,
    more: Seq<WalkAnswer>,
    known: ScopeFrame,
)
    requires
        shows_uncovered(past, known),
    ensures
        shows_uncovered(past + more, known),
{
    let all = past + more;
    assert forall|i: int| 0 <= i < 7 implies all[i] == #[trigger] past[i] by {}
    assert(past[0] == all[0] && past[1] == all[1] && past[2] == all[2] && past[3] == all[3]
        && past[4] == all[4] && past[5] == all[5] && past[6] == all[6]);
    let (dev, mnt_id) = choose|dev: u64, mnt_id: Option<u64>| #[trigger]
        shows_child(past, dev, mnt_id) && !known.crossed(Some(dev), mnt_id);
    assert(shows_child(all, dev, mnt_id));
}

proof fn lemma_step_has_seen(
    w: RevealModel,
    known: ScopeFrame,
    past: Seq<WalkAnswer>,
    answer: WalkAnswer,
)
    requires
        has_seen(w, known, past),
        reveal_answers(w.ask(), answer),
        w.next(answer) is Prepare || w.next(answer) is Descend,
    ensures
        has_seen(w.next(answer), known, past.push(answer)),
{
    let seen = past.push(answer);
    assert forall|i: int| 0 <= i < past.len() implies seen[i] == #[trigger] past[i] by {}
    if shows_uncovered(past, known) {
        lemma_still_uncovered(past, seq![answer], known);
        assert(past + seq![answer] =~= seen);
    }
    assert forall|i: int| 0 <= i < 3 && i < seen.len() implies was_opened(
        #[trigger] seen[i],
    ) by {
        if i < past.len() {
            assert(was_opened(past[i]));
        }
    }
    if let RevealModel::Prepare(_, stage) = w {
        match stage {
            RevealStage::MountChild { .. } => {
                assert(seen[3] == past[3]);
            },
            RevealStage::StatRoot { dev, mnt_id } => {
                assert(seen[3] == past[3] && seen[4] == past[4]);
                assert(shows_child(seen, dev, mnt_id));
            },
            RevealStage::MountRoot { dev, mnt_id, .. } => {
                assert(seen[3] == past[3] && seen[4] == past[4] && seen[5] == past[5]);
                assert(shows_child(seen, dev, mnt_id));
            },
            _ => {},
        }
    }
}

proof fn lemma_reveal_has_seen(
    w: RevealModel,
    known: ScopeFrame,
    past: Seq<WalkAnswer>,
    given: Seq<WalkAnswer>,
)
    requires
        has_seen(w, known, past),
        w.served(given),
    ensures
        w.run(given) matches RevealModel::Done(AdmitModel::Revealed(_, _)) ==> shows_uncovered(
            past + given,
            known,
        ),
        !(w.run(given) matches RevealModel::Failed(WalkError::RootGone(_))),
    decreases given.len(),
{
    if given.len() > 0 {
        let n = w.next(given.first());
        let rest = given.drop_first();
        let seen = past.push(given.first());
        assert(past + given =~= seen + rest);
        if n is Prepare || n is Descend {
            lemma_step_has_seen(w, known, past, given.first());
            lemma_reveal_has_seen(n, known, seen, rest);
        } else {
            lemma_ended_reveal_stays(n, rest);
            if shows_uncovered(past, known) {
                lemma_still_uncovered(past, given, known);
            }
        }
    }
}

proof fn lemma_ended_reveal_stays(w: RevealModel, given: Seq<WalkAnswer>)
    requires
        w is Done || w is Failed,
        w.served(given),
    ensures
        w.run(given) == w,
{
    if given.len() > 0 {
        assert(reveal_answers(w.ask(), given.first()));
    }
}

proof fn lemma_reveal_keeps_to(
    plan: RevealPlanModel,
    stage: RevealStage,
    location: Seq<u8>,
    frame: FrameModel,
    given: Seq<WalkAnswer>,
)
    requires
        plan.location == location,
        plan.name == components(location).last(),
        plan.frame == frame,
        stage is ChildHandle ==> frame.budget != Some(0usize),
        RevealModel::Prepare(plan, stage).served(given),
    ensures
        RevealModel::Prepare(plan, stage).run(given) matches RevealModel::Done(
            AdmitModel::Revealed(parent, seed),
        ) ==> is_revealed_at(parent, seed, location, frame),
    decreases given.len(),
{
    if given.len() > 0 {
        let w = RevealModel::Prepare(plan, stage).next(given.first());
        let rest = given.drop_first();
        match w {
            RevealModel::Prepare(p, s) => {
                lemma_reveal_keeps_to(p, s, location, frame, rest);
            },
            RevealModel::Descend(parent, d) => {
                let seed = d.seed;
                assert(seed.entries.take(seed.entries.len() as int) =~= seed.entries);
                assert(seed.declined.take(seed.declined.len() as int) =~= seed.declined);
                assert(seed.entries.skip(seed.entries.len() as int) =~= Seq::empty());
                assert(d.sound(d.entering, seed));
                lemma_descending_reveal_keeps_to(
                    parent,
                    d,
                    d.entering,
                    seed,
                    location,
                    frame,
                    rest,
                );
            },
            _ => {
                lemma_ended_reveal_stays(w, rest);
            },
        }
    }
}

proof fn lemma_descending_reveal_keeps_to(
    parent: FidModel,
    d: DescentModel,
    start: LevelModel,
    seed: SeedModel,
    location: Seq<u8>,
    frame: FrameModel,
    given: Seq<WalkAnswer>,
)
    requires
        d.sound(start, seed),
        d.frame.budget == frame.budget,
        d.frame.decline_budget == frame.decline_budget,
        frame.budget != Some(0usize),
        seed.declined.len() == 0,
        seed.entries == seq![
            EntryModel {
                fid: start.fid,
                parent: Some(parent),
                name: components(location).last(),
            },
        ],
        RevealModel::Descend(parent, d).served(given),
    ensures
        RevealModel::Descend(parent, d).run(given) matches RevealModel::Done(
            AdmitModel::Revealed(p, found),
        ) ==> is_revealed_at(p, found, location, frame),
    decreases given.len(),
{
    if given.len() > 0 {
        let n = d.next(given.first());
        lemma_step_is_sound(d, start, seed, given.first());
        let all = n.seed.entries;
        let found = all.skip(1);
        assert(seed.entries =~= all.take(1));
        assert(all[0] == all.take(1)[0]);
        assert forall|i: int, j: int| 0 <= i < j < all.len() implies (
        #[trigger] all[i]).fid.handle != (#[trigger] all[j]).fid.handle by {
            assert(all[j] == found[j - 1]);
            if i > 0 {
                assert(all[i] == found[i - 1]);
            }
        }
        if found.len() == 0 {
            assert(all.len() == 1);
        }
        assert(is_revealed_at(parent, n.seed, location, frame));
        let w = RevealModel::Descend(parent, d).next(given.first());
        let rest = given.drop_first();
        match w {
            RevealModel::Descend(_, _) => {
                lemma_descending_reveal_keeps_to(parent, n, start, seed, location, frame, rest);
            },
            _ => {
                lemma_ended_reveal_stays(w, rest);
            },
        }
    }
}

/// Whether one of the answers gave this handle.
pub open spec fn gave_handle(given: Seq<WalkAnswer>, h: Seq<u8>) -> bool {
    exists|i: int|
        0 <= i < given.len() && (#[trigger] given[i] matches WalkAnswer::Handle(Some(v)) && v@
            == h)
}

/// How many directories the answers opened for listing.
pub open spec fn listings_begun(given: Seq<WalkAnswer>) -> nat
    decreases given.len(),
{
    if given.len() == 0 {
        0
    } else {
        (if given.first() matches WalkAnswer::Listed(Ok(_)) {
            1nat
        } else {
            0nat
        }) + listings_begun(given.drop_first())
    }
}

/// How many listings the answers brought to their end.
pub open spec fn listings_ended(given: Seq<WalkAnswer>) -> nat
    decreases given.len(),
{
    if given.len() == 0 {
        0
    } else {
        (if given.first() matches WalkAnswer::Next(Listing::End) {
            1nat
        } else {
            0nat
        }) + listings_ended(given.drop_first())
    }
}

impl DescentModel {
    /// Whether every handle the descent has come by is accounted for, and every
    /// listing it has begun, after `begun` and `ended` of them.
    spec fn is_complete(self, start: LevelModel, seed: SeedModel, begun: nat, ended: nat) -> bool {
        let found = self.seed.entries.skip(seed.entries.len() as int);
        &&& forall|h: Seq<u8>| #[trigger]
            self.visited.contains(h) ==> h == start.fid.handle || exists|i: int|
                0 <= i < found.len() && (#[trigger] found[i]).fid.handle == h
        &&& self.stack.len() + ended == begun
        &&& found.len() + 1 == begun + (if self.state is List {
            1nat
        } else {
            0nat
        })
        &&& self.state is Done ==> self.stack.len() == 0
    }
}

proof fn lemma_step_is_complete(
    d: DescentModel,
    start: LevelModel,
    seed: SeedModel,
    begun: nat,
    ended: nat,
    answer: WalkAnswer,
)
    requires
        d.sound(start, seed),
        d.is_complete(start, seed, begun, ended),
        answers(d.ask(), answer),
        !(d.next(answer).state is Failed),
    ensures
        d.next(answer).is_complete(
            start,
            seed,
            begun + listings_begun(seq![answer]),
            ended + listings_ended(seq![answer]),
        ),
        d.visited.subset_of(d.next(answer).visited),
        answer matches WalkAnswer::Handle(Some(v)) ==> d.next(answer).visited.contains(v@),
{
    reveal_with_fuel(listings_begun, 2);
    reveal_with_fuel(listings_ended, 2);
    assert(seq![answer].drop_first() =~= Seq::empty());
    let n = d.next(answer);
    let base = seed.entries.len() as int;
    let found = d.seed.entries.skip(base);
    match (d.state, answer) {
        (DescentState::Handle, WalkAnswer::Handle(Some(handle))) => {
            if n.state is List {
                let entry = n.seed.entries.last();
                let longer = found.push(entry);
                assert(n.seed.entries.skip(base) =~= longer);
                assert forall|h: Seq<u8>| #[trigger] n.visited.contains(h) implies h
                    == start.fid.handle || exists|i: int|
                    0 <= i < longer.len() && (#[trigger] longer[i]).fid.handle == h by {
                    if h == handle@ {
                        assert(longer[found.len() as int].fid.handle == h);
                    } else {
                        assert(d.visited.contains(h));
                        if h != start.fid.handle {
                            let i = choose|i: int|
                                0 <= i < found.len() && (#[trigger] found[i]).fid.handle == h;
                            assert(longer[i].fid.handle == h);
                        }
                    }
                }
            } else {
                assert(n.seed.entries.skip(base) =~= found);
            }
        },
        _ => {
            assert(n.seed.entries.skip(base) =~= found);
        },
    }
}

proof fn lemma_failed_is_the_end(d: DescentModel, given: Seq<WalkAnswer>)
    requires
        d.state is Failed,
        d.served(given),
    ensures
        d.run(given) == d,
{
    if given.len() > 0 {
        assert(answers(d.ask(), given.first()));
    }
}

proof fn lemma_run_is_complete(
    d: DescentModel,
    start: LevelModel,
    seed: SeedModel,
    begun: nat,
    ended: nat,
    given: Seq<WalkAnswer>,
    h: Seq<u8>,
)
    requires
        d.sound(start, seed),
        d.is_complete(start, seed, begun, ended),
        d.served(given),
        !(d.run(given).state is Failed),
    ensures
        d.run(given).is_complete(
            start,
            seed,
            begun + listings_begun(given),
            ended + listings_ended(given),
        ),
        d.visited.contains(h) || gave_handle(given, h) ==> d.run(given).visited.contains(h),
    decreases given.len(),
{
    if given.len() > 0 {
        let first = given.first();
        let rest = given.drop_first();
        let n = d.next(first);
        if n.state is Failed {
            lemma_failed_is_the_end(n, rest);
        }
        lemma_step_is_sound(d, start, seed, first);
        lemma_step_is_complete(d, start, seed, begun, ended, first);
        reveal_with_fuel(listings_begun, 2);
        reveal_with_fuel(listings_ended, 2);
        assert(seq![first].drop_first() =~= Seq::empty());
        lemma_run_is_complete(
            n,
            start,
            seed,
            begun + listings_begun(seq![first]),
            ended + listings_ended(seq![first]),
            rest,
            h,
        );
        if gave_handle(given, h) && !n.visited.contains(h) {
            let i = choose|i: int|
                0 <= i < given.len() && (#[trigger] given[i] matches WalkAnswer::Handle(Some(v))
                    && v@ == h);
            assert(i > 0);
            assert(rest[i - 1] == given[i]);
            assert(gave_handle(rest, h));
        }
    }
}

/// A descent that has not failed has left nothing out: every directory whose
/// handle it was given is the one it started from or among those it found. Once
/// it is done, every directory it found, and the one it started from, was
/// listed to its end.
pub proof fn law_a_descent_leaves_nothing_out(
    frame: FrameModel,
    start: LevelModel,
    seed: SeedModel,
    given: Seq<WalkAnswer>,
    h: Seq<u8>,
)
    requires
        DescentModel::start(frame, start, seed).served(given),
        !(DescentModel::start(frame, start, seed).run(given).state is Failed),
    ensures
        ({
            let end = DescentModel::start(frame, start, seed).run(given);
            let found = end.seed.entries.skip(seed.entries.len() as int);
            &&& gave_handle(given, h) ==> h == start.fid.handle || exists|i: int|
                0 <= i < found.len() && (#[trigger] found[i]).fid.handle == h
            &&& end.state is Done ==> listings_ended(given) == found.len() + 1
        }),
{
    let d = DescentModel::start(frame, start, seed);
    assert(seed.entries.take(seed.entries.len() as int) =~= seed.entries);
    assert(seed.declined.take(seed.declined.len() as int) =~= seed.declined);
    assert(seed.entries.skip(seed.entries.len() as int) =~= Seq::empty());
    assert(d.sound(start, seed));
    assert(d.is_complete(start, seed, 0, 0));
    lemma_run_is_complete(d, start, seed, 0, 0, given, h);
}

/// A map that takes in what a descent from a root has found holds the root and
/// the directories that were found, and nothing else, each at the path that the
/// walk found it at.
pub proof fn law_a_map_holds_what_was_found(
    d: DescentModel,
    start: LevelModel,
    seed: SeedModel,
    empty: MapModel,
    h: Seq<u8>,
)
    requires
        d.sound(start, seed),
        seed.entries == seq![EntryModel { fid: start.fid, parent: None, name: start.path }],
        empty.nodes == Map::<Seq<u8>, NodeModel>::empty(),
    ensures
        ({
            let map = empty.with_entries(d.seed.entries);
            let found = d.seed.entries.skip(1);
            &&& map.wf()
            &&& map.is_root(start.fid.handle)
            &&& map.path_of(start.fid.handle) == Some(start.path)
            &&& forall|i: int|
                0 <= i < found.len() ==> map.path_of((#[trigger] found[i]).fid.handle) == Some(
                    located(start, found, i),
                )
            &&& map.holds(h) <==> h == start.fid.handle || exists|i: int|
                0 <= i < found.len() && (#[trigger] found[i]).fid.handle == h
        }),
{
    let found = d.seed.entries.skip(1);
    let n = found.len() as int;
    lemma_map_of_prefix(d, start, seed, empty, n);
    assert(d.seed.entries.take(n + 1) =~= d.seed.entries);
    let map = empty.with_entries(d.seed.entries);
    if map.holds(h) && h != start.fid.handle {
        assert(exists|i: int| 0 <= i < n && (#[trigger] found[i]).fid.handle == h);
    }
}

/// Whether the map is that of the root and the first `n` directories found.
spec fn is_map_of(map: MapModel, start: LevelModel, found: Seq<EntryModel>, n: int) -> bool {
    &&& map.wf()
    &&& map.nodes.dom().finite()
    &&& map.is_root(start.fid.handle)
    &&& map.path_of(start.fid.handle) == Some(start.path)
    &&& forall|i: int|
        0 <= i < n ==> map.holds((#[trigger] found[i]).fid.handle) && map.path_of(
            found[i].fid.handle,
        ) == Some(located(start, found, i))
    &&& forall|k: Seq<u8>| #[trigger]
        map.holds(k) ==> k == start.fid.handle || exists|i: int|
            0 <= i < n && (#[trigger] found[i]).fid.handle == k
}

proof fn lemma_map_step(before: MapModel, start: LevelModel, found: Seq<EntryModel>, n: int)
    requires
        0 < n <= found.len(),
        is_map_of(before, start, found, n - 1),
        is_linked(start, found, n - 1),
        found[n - 1].fid.handle != start.fid.handle,
        forall|i: int, j: int|
            0 <= i < j < found.len() ==> (#[trigger] found[i]).fid.handle != (
            #[trigger] found[j]).fid.handle,
    ensures
        is_map_of(before.with_entry(found[n - 1]), start, found, n),
{
    let entry = found[n - 1];
    let map = before.with_entry(entry);
    let h = entry.fid.handle;
    let p = entry.parent->0.handle;
    assert(!before.holds(h)) by {
        if before.holds(h) {
            let i = choose|i: int| 0 <= i < n - 1 && (#[trigger] found[i]).fid.handle == h;
            assert(found[i].fid.handle != found[n - 1].fid.handle);
        }
    }
    lemma_parent_is_mapped(before, start, found, n);
    law_nothing_lies_in_what_is_not_held(before, p, h);
    assert(before.can_hang(h, p));
    law_hanging_keeps_the_invariant(before, h, p, entry.name, false);
    law_nothing_lies_in_what_is_not_held(before, start.fid.handle, h);
    law_hanging_moves_one_subtree(before, h, p, entry.name, false, start.fid.handle);
    assert forall|i: int| 0 <= i < n implies map.holds((#[trigger] found[i]).fid.handle)
        && map.path_of(found[i].fid.handle) == Some(located(start, found, i)) by {
        if i < n - 1 {
            let k = found[i].fid.handle;
            assert(before.holds(k));
            law_nothing_lies_in_what_is_not_held(before, k, h);
            law_hanging_moves_one_subtree(before, h, p, entry.name, false, k);
        }
    }
    assert forall|k: Seq<u8>| #[trigger] map.holds(k) implies k == start.fid.handle
        || exists|i: int| 0 <= i < n && (#[trigger] found[i]).fid.handle == k by {
        if k == h {
            assert(found[n - 1].fid.handle == k);
        } else {
            assert(before.holds(k));
            if k != start.fid.handle {
                let i = choose|i: int| 0 <= i < n - 1 && (#[trigger] found[i]).fid.handle == k;
                assert(0 <= i < n && found[i].fid.handle == k);
            }
        }
    }
}

/// The directory that the next one hangs in is mapped at its own place.
proof fn lemma_parent_is_mapped(
    before: MapModel,
    start: LevelModel,
    found: Seq<EntryModel>,
    n: int,
)
    requires
        0 < n <= found.len(),
        is_map_of(before, start, found, n - 1),
        is_linked(start, found, n - 1),
    ensures
        before.holds(found[n - 1].parent->0.handle),
        located(start, found, n - 1) == joined(
            before.path_of(found[n - 1].parent->0.handle)->0,
            found[n - 1].name,
        ),
{
    let entry = found[n - 1];
    if entry.parent != Some(start.fid) {
        lemma_index_of_fid(found, n - 1, entry.parent->0);
        let j = index_of_fid(found, n - 1, entry.parent->0);
        let w = choose|w: int| 0 <= w < n - 1 && Some((#[trigger] found[w]).fid) == entry.parent;
        if j < w {
            assert(found[w].fid != entry.parent->0);
        }
        assert(0 <= j < n - 1);
        assert(found[j].fid == entry.parent->0);
        assert(before.holds(found[j].fid.handle));
    }
}

proof fn lemma_map_of_prefix(
    d: DescentModel,
    start: LevelModel,
    seed: SeedModel,
    empty: MapModel,
    n: int,
)
    requires
        d.sound(start, seed),
        seed.entries == seq![EntryModel { fid: start.fid, parent: None, name: start.path }],
        empty.nodes == Map::<Seq<u8>, NodeModel>::empty(),
        0 <= n <= d.seed.entries.skip(1).len(),
    ensures
        is_map_of(
            empty.with_entries(d.seed.entries.take(n + 1)),
            start,
            d.seed.entries.skip(1),
            n,
        ),
    decreases n,
{
    let all = d.seed.entries;
    let found = all.skip(1);
    let upto = all.take(n + 1);
    let map = empty.with_entries(upto);
    assert(empty.wf());
    law_a_seed_keeps_the_invariant(empty, upto);
    assert(seed.entries =~= all.take(1));
    assert(all[0] == all.take(1)[0]);
    if n == 0 {
        assert(upto.drop_last() =~= Seq::empty());
        assert(upto.last() == all[0]);
        assert(empty.with_entries(Seq::empty()) == empty);
        assert(map == empty.with_entry(all[0]));
        assert(map.nodes.contains_key(start.fid.handle));
        law_a_path_follows_its_links(map, start.fid.handle);
    } else {
        let before = empty.with_entries(all.take(n));
        lemma_map_of_prefix(d, start, seed, empty, n - 1);
        assert(all.take(n - 1 + 1) =~= all.take(n));
        assert(upto.drop_last() =~= all.take(n));
        let entry = found[n - 1];
        assert(upto.last() == entry);
        assert(map == before.with_entry(entry));
        assert(is_linked(start, found, n - 1));
        lemma_map_step(before, start, found, n);
    }
}

} // verus!
