//! What holds of every start of a source, whatever is answered on the way.

use vstd::prelude::*;
use vstd::utf8::encode_utf8;

use crate::error::{
    Backend, EINVAL, ENOSYS, EOPNOTSUPP, Errno, IoError, ProbeStage, Refusal, RootRef, SourceError,
};
use crate::fanotify::tree::{ContextModel, KindModel, PlanModel, Stage, WalkModel};
use crate::fanotify::walk::{FrameModel, WalkAnswer, WalkError};
use crate::mountinfo::{is_remote, mount_points};
use crate::path::{ancestor_count, components};
use crate::spawn::opening::OpeningModel;
use crate::spawn::protocol::{SpawnAnswer, SpawnAsk, fits};
use crate::spawn::source::{BackendKind, RootIdentity, SpawnConfig, SpawnModel, SpawnState};

verus! {

/// The answers that were given to the walk of the root, in order.
pub open spec fn walk_answers(given: Seq<SpawnAnswer>) -> Seq<WalkAnswer>
    decreases given.len(),
{
    if given.len() == 0 {
        Seq::empty()
    } else {
        match given.last() {
            SpawnAnswer::Walked(a) => walk_answers(given.drop_last()).push(a),
            _ => walk_answers(given.drop_last()),
        }
    }
}

/// The walk of the pinned root at its beginning: at the root's path, in the root's
/// device and mount, within the caller's bound and past the caller's exclusions.
pub open spec fn walk_of_the_pin(s: SpawnModel) -> WalkModel {
    WalkModel::Prepare(
        PlanModel {
            kind: KindModel::Pinned,
            path: s.root,
            frame: FrameModel {
                fsid: s.fsid->0@,
                root_dev: s.facts.identity.dev,
                fence_mnt_id: s.facts.mnt_id,
                exclusions: s.exclusions,
                budget: s.config.max_map_directories,
                decline_budget: 65536,
            },
        },
        Stage::Start,
    )
}

/// Whether the context is that of the root as it was read.
pub open spec fn is_context_of(s: SpawnModel, context: ContextModel) -> bool {
    &&& context.root == s.root
    &&& s.fsid is Some
    &&& context.fsid == s.fsid->0@
    &&& context.root_fid.fsid == s.fsid->0@
    &&& context.root_dev == s.facts.identity.dev
    &&& context.root_mnt_id == s.facts.mnt_id
    &&& context.max_directories == s.config.max_map_directories
    &&& context.exclusions == s.exclusions
}

/// Whether the start has nothing in its map.
pub open spec fn has_no_seed(s: SpawnModel) -> bool {
    s.seed.entries.len() == 0 && s.seed.declined.len() == 0 && s.seed.fence_mnt_id is None
}

/// Whether the handle was among the answers.
pub open spec fn was_handed(given: Seq<SpawnAnswer>, handle: Seq<u8>) -> bool {
    exists|i: int|
        0 <= i < given.len() && (#[trigger] given[i] matches SpawnAnswer::Handle(Some(h)) && h@
            == handle)
}

/// Whether the backend is still being chosen.
pub open spec fn is_choosing(state: SpawnState) -> bool {
    match state {
        SpawnState::Canonicalize
        | SpawnState::Pin
        | SpawnState::Statx
        | SpawnState::Statfs
        | SpawnState::ProbeInit
        | SpawnState::ProbeMark
        | SpawnState::ProbeHandle
        | SpawnState::ProbeEncode => true,
        _ => false,
    }
}

/// Whether the root is being read and the reader started.
pub open spec fn is_gathering(state: SpawnState) -> bool {
    match state {
        SpawnState::Fsid
        | SpawnState::Stat
        | SpawnState::Mount
        | SpawnState::Mounts
        | SpawnState::RootHandle
        | SpawnState::Walk
        | SpawnState::CreateInstance
        | SpawnState::CreateWake
        | SpawnState::Start => true,
        _ => false,
    }
}

/// Whether the root is being looked at again.
pub open spec fn is_confirming(state: SpawnState) -> bool {
    match state {
        SpawnState::Pinned
        | SpawnState::Metadata
        | SpawnState::AncestorOpen(_)
        | SpawnState::AncestorStat(_)
        | SpawnState::TraceOpen(_)
        | SpawnState::TraceStat(_) => true,
        _ => false,
    }
}

/// How the walk of the root and what it found follow from the answers so far.
spec fn follows(s: SpawnModel, past: Seq<SpawnAnswer>) -> bool {
    let walk = walk_of_the_pin(s).run(walk_answers(past));
    let is_read = s.context is Some && is_context_of(s, s.context->0) && was_handed(
        past,
        s.context->0.root_fid.handle,
    );
    &&& s.config.resolve_only ==> s.kind == BackendKind::Inotify || s.state is Failed
    &&& s.state is ProbeInit || s.state is ProbeMark || s.state is ProbeHandle || s.state is
        ProbeEncode ==> !s.config.resolve_only
    &&& match s.state {
        SpawnState::Failed { .. } => true,
        SpawnState::Canonicalize
        | SpawnState::Pin
        | SpawnState::Statx
        | SpawnState::Statfs
        | SpawnState::ProbeInit
        | SpawnState::ProbeMark
        | SpawnState::ProbeHandle
        | SpawnState::ProbeEncode => {
            &&& s.kind == BackendKind::Inotify
            &&& s.context is None
            &&& has_no_seed(s)
            &&& walk_answers(past).len() == 0
        },
        SpawnState::Fsid => s.kind == BackendKind::Fanotify && walk_answers(past).len() == 0,
        SpawnState::Stat | SpawnState::Mount | SpawnState::Mounts => match s.kind {
            BackendKind::Inotify => has_no_seed(s) && s.context is None,
            BackendKind::Fanotify => s.fsid is Some && walk_answers(past).len() == 0,
        },
        SpawnState::RootHandle => s.kind == BackendKind::Fanotify && s.fsid is Some
            && walk_answers(past).len() == 0,
        SpawnState::Walk => s.kind == BackendKind::Fanotify && is_read && s.walk == Some(walk),
        SpawnState::CreateInstance => s.kind == BackendKind::Inotify && has_no_seed(s)
            && s.context is None,
        _ => match s.kind {
            BackendKind::Inotify => has_no_seed(s) && s.context is None,
            BackendKind::Fanotify => is_read && walk == WalkModel::Done(s.seed),
        },
    }
}

proof fn lemma_walk_runs_on(w: WalkModel, given: Seq<WalkAnswer>, answer: WalkAnswer)
    ensures
        w.run(given.push(answer)) == w.run(given).next(answer),
    decreases given.len(),
{
    if given.len() == 0 {
        let all = given.push(answer);
        assert(all.first() == answer);
        assert(all.drop_first().len() == 0);
        assert(w.next(answer).run(all.drop_first()) == w.next(answer));
    } else {
        assert(given.push(answer).first() == given.first());
        assert(given.push(answer).drop_first() =~= given.drop_first().push(answer));
        lemma_walk_runs_on(w.next(given.first()), given.drop_first(), answer);
    }
}

proof fn lemma_answer_is_added(past: Seq<SpawnAnswer>, answer: SpawnAnswer, handle: Seq<u8>)
    ensures
        walk_answers(past.push(answer)) == match answer {
            SpawnAnswer::Walked(a) => walk_answers(past).push(a),
            _ => walk_answers(past),
        },
        was_handed(past, handle) ==> was_handed(past.push(answer), handle),
        answer matches SpawnAnswer::Handle(Some(h)) ==> was_handed(past.push(answer), h@),
{
    assert(past.push(answer).drop_last() =~= past);
    let all = past.push(answer);
    if was_handed(past, handle) {
        let i = choose|i: int|
            0 <= i < past.len() && (#[trigger] past[i] matches SpawnAnswer::Handle(Some(h)) && h@
                == handle);
        assert(all[i] == past[i]);
    }
    if let SpawnAnswer::Handle(Some(h)) = answer {
        assert(all[past.len() as int] == answer);
    }
}

proof fn lemma_follows_in_choice(s: SpawnModel, past: Seq<SpawnAnswer>, answer: SpawnAnswer)
    requires
        follows(s, past),
        fits(s.ask(), answer),
        s.next(answer) == s.choice_step(answer),
        is_choosing(s.state),
    ensures
        follows(s.next(answer), past.push(answer)),
{
    reveal(SpawnModel::choice_step);
    lemma_answer_is_added(past, answer, Seq::empty());
}

proof fn lemma_follows_in_walk(s: SpawnModel, past: Seq<SpawnAnswer>, a: WalkAnswer)
    requires
        follows(s, past),
        s.state is Walk,
    ensures
        follows(s.walk_step(a), past.push(SpawnAnswer::Walked(a))),
{
    reveal(SpawnModel::walk_step);
    lemma_answer_is_added(
        past,
        SpawnAnswer::Walked(a),
        s.context->0.root_fid.handle,
    );
    lemma_walk_runs_on(walk_of_the_pin(s), walk_answers(past), a);
    let n = s.walk_step(a);
    let walk = s.walk->0.next(a);
    if n.state is Walk {
        assert(n.walk == Some(walk));
    }
}

proof fn lemma_follows_in_gathering(s: SpawnModel, past: Seq<SpawnAnswer>, answer: SpawnAnswer)
    requires
        follows(s, past),
        fits(s.ask(), answer),
        is_gathering(s.state),
    ensures
        follows(s.gather_step(answer), past.push(answer)),
{
    reveal(SpawnModel::gather_step);
    if let (SpawnState::Walk, SpawnAnswer::Walked(a)) = (s.state, answer) {
        lemma_follows_in_walk(s, past, a);
    } else {
        lemma_answer_is_added(past, answer, s.context->0.root_fid.handle);
        if let (SpawnState::RootHandle, SpawnAnswer::Handle(Some(h))) = (s.state, answer) {
            let n = s.gather_step(answer);
            assert(walk_answers(past.push(answer)).len() == 0);
            assert(walk_of_the_pin(n).run(walk_answers(past.push(answer))) == walk_of_the_pin(n));
        }
    }
}

proof fn lemma_follows_in_confirming(s: SpawnModel, past: Seq<SpawnAnswer>, answer: SpawnAnswer)
    requires
        follows(s, past),
        fits(s.ask(), answer),
        is_confirming(s.state),
    ensures
        follows(s.confirm_step(answer), past.push(answer)),
{
    reveal(SpawnModel::confirm_step);
    lemma_answer_is_added(past, answer, s.context->0.root_fid.handle);
}

proof fn lemma_follows(s: SpawnModel, past: Seq<SpawnAnswer>, given: Seq<SpawnAnswer>)
    requires
        follows(s, past),
        s.served(given),
    ensures
        follows(s.run(given), past + given),
    decreases given.len(),
{
    if given.len() == 0 {
        assert(past + given =~= past);
    } else {
        let answer = given.first();
        let rest = given.drop_first();
        assert(past + given =~= past.push(answer) + rest);
        if is_choosing(s.state) {
            lemma_follows_in_choice(s, past, answer);
        } else if is_confirming(s.state) {
            lemma_follows_in_confirming(s, past, answer);
        } else {
            lemma_follows_in_gathering(s, past, answer);
        }
        lemma_follows(s.next(answer), past.push(answer), rest);
    }
}

/// What a source starts with is what the walk of its root found. Whatever is answered
/// from the beginning of a start, a fanotify source that is done has the directories
/// and the declined boundaries that the walk of the pinned root came to under the
/// answers that were given to it, and what is needed to walk the root again: the root
/// as it was read, and a handle that was handed out. An inotify source has none of
/// these.
pub proof fn law_a_source_starts_with_what_its_walk_found(
    config: SpawnConfig,
    exclusions: Seq<Seq<u8>>,
    given: Seq<SpawnAnswer>,
)
    requires
        SpawnModel::start(config, exclusions, true).served(given),
        SpawnModel::start(config, exclusions, true).run(given).state is Done,
    ensures
        ({
            let s = SpawnModel::start(config, exclusions, true).run(given);
            match s.kind {
                BackendKind::Fanotify => {
                    &&& walk_of_the_pin(s).run(walk_answers(given)) == WalkModel::Done(s.seed)
                    &&& s.context is Some
                    &&& is_context_of(s, s.context->0)
                    &&& was_handed(given, s.context->0.root_fid.handle)
                },
                BackendKind::Inotify => has_no_seed(s) && s.context is None,
            }
        }),
{
    let s = SpawnModel::start(config, exclusions, true);
    lemma_follows(s, Seq::empty(), given);
    assert(Seq::<SpawnAnswer>::empty() + given =~= given);
}

/// Whether `n` knows what `s` knows of the root, and what was answered beside.
pub open spec fn has_kept(s: SpawnModel, answer: SpawnAnswer, n: SpawnModel) -> bool {
    &&& n.config == s.config
    &&& n.exclusions == s.exclusions
    &&& n.root == match (s.state, answer) {
        (SpawnState::Canonicalize, SpawnAnswer::Canonical(Ok(root))) => root@,
        _ => s.root,
    }
    &&& n.facts.identity == match (s.state, answer) {
        (SpawnState::Stat, SpawnAnswer::Stat(Ok((dev, ino)))) => RootIdentity { dev, ino },
        _ => s.facts.identity,
    }
    &&& n.facts.mnt_id == match (s.state, answer) {
        (SpawnState::Mount, SpawnAnswer::Mount(Ok((mask, id)))) => if mask & 0x1000 != 0 {
            Some(id)
        } else {
            None
        },
        _ => s.facts.mnt_id,
    }
    &&& n.fsid == match (s.state, answer) {
        (SpawnState::Fsid, SpawnAnswer::Fsid(Ok(fsid))) => Some(fsid),
        _ => s.fsid,
    }
    &&& n.mounts == match (s.state, answer) {
        (SpawnState::Mounts, SpawnAnswer::Mounts(Some(text))) => mount_points(
            encode_utf8(text@),
            s.root,
        ),
        (SpawnState::Mounts, _) => Seq::empty(),
        _ => s.mounts,
    }
    &&& n.ancestors == match (s.state, answer) {
        (SpawnState::AncestorStat(_), SpawnAnswer::Stat(Ok((dev, ino)))) =>
            s.ancestors.push(RootIdentity { dev, ino }),
        (SpawnState::TraceStat(k), SpawnAnswer::Stat(Ok((dev, ino)))) => if k
            < s.opening.names.len() {
            seq![RootIdentity { dev, ino }] + s.ancestors
        } else {
            s.ancestors
        },
        _ => s.ancestors,
    }
}

proof fn lemma_kept_in_choice(s: SpawnModel, answer: SpawnAnswer)
    requires
        fits(s.ask(), answer),
        is_choosing(s.state),
    ensures
        has_kept(s, answer, s.choice_step(answer)),
{
    reveal(SpawnModel::choice_step);
}

proof fn lemma_kept_in_walk(s: SpawnModel, a: WalkAnswer)
    requires
        s.state is Walk,
    ensures
        has_kept(s, SpawnAnswer::Walked(a), s.walk_step(a)),
{
    reveal(SpawnModel::walk_step);
}

proof fn lemma_kept_in_gathering(s: SpawnModel, answer: SpawnAnswer)
    requires
        fits(s.ask(), answer),
        is_gathering(s.state),
    ensures
        has_kept(s, answer, s.gather_step(answer)),
{
    reveal(SpawnModel::gather_step);
    if let (SpawnState::Walk, SpawnAnswer::Walked(a)) = (s.state, answer) {
        lemma_kept_in_walk(s, a);
    }
}

proof fn lemma_kept_in_confirming(s: SpawnModel, answer: SpawnAnswer)
    requires
        fits(s.ask(), answer),
        is_confirming(s.state),
    ensures
        has_kept(s, answer, s.confirm_step(answer)),
{
    reveal(SpawnModel::confirm_step);
    if let (SpawnState::TraceStat(_), SpawnAnswer::Stat(Ok((dev, ino)))) = (s.state, answer) {
        let identity = RootIdentity { dev, ino };
        assert(s.ancestors.insert(0, identity) =~= seq![identity] + s.ancestors);
    }
}

/// What is answered is kept as it was answered, and nothing else that is known of the
/// root changes with it.
pub proof fn law_what_is_answered_is_kept(s: SpawnModel, answer: SpawnAnswer)
    requires
        fits(s.ask(), answer),
    ensures
        has_kept(s, answer, s.next(answer)),
{
    if is_choosing(s.state) {
        lemma_kept_in_choice(s, answer);
    } else if is_confirming(s.state) {
        lemma_kept_in_confirming(s, answer);
    } else {
        lemma_kept_in_gathering(s, answer);
    }
}

/// The failure of the root, under its canonical path.
pub open spec fn root_fails(source: IoError) -> Option<SourceError> {
    Some(SourceError::RootUnavailable { root: RootRef::Canonical, source })
}

/// The failure of one of the directories that the root lies in.
pub open spec fn ancestor_fails(i: int, e: Errno) -> Option<SourceError> {
    Some(
        SourceError::RootUnavailable {
            root: RootRef::Ancestor(i as usize),
            source: IoError::Os(e),
        },
    )
}

/// The failure of a start with too many exclusions, if it is one.
pub open spec fn exclusions_fail(s: SpawnModel) -> Option<SourceError> {
    if s.exclusions.len() > s.config.max_exclusions {
        Some(SourceError::TooManyExclusions { supplied: s.exclusions.len() as usize })
    } else {
        None
    }
}

/// The failure of a start for which fanotify does not serve, if it is one: where the
/// choice is left open, inotify takes over.
pub open spec fn trial_fails(s: SpawnModel, stage: ProbeStage) -> Option<SourceError> {
    if s.config.backend == Backend::Auto {
        exclusions_fail(s)
    } else {
        Some(SourceError::BackendProbeFailed { stage })
    }
}

/// What opening a path in these ways fails for, if it does: the error that was
/// answered; but where the kernel lacks the one call, the path is walked, unless there
/// are names on it that are not of their own.
pub open spec fn opening_fails(s: SpawnModel, opened: Result<(), Errno>) -> Option<Errno> {
    match opened {
        Ok(_) => None,
        Err(e) => if s.opening.state is Whole && e == ENOSYS {
            if s.opening.plain {
                None
            } else {
                Some(EINVAL)
            }
        } else {
            Some(e)
        },
    }
}

/// What a path that is walked down for the last time fails for.
pub open spec fn trace_fails(s: SpawnModel, k: int, e: Errno) -> Option<SourceError> {
    if k == s.opening.names.len() {
        root_fails(IoError::Os(e))
    } else {
        ancestor_fails(s.opening.names.len() - 1 - k, e)
    }
}

/// What the start fails for with this answer, if it does.
pub open spec fn reason(s: SpawnModel, answer: SpawnAnswer) -> Option<SourceError> {
    match (s.state, answer) {
        (SpawnState::Canonicalize, SpawnAnswer::Canonical(Err(source))) => Some(
            SourceError::RootUnavailable { root: RootRef::Supplied, source },
        ),
        (SpawnState::Pin, SpawnAnswer::Opened(opened)) => match opening_fails(s, opened) {
            Some(e) => root_fails(IoError::Os(e)),
            None => None,
        },
        (SpawnState::Statx, SpawnAnswer::Statx(Err(e))) => root_fails(
            if e == ENOSYS || e == EOPNOTSUPP {
                IoError::Refused(Refusal::NoStatx)
            } else {
                IoError::Os(e)
            },
        ),
        (SpawnState::Statfs, SpawnAnswer::Statfs(Err(e))) => root_fails(IoError::Os(e)),
        (SpawnState::Statfs, SpawnAnswer::Statfs(Ok(f_type))) => if is_remote(f_type) {
            root_fails(IoError::Refused(Refusal::NoReliableEvents))
        } else if s.config.resolve_only {
            None
        } else {
            match s.config.backend {
                Backend::Inotify => exclusions_fail(s),
                Backend::Foreign => Some(
                    SourceError::ForeignBackend { requested: Backend::Foreign },
                ),
                _ => None,
            }
        },
        (SpawnState::ProbeInit, SpawnAnswer::Probed(false)) => trial_fails(s, ProbeStage::Init),
        (SpawnState::ProbeMark, SpawnAnswer::Probed(false)) => trial_fails(s, ProbeStage::Mark),
        (SpawnState::ProbeHandle, SpawnAnswer::ProbedHandle(rc, errno)) => if rc == 0 || errno
            == Some(75i32) {
            None
        } else {
            trial_fails(s, ProbeStage::Handle)
        },
        (SpawnState::ProbeEncode, SpawnAnswer::Handle(None)) => trial_fails(s, ProbeStage::Handle),
        (SpawnState::ProbeEncode, SpawnAnswer::Handle(Some(_))) => exclusions_fail(s),
        (SpawnState::Fsid, SpawnAnswer::Fsid(Err(e))) => root_fails(IoError::Os(e)),
        (SpawnState::Stat, SpawnAnswer::Stat(Err(e))) => root_fails(IoError::Os(e)),
        (SpawnState::Mount, SpawnAnswer::Mount(Err(e))) => root_fails(IoError::Os(e)),
        (SpawnState::RootHandle, SpawnAnswer::Handle(None)) => root_fails(
            IoError::Refused(Refusal::RootWithoutHandle),
        ),
        (SpawnState::Walk, SpawnAnswer::Walked(a)) => match s.walk->0.next(a) {
            WalkModel::Failed(WalkError::Incomplete(_)) => trial_fails(s, ProbeStage::Walk),
            WalkModel::Failed(WalkError::RootGone(source)) => root_fails(source),
            _ => None,
        },
        (SpawnState::CreateInstance, SpawnAnswer::Created(Err(e))) => Some(e),
        (SpawnState::CreateWake, SpawnAnswer::Woken(Err(e))) => Some(e),
        (SpawnState::Start, SpawnAnswer::Started(Err(e))) => Some(e),
        (SpawnState::Pinned, SpawnAnswer::Stat(Err(e))) => root_fails(IoError::Os(e)),
        (SpawnState::Pinned, SpawnAnswer::Stat(Ok((dev, ino)))) => if dev == s.facts.identity.dev
            && ino == s.facts.identity.ino {
            None
        } else {
            Some(SourceError::RootReplaced)
        },
        (SpawnState::Metadata, SpawnAnswer::Metadata(Err(source))) => root_fails(source),
        (SpawnState::Metadata, SpawnAnswer::Metadata(Ok((is_dir, dev, ino)))) => if !is_dir {
            Some(SourceError::NotADirectory)
        } else if dev != s.facts.identity.dev || ino != s.facts.identity.ino {
            Some(SourceError::RootReplaced)
        } else {
            None
        },
        (SpawnState::AncestorOpen(i), SpawnAnswer::Opened(opened)) => match opening_fails(
            s,
            opened,
        ) {
            Some(e) => ancestor_fails(i as int, e),
            None => None,
        },
        (SpawnState::AncestorStat(i), SpawnAnswer::Stat(Err(e))) => ancestor_fails(i as int, e),
        (SpawnState::TraceOpen(k), SpawnAnswer::Opened(Err(e))) => trace_fails(s, k as int, e),
        (SpawnState::TraceStat(k), SpawnAnswer::Stat(Err(e))) => trace_fails(s, k as int, e),
        (SpawnState::TraceStat(k), SpawnAnswer::Stat(Ok((dev, ino)))) => if k
            == s.opening.names.len() && (dev != s.facts.identity.dev || ino
            != s.facts.identity.ino) {
            Some(SourceError::RootReplaced)
        } else {
            None
        },
        _ => None,
    }
}

/// A start fails for a reason and with that reason's error, and for nothing else; but a
/// fanotify root whose path has names on it that are not of their own cannot be walked
/// down, and fails where that walk would begin.
pub proof fn law_a_start_fails_only_for_a_reason(s: SpawnModel, answer: SpawnAnswer)
    requires
        s.wf(),
        fits(s.ask(), answer),
    ensures
        match reason(s, answer) {
            Some(e) => s.next(answer).state matches SpawnState::Failed { error, .. } && error
                == e,
            None => s.next(answer).state matches SpawnState::Failed { error, .. } ==> {
                &&& s.kind == BackendKind::Fanotify
                &&& s.state is Metadata || (s.state is Mounts && s.config.resolve_only)
                &&& Some(error) == root_fails(IoError::Os(EINVAL))
                &&& !s.next(answer).opening.plain
            },
        },
{
    reveal(SpawnModel::choice_step);
    reveal(SpawnModel::gather_step);
    reveal(SpawnModel::confirm_step);
    reveal(SpawnModel::walk_step);
}

/// Whether `n` is where `s` goes on to with an answer that it does not fail for.
pub open spec fn has_gone_on(s: SpawnModel, answer: SpawnAnswer, n: SpawnModel) -> bool {
    match s.state {
        SpawnState::Canonicalize => n.state is Pin && n.kind == s.kind && n.opening
            == OpeningModel::start(components(n.root)),
        SpawnState::Pin => (n.state is Statx <==> n.opening.state is Done) && (n.state is
            Statx || n.state is Pin) && n.kind == s.kind,
        SpawnState::Statx => n.state is Statfs && n.kind == s.kind,
        SpawnState::Statfs => if s.config.resolve_only {
            n.state is Stat && n.kind == s.kind
        } else if s.config.backend == Backend::Inotify {
            n.state is Stat && n.kind == BackendKind::Inotify
        } else {
            n.state is ProbeInit && n.kind == s.kind
        },
        SpawnState::ProbeInit => if answer == SpawnAnswer::Probed(true) {
            n.state is ProbeMark && n.kind == s.kind
        } else {
            n.state is Stat && n.kind == BackendKind::Inotify
        },
        SpawnState::ProbeMark => if answer == SpawnAnswer::Probed(true) {
            n.state is ProbeHandle && n.kind == s.kind
        } else {
            n.state is Stat && n.kind == BackendKind::Inotify
        },
        SpawnState::ProbeHandle => if answer->ProbedHandle_0 == 0
            || answer->ProbedHandle_1 == Some(75i32) {
            n.state is ProbeEncode && n.kind == s.kind
        } else {
            n.state is Stat && n.kind == BackendKind::Inotify
        },
        SpawnState::ProbeEncode => if answer->Handle_0 is Some {
            n.state is Fsid && n.kind == BackendKind::Fanotify
        } else {
            n.state is Stat && n.kind == BackendKind::Inotify
        },
        SpawnState::Fsid => n.state is Stat && n.kind == s.kind,
        SpawnState::Stat => n.state is Mount && n.kind == s.kind,
        SpawnState::Mount => n.state is Mounts && n.kind == s.kind,
        SpawnState::Mounts => n.kind == s.kind && if s.config.resolve_only {
            is_surveying(n)
        } else if s.kind == BackendKind::Inotify {
            n.state is CreateInstance
        } else {
            n.state is RootHandle
        },
        SpawnState::RootHandle => n.state is Walk && n.kind == s.kind,
        SpawnState::Walk => match s.walk->0.next(answer->Walked_0) {
            WalkModel::Done(_) => n.state is CreateWake && n.kind == s.kind,
            WalkModel::Failed(_) => n.state is Stat && n.kind == BackendKind::Inotify,
            walk => n.state is Walk && n.kind == s.kind && n.walk == Some(walk),
        },
        SpawnState::CreateInstance => n.state is CreateWake && n.kind == s.kind,
        SpawnState::CreateWake => n.state is Start && n.kind == s.kind,
        SpawnState::Start => n.state is Pinned && n.kind == s.kind,
        SpawnState::Pinned => n.state is Metadata && n.kind == s.kind,
        SpawnState::Metadata => n.kind == s.kind && is_surveying(n),
        SpawnState::AncestorOpen(i) => n.kind == s.kind && n.state
            == if n.opening.state is Done {
            SpawnState::AncestorStat(i)
        } else {
            SpawnState::AncestorOpen(i)
        },
        SpawnState::AncestorStat(_) => n.kind == s.kind && is_surveying(n),
        SpawnState::TraceOpen(k) => n.kind == s.kind && n.state == SpawnState::TraceStat(
            k,
        ),
        SpawnState::TraceStat(k) => n.kind == s.kind && n.state == if k
            == s.opening.names.len() {
            SpawnState::Done
        } else {
            SpawnState::TraceOpen((k + 1) as usize)
        },
        _ => true,
    }
}

proof fn lemma_goes_on_in_choice(s: SpawnModel, answer: SpawnAnswer)
    requires
        s.wf(),
        fits(s.ask(), answer),
        reason(s, answer) is None,
        is_choosing(s.state),
    ensures
        has_gone_on(s, answer, s.choice_step(answer)),
{
    reveal(SpawnModel::choice_step);
}

proof fn lemma_goes_on_in_gathering(s: SpawnModel, answer: SpawnAnswer)
    requires
        s.wf(),
        fits(s.ask(), answer),
        reason(s, answer) is None,
        is_gathering(s.state),
    ensures
        has_gone_on(s, answer, s.gather_step(answer)),
{
    reveal(SpawnModel::gather_step);
    reveal(SpawnModel::walk_step);
}

proof fn lemma_goes_on_in_confirming(s: SpawnModel, answer: SpawnAnswer)
    requires
        s.wf(),
        ancestor_count(s.root) <= usize::MAX,
        fits(s.ask(), answer),
        reason(s, answer) is None,
        is_confirming(s.state),
    ensures
        has_gone_on(s, answer, s.confirm_step(answer)),
{
    reveal(SpawnModel::confirm_step);
}

/// What a start goes on to where nothing fails. The root is made fit first, and then,
/// where fanotify may serve it, fanotify is tried; where that trial fails and the choice
/// is left open, inotify takes over. Then the root is read and the reader is started,
/// and then the root is looked at again, with the directories that it lies in.
pub proof fn law_a_start_goes_on_in_order(s: SpawnModel, answer: SpawnAnswer)
    requires
        s.wf(),
        ancestor_count(s.root) <= usize::MAX,
        fits(s.ask(), answer),
        reason(s, answer) is None,
    ensures
        has_gone_on(s, answer, s.next(answer)),
{
    if is_choosing(s.state) {
        lemma_goes_on_in_choice(s, answer);
    } else if is_confirming(s.state) {
        lemma_goes_on_in_confirming(s, answer);
    } else {
        lemma_goes_on_in_gathering(s, answer);
    }
}

/// Whether the start is at the next of the directories that the root lies in: of an
/// inotify source, one after the other and then at its end; of a fanotify source, at the
/// top of the root's path, if that can be walked down.
pub open spec fn is_surveying(s: SpawnModel) -> bool {
    match s.kind {
        BackendKind::Inotify => match s.state {
            SpawnState::AncestorOpen(i) => {
                &&& i == s.ancestors.len() < ancestor_count(s.root)
                &&& s.opening == OpeningModel::start(
                    components(s.root).take(components(s.root).len() - 1 - i),
                )
            },
            SpawnState::Done => s.ancestors.len() == ancestor_count(s.root),
            _ => false,
        },
        BackendKind::Fanotify => {
            &&& s.opening == OpeningModel::start(components(s.root))
            &&& if s.opening.plain {
                s.state == SpawnState::TraceOpen(0)
            } else {
                s.state is Failed
            }
        },
    }
}

/// What a start asks for in each of its states. What is read of the root is read of the pin,
/// but for the look at its path once the reader runs.
pub proof fn law_a_start_asks_for_what_it_needs(s: SpawnModel)
    ensures
        match s.state {
            SpawnState::Canonicalize => s.ask() == SpawnAsk::Canonicalize,
            SpawnState::Pin => s.ask() == s.opening.ask(),
            SpawnState::AncestorOpen(_) => s.ask() == s.opening.ask(),
            SpawnState::Statx => s.ask() == SpawnAsk::Statx,
            SpawnState::Statfs => s.ask() == SpawnAsk::Statfs,
            SpawnState::ProbeInit => s.ask() == SpawnAsk::ProbeInit,
            SpawnState::ProbeMark => s.ask() == SpawnAsk::ProbeMark,
            SpawnState::ProbeHandle => s.ask() == SpawnAsk::ProbeHandle,
            SpawnState::ProbeEncode => s.ask() == SpawnAsk::Handle,
            SpawnState::Fsid => s.ask() == SpawnAsk::Fsid,
            SpawnState::Stat => s.ask() == SpawnAsk::Stat,
            SpawnState::Mount => s.ask() == SpawnAsk::Mount,
            SpawnState::Mounts => s.ask() == SpawnAsk::Mounts,
            SpawnState::RootHandle => s.ask() == SpawnAsk::Handle,
            SpawnState::Walk => s.walk is Some ==> s.ask() == SpawnAsk::Walk(s.walk->0.ask()),
            SpawnState::CreateInstance => s.ask() == SpawnAsk::CreateInstance,
            SpawnState::CreateWake => s.ask() == SpawnAsk::CreateWake,
            SpawnState::Start => s.ask() == SpawnAsk::Start,
            SpawnState::Pinned => s.ask() == SpawnAsk::Stat,
            SpawnState::Metadata => s.ask() == SpawnAsk::Metadata,
            SpawnState::AncestorStat(_) => s.ask() == SpawnAsk::StatOpened,
            SpawnState::TraceStat(_) => s.ask() == SpawnAsk::StatOpened,
            SpawnState::TraceOpen(k) => if k == 0 {
                s.ask() == SpawnAsk::OpenAnchor {
                    absolute: s.opening.absolute,
                    last: s.opening.names.len() == 0,
                }
            } else {
                s.ask() == SpawnAsk::OpenName {
                    index: (k - 1) as usize,
                    last: k == s.opening.names.len(),
                }
            },
            SpawnState::Done => s.ask() == SpawnAsk::Nothing,
            SpawnState::Failed { .. } => s.ask() == SpawnAsk::Nothing,
        },
{
}

/// A start begins with the caller's root, of which nothing is known; without a root it has
/// failed.
pub proof fn law_a_start_begins_with_its_root(
    config: SpawnConfig,
    exclusions: Seq<Seq<u8>>,
    has_root: bool,
)
    ensures
        ({
            let s = SpawnModel::start(config, exclusions, has_root);
            &&& s.config == config && s.exclusions == exclusions
            &&& s.ancestors.len() == 0 && s.mounts.len() == 0
            &&& has_no_seed(s)
            &&& s.kind == BackendKind::Inotify
            &&& s.state == if has_root {
                SpawnState::Canonicalize
            } else {
                SpawnState::Failed { error: SourceError::NoRoots, started: false }
            }
        }),
{
}

} // verus!
