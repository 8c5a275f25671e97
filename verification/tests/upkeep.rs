//! What the fanotify reader does with a buffer, and with a revealed location.

use tributary_fs::attribution::SourceMessage;
use tributary_fs::error::{EACCES, ENOENT, IoError, Refusal, SourceError};
use tributary_fs::fanotify::event::{
    FAN_CREATE, FAN_ONDIR, FAN_RENAME, FanMask, RawFanotifyEvent, RenameInfo,
};
use tributary_fs::fanotify::fid::{Fid, SeedEntry};
use tributary_fs::fanotify::map::FidMap;
use tributary_fs::fanotify::revealed::AdmitWalk;
use tributary_fs::fanotify::tree::{ReseedContext, Walk, WalkKind};
use tributary_fs::fanotify::upkeep::{
    Admit, AdmitState, Admittance, Intake, IntakeState, Reseed, room_left,
};
use tributary_fs::fanotify::walk::{
    DeclinedBoundary, MAX_WALK_DECLINES, WalkError, WalkSeed,
};
use tributary_fs::fanotify::wire::FanOutcome;
use tributary_fs::lane::Lane;
use tributary_fs::scope::ScopeFrame;

fn fid(tag: u8) -> Fid {
    Fid::new([0; 8], vec![tag])
}

fn reseed_context(max_directories: Option<usize>) -> ReseedContext {
    ReseedContext {
        root: b"/root".to_vec(),
        fsid: [0; 8],
        root_dev: 10,
        root_mnt_id: Some(42),
        root_fid: fid(1),
        max_directories,
        exclusions: Vec::new(),
    }
}

/// The root with `a` and `b` in it.
fn seeded(context: &ReseedContext) -> FidMap {
    let mut map = FidMap::with_capacity(context.max_directories);
    map.seed(&vec![
        SeedEntry::root(fid(1), b"/root"),
        SeedEntry::child(fid(2), fid(1), b"a".to_vec()),
        SeedEntry::child(fid(3), fid(1), b"b".to_vec()),
    ]);
    map
}

fn rename(target: u8, from: u8, to: u8) -> RawFanotifyEvent {
    RawFanotifyEvent {
        mask: FanMask::new(FAN_RENAME | FAN_ONDIR),
        dir_fid: None,
        target_fid: Some(fid(target)),
        name: None,
        rename: Some(RenameInfo {
            old_dir: fid(from),
            old_name: b"moved".to_vec(),
            new_dir: fid(to),
            new_name: b"moved".to_vec(),
        }),
    }
}

fn create_dir(target: u8, dir: u8, name: &[u8]) -> RawFanotifyEvent {
    RawFanotifyEvent {
        mask: FanMask::new(FAN_CREATE | FAN_ONDIR),
        dir_fid: Some(fid(dir)),
        target_fid: Some(fid(target)),
        name: Some(name.to_vec()),
        rename: None,
    }
}

fn buffer(events: Vec<RawFanotifyEvent>) -> FanOutcome {
    FanOutcome { events, lossy: false }
}

fn found(entries: Vec<SeedEntry>, declined: usize) -> Result<WalkSeed, WalkError> {
    let declined = (0..declined)
        .map(|i| DeclinedBoundary { location: vec![i as u8], dev: 1, mnt_id: None })
        .collect();
    Ok(WalkSeed { entries, declined, fence_mnt_id: Some(42) })
}

fn incomplete() -> Result<WalkSeed, WalkError> {
    Err(WalkError::Incomplete(IoError::Os(EACCES)))
}

/// The path of a walk, its two bounds, and whether it is one of the root.
fn shape(walk: Option<Walk>) -> (Vec<u8>, Option<usize>, usize, bool) {
    match walk {
        Some(Walk::Prepare(plan, _)) => (
            plan.path,
            plan.frame.budget,
            plan.frame.decline_budget,
            matches!(plan.kind, WalkKind::Root(_)),
        ),
        other => panic!("a walk is to be made: {other:?}"),
    }
}

#[test]
fn a_directory_that_moved_in_is_walked_where_the_buffer_left_it() {
    let context = reseed_context(Some(10));
    let mut map = seeded(&context);
    let moves = buffer(vec![rename(9, 90, 2), rename(9, 2, 3)]);
    let mut intake = Intake::new(&context, &mut map, moves);
    assert_eq!(intake.state(), IntakeState::Subtree { at: 0, retried: false });
    assert_eq!(
        shape(intake.walk(&context, &map)),
        (b"/root/b/moved".to_vec(), Some(6), MAX_WALK_DECLINES, false),
        "at its current path, in the room that is left"
    );
    let inner = vec![SeedEntry::child(fid(20), fid(9), b"inner".to_vec())];
    intake.step(&context, &mut map, found(inner, 0));
    assert_eq!(intake.state(), IntakeState::Done);
    assert!(intake.walk(&context, &map).is_none());
    assert_eq!(map.resolve_path(&fid(20)), Some(b"/root/b/moved/inner".to_vec()));
    assert_eq!(
        map.pending_walk_target(&fid(9)),
        Some((b"/root/b/moved".to_vec(), false)),
        "what is beneath it has been walked"
    );
    let Some(SourceMessage::Batch(events)) = intake.finish(&mut Lane::new(8)) else {
        panic!("both moves are told");
    };
    assert_eq!(events.len(), 2);
}

#[test]
fn a_directory_that_left_again_is_not_walked() {
    let context = reseed_context(None);
    let mut map = seeded(&context);
    let intake =
        Intake::new(&context, &mut map, buffer(vec![rename(9, 90, 2), rename(9, 2, 91)]));
    assert_eq!(intake.state(), IntakeState::Done);
    assert!(!map.contains(&fid(9)));
}

#[test]
fn the_walks_of_a_buffer_share_one_allowance_and_the_room_of_the_map() {
    let context = reseed_context(Some(10));
    let mut map = seeded(&context);
    let moves = buffer(vec![rename(8, 90, 2), rename(9, 91, 3)]);
    let mut intake = Intake::new(&context, &mut map, moves);
    let (path, budget, declines, _) = shape(intake.walk(&context, &map));
    assert_eq!((path, budget), (b"/root/a/moved".to_vec(), Some(5)));
    assert_eq!(declines, MAX_WALK_DECLINES);
    let inner = vec![SeedEntry::child(fid(20), fid(8), b"inner".to_vec())];
    intake.step(&context, &mut map, found(inner, 7));
    let (path, budget, declines, _) = shape(intake.walk(&context, &map));
    assert_eq!((path, budget), (b"/root/b/moved".to_vec(), Some(4)));
    assert_eq!(declines, MAX_WALK_DECLINES - 7, "what is left, not all of it");
    assert_eq!(room_left(&context, &map), Some(4));
    intake.step(&context, &mut map, found(Vec::new(), 2));
    assert_eq!(intake.state(), IntakeState::Done);
    assert_eq!(
        intake.declined().iter().map(|d| d.location[0]).collect::<Vec<_>>(),
        [0, 1, 2, 3, 4, 5, 6, 0, 1],
        "what both walks declined is told, the first walk's first"
    );
    assert_eq!(intake.fence_mnt_id(), None, "the root was not walked");
}

#[test]
fn a_walk_that_fails_is_made_once_more_and_then_ends_the_reader() {
    let context = reseed_context(None);
    let mut map = seeded(&context);
    let mut intake = Intake::new(&context, &mut map, buffer(vec![rename(9, 90, 2)]));
    intake.step(&context, &mut map, incomplete());
    assert_eq!(intake.state(), IntakeState::Subtree { at: 0, retried: true });
    assert!(intake.walk(&context, &map).is_some());
    intake.step(&context, &mut map, incomplete());
    let error = SourceError::ReadFailed { source: IoError::Os(EACCES) };
    assert_eq!(intake.state(), IntakeState::Failed(error));
    assert_eq!(intake.finish(&mut Lane::new(8)), Some(SourceMessage::Fatal(error)));

    let mut intake = Intake::new(&context, &mut map, buffer(vec![rename(8, 90, 2)]));
    intake.step(&context, &mut map, incomplete());
    intake.step(&context, &mut map, found(Vec::new(), 0));
    assert_eq!(intake.state(), IntakeState::Done, "the second try counts for itself");
}

#[test]
fn a_loss_builds_the_map_anew_and_tells_no_event() {
    let context = reseed_context(None);
    let mut map = seeded(&context);
    let lossy = FanOutcome { events: vec![rename(9, 90, 2)], lossy: true };
    let mut intake = Intake::new(&context, &mut map, lossy);
    assert_eq!(intake.state(), IntakeState::Reseed(Reseed::Walk { retried: false }));
    assert_eq!(
        shape(intake.walk(&context, &map)),
        (b"/root".to_vec(), None, MAX_WALK_DECLINES, true)
    );
    intake.step(&context, &mut map, incomplete());
    assert!(map.contains(&fid(9)), "the failed walk changed nothing");
    assert_eq!(intake.fence_mnt_id(), None);
    intake.step(&context, &mut map, found(vec![SeedEntry::root(fid(1), b"/root")], 3));
    assert_eq!(intake.state(), IntakeState::Done);
    assert_eq!(map.dir_count(), 1);
    assert_eq!(intake.declined().len(), 3);
    assert_eq!(intake.declined()[2].location, vec![2]);
    assert_eq!(intake.fence_mnt_id(), Some(42));
    assert_eq!(intake.finish(&mut Lane::new(8)), Some(SourceMessage::Overflow));

    let lossy = FanOutcome { events: Vec::new(), lossy: true };
    let mut intake = Intake::new(&context, &mut map, lossy);
    intake.step(&context, &mut map, incomplete());
    intake.step(&context, &mut map, Err(WalkError::RootGone(IoError::Os(ENOENT))));
    assert_eq!(
        intake.state(),
        IntakeState::Failed(SourceError::ReadFailed { source: IoError::Os(ENOENT) })
    );
}

#[test]
fn a_map_that_outgrows_its_bound_ends_the_reader() {
    let context = reseed_context(Some(3));
    let mut map = seeded(&context);
    let intake = Intake::new(&context, &mut map, buffer(vec![create_dir(9, 1, b"c")]));
    let error =
        SourceError::ReadFailed { source: IoError::Refused(Refusal::DirectoryBudget) };
    assert_eq!(intake.state(), IntakeState::Failed(error));
    assert_eq!(room_left(&context, &map), Some(0));

    let context = reseed_context(Some(4));
    let mut map = seeded(&context);
    let intake = Intake::new(&context, &mut map, buffer(vec![create_dir(9, 1, b"c")]));
    assert_eq!(intake.state(), IntakeState::Done);
}

fn frame() -> ScopeFrame {
    ScopeFrame { root_dev: Some(10), root_mnt_id: Some(42) }
}

fn revealed(parent: u8) -> Result<AdmitWalk, WalkError> {
    Ok(AdmitWalk::Revealed {
        parent: fid(parent),
        seed: WalkSeed {
            entries: vec![SeedEntry::child(fid(30), fid(parent), b"vol".to_vec())],
            declined: vec![DeclinedBoundary {
                location: b"/root/a/vol/m".to_vec(),
                dev: 7,
                mnt_id: Some(70),
            }],
            fence_mnt_id: Some(42),
        },
    })
}

#[test]
fn a_revealed_location_is_taken_in_where_the_map_reaches() {
    let context = reseed_context(None);
    let mut map = seeded(&context);
    let mut plan = Admit::new(b"/root/a/vol", frame());
    assert!(plan.look(&context, &map).is_some());
    assert!(plan.walk(&context).is_none());
    plan.on_looked(&mut map, revealed(2));
    assert_eq!(plan.state(), AdmitState::Done(Admittance::Admitted));
    assert_eq!(map.resolve_path(&fid(30)), Some(b"/root/a/vol".to_vec()));
    assert_eq!(plan.finish(&mut Lane::new(8)), None);
    assert_eq!(plan.declined().len(), 1);
    assert_eq!(plan.declined()[0].location, b"/root/a/vol/m".to_vec());
    assert_eq!((plan.declined()[0].dev, plan.declined()[0].mnt_id), (7, Some(70)));
    assert_eq!(plan.fence_mnt_id(), Some(42));

    let mut map = seeded(&context);
    let mut plan = Admit::new(b"/root/a/vol", frame());
    plan.on_looked(&mut map, revealed(77));
    assert_eq!(plan.state(), AdmitState::Done(Admittance::Nothing));
    assert!(!map.contains(&fid(30)), "its parent is not in the map");
    assert!(plan.declined().is_empty());
}

#[test]
fn a_location_that_cannot_be_judged_has_the_map_built_anew() {
    let context = reseed_context(None);
    for looks in [
        vec![Ok(AdmitWalk::Stale)],
        vec![
            Err(WalkError::Incomplete(IoError::Os(EACCES))),
            Err(WalkError::Incomplete(IoError::Os(EACCES))),
        ],
    ] {
        let mut map = seeded(&context);
        let mut plan = Admit::new(b"/root/a/vol", frame());
        for looked in looks {
            assert!(plan.look(&context, &map).is_some());
            plan.on_looked(&mut map, looked);
        }
        assert!(plan.look(&context, &map).is_none());
        assert!(shape(plan.walk(&context)).3);
        plan.on_walked(&context, &mut map, found(vec![SeedEntry::root(fid(1), b"/root")], 2));
        assert_eq!((plan.declined().len(), plan.fence_mnt_id()), (2, Some(42)));
        assert_eq!(plan.state(), AdmitState::Done(Admittance::Recovered));
        assert_eq!(map.dir_count(), 1);
        assert_eq!(plan.finish(&mut Lane::new(8)), Some(SourceMessage::Overflow));
    }
}

#[test]
fn a_location_with_nothing_to_take_in_leaves_the_map_alone() {
    let context = reseed_context(Some(3));
    let covered = Admittance::StillCovered { dev: Some(10), mnt_id: Some(7) };
    for (looked, came) in [
        (AdmitWalk::StillCovered { dev: Some(10), mnt_id: Some(7) }, covered),
        (AdmitWalk::Nothing, Admittance::Nothing),
    ] {
        let mut map = seeded(&context);
        let mut plan = Admit::new(b"/root/a/vol", frame());
        plan.on_looked(&mut map, Ok(looked));
        assert_eq!(plan.state(), AdmitState::Done(came));
        assert_eq!(map.dir_count(), 3);
        assert_eq!(plan.finish(&mut Lane::new(8)), None);
    }
    let mut map = seeded(&context);
    let mut plan = Admit::new(b"/root/a/vol", frame());
    plan.on_looked(&mut map, revealed(2));
    assert_eq!(
        plan.state(),
        AdmitState::Failed(SourceError::ReadFailed {
            source: IoError::Refused(Refusal::DirectoryBudget)
        })
    );
}
