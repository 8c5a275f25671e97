//! What events come to, and what they do to the map.

use tributary_fs::fanotify::admission::{Admission, MemoBatch, classify};
use tributary_fs::fanotify::event::{
    AdmittedEvent, FAN_ATTRIB, FAN_CREATE, FAN_DELETE, FAN_DELETE_SELF,
    FAN_EVENT_INFO_TYPE_DFID_NAME, FAN_MODIFY, FAN_MOVE_SELF, FAN_ONDIR, FAN_RENAME, FanMask,
    RawFanotifyEvent, RenameInfo,
};
use tributary_fs::fanotify::fid::{Fid, SeedEntry};
use tributary_fs::fanotify::map::FidMap;
use tributary_fs::fanotify::wire::decode_events;

const FSID: [u8; 8] = [7; 8];

const SUBSCRIBED: [u64; 8] = [
    FAN_CREATE,
    FAN_DELETE,
    FAN_MODIFY,
    FAN_ATTRIB,
    FAN_DELETE_SELF,
    FAN_MOVE_SELF,
    FAN_ONDIR,
    FAN_RENAME,
];

fn fid(tag: u8) -> Fid {
    Fid::new([tag; 8], vec![tag])
}

fn classify_one(map: &mut FidMap, event: &RawFanotifyEvent) -> Admission {
    classify(map, event, &mut MemoBatch::new(), &Vec::new())
}

fn assert_adjacency(map: &FidMap) {
    let mut held = 0;
    for tag in 0..=u8::MAX {
        assert_eq!(map.contains(&fid(tag)), map.resolve_path(&fid(tag)).is_some());
        if map.contains(&fid(tag)) {
            held += 1;
        }
    }
    assert_eq!(held, map.dir_count());
}

fn seeded() -> FidMap {
    let mut map = FidMap::new();
    map.seed(&vec![
        SeedEntry::root(fid(1), b"/root"),
        SeedEntry::child(fid(2), fid(1), b"sub".to_vec()),
    ]);
    map
}

fn dirent(mask: u64, dir_fid: Fid, name: &[u8], target: Option<Fid>) -> RawFanotifyEvent {
    RawFanotifyEvent {
        mask: FanMask::new(mask),
        dir_fid: Some(dir_fid),
        target_fid: target,
        name: Some(name.to_vec()),
        rename: None,
    }
}

fn self_dfid(mask: u64, dir_fid: Fid) -> RawFanotifyEvent {
    RawFanotifyEvent {
        mask: FanMask::new(mask),
        dir_fid: Some(dir_fid),
        target_fid: None,
        name: None,
        rename: None,
    }
}

fn self_fid_only(mask: u64, self_fid: Fid) -> RawFanotifyEvent {
    RawFanotifyEvent {
        mask: FanMask::new(mask),
        dir_fid: None,
        target_fid: Some(self_fid),
        name: None,
        rename: None,
    }
}

fn rename_ev(
    mask: u64,
    target: Option<Fid>,
    old_dir: Fid,
    old_name: &[u8],
    new_dir: Fid,
    new_name: &[u8],
) -> RawFanotifyEvent {
    RawFanotifyEvent {
        mask: FanMask::new(mask),
        dir_fid: None,
        target_fid: target,
        name: None,
        rename: Some(RenameInfo {
            old_dir,
            old_name: old_name.to_vec(),
            new_dir,
            new_name: new_name.to_vec(),
        }),
    }
}

fn wire_fid(fsid: [u8; 8], handle_type: i32, opaque: &[u8]) -> Fid {
    let mut handle = handle_type.to_ne_bytes().to_vec();
    handle.extend_from_slice(opaque);
    Fid::new(fsid, handle)
}

fn dfid_name_event(
    mask: u64,
    fsid: [u8; 8],
    handle_type: i32,
    opaque: &[u8],
    name: &[u8],
) -> Vec<u8> {
    let mut fh = (opaque.len() as u32).to_ne_bytes().to_vec();
    fh.extend_from_slice(&handle_type.to_ne_bytes());
    fh.extend_from_slice(opaque);
    let mut payload = fsid.to_vec();
    payload.extend_from_slice(&fh);
    payload.extend_from_slice(name);
    payload.push(0);
    let record_len = (4 + payload.len()) as u16;
    let mut info = vec![FAN_EVENT_INFO_TYPE_DFID_NAME, 0];
    info.extend_from_slice(&record_len.to_ne_bytes());
    info.extend_from_slice(&payload);
    let event_len = (24 + info.len()) as u32;
    let mut buf = event_len.to_ne_bytes().to_vec();
    buf.push(3); // vers
    buf.push(0); // reserved
    buf.extend_from_slice(&24u16.to_ne_bytes()); // metadata_len
    buf.extend_from_slice(&mask.to_ne_bytes());
    buf.extend_from_slice(&(-1i32).to_ne_bytes()); // fd = FAN_NOFD
    buf.extend_from_slice(&0i32.to_ne_bytes()); // pid
    buf.extend_from_slice(&info);
    buf
}

fn forwarded(admission: Admission) -> AdmittedEvent {
    match admission {
        Admission::Forward(event)
        | Admission::LearnDir(event)
        | Admission::ForgetDir(event)
        | Admission::RootDeath(event)
        | Admission::Rename { event, .. } => event,
        other => panic!("expected a forwarded admission, got {other:?}"),
    }
}

#[test]
fn file_create_resolves_path() {
    let mut map = seeded();
    let ev = dirent(FAN_CREATE, fid(2), b"file.txt", Some(fid(7)));
    let admission = classify_one(&mut map, &ev);
    assert!(
        matches!(admission, Admission::Forward(_)),
        "a file create mutates no directory node"
    );
    assert_eq!(
        forwarded(admission).path.as_deref(),
        Some(b"/root/sub/file.txt".as_slice())
    );
}

#[test]
fn directory_create_is_learn_dir() {
    let mut map = seeded();
    let ev = dirent(FAN_CREATE | FAN_ONDIR, fid(2), b"newdir", Some(fid(7)));
    let admission = classify_one(&mut map, &ev);
    assert!(matches!(admission, Admission::LearnDir(_)));
    assert_eq!(
        forwarded(admission).path.as_deref(),
        Some(b"/root/sub/newdir".as_slice())
    );
}

#[test]
fn file_event_churn_never_grows_the_map() {
    let mut map = seeded();
    let generation = map.generation();
    for tag in 20..120u8 {
        let modify = dirent(FAN_MODIFY, fid(2), b"f.txt", Some(fid(tag)));
        assert!(
            matches!(classify_one(&mut map, &modify), Admission::Forward(_)),
            "in-root file modify forwards with no mutation"
        );
    }
    assert_eq!(
        map.dir_count(),
        2,
        "file churn left the two seeded directories"
    );
    assert_eq!(
        map.generation(),
        generation,
        "a file event mutates nothing, so the generation is unchanged"
    );
}

#[test]
fn classify_drops_unknown_directory() {
    let mut map = seeded();
    let ev = dirent(FAN_MODIFY, fid(99), b"elsewhere", None);
    assert!(matches!(
        classify_one(&mut map, &ev),
        Admission::ForeignDrop
    ));
}

#[test]
fn directory_create_is_learned() {
    let mut map = seeded();
    let ev = dirent(FAN_CREATE | FAN_ONDIR, fid(2), b"newdir", Some(fid(3)));
    assert!(matches!(
        classify_one(&mut map, &ev),
        Admission::LearnDir(_)
    ));
    let inside = dirent(FAN_MODIFY, fid(3), b"inside.txt", None);
    assert_eq!(
        forwarded(classify_one(&mut map, &inside)).path.as_deref(),
        Some(b"/root/sub/newdir/inside.txt".as_slice())
    );
}

#[test]
fn delete_self_of_subdir_forgets_it() {
    let mut map = seeded();
    let admission = classify_one(&mut map, &self_dfid(FAN_DELETE_SELF | FAN_ONDIR, fid(2)));
    assert!(matches!(admission, Admission::ForgetDir(_)));
    assert_eq!(
        forwarded(admission).path.as_deref(),
        Some(b"/root/sub".as_slice())
    );
    assert!(!map.contains(&fid(2)), "the directory is forgotten");
}

#[test]
fn move_self_of_subdir_forwards_without_forgetting() {
    let mut map = seeded();
    let admission = classify_one(&mut map, &self_dfid(FAN_MOVE_SELF | FAN_ONDIR, fid(2)));
    assert!(matches!(admission, Admission::Forward(_)));
    assert_eq!(
        forwarded(admission).path.as_deref(),
        Some(b"/root/sub".as_slice())
    );
    assert!(
        map.contains(&fid(2)),
        "a move-self does not forget the node — its rename re-parents it"
    );
}

#[test]
fn directory_delete_dirent_forgets_the_subtree() {
    let mut map = FidMap::new();
    map.seed(&vec![
        SeedEntry::root(fid(1), b"/root"),
        SeedEntry::child(fid(2), fid(1), b"sub".to_vec()),
        SeedEntry::child(fid(3), fid(2), b"child".to_vec()),
    ]);
    let ev = dirent(FAN_DELETE | FAN_ONDIR, fid(1), b"sub", Some(fid(2)));
    let admission = classify_one(&mut map, &ev);
    assert!(matches!(admission, Admission::ForgetDir(_)));
    assert_eq!(
        forwarded(admission).path.as_deref(),
        Some(b"/root/sub".as_slice())
    );
    assert_eq!(
        map.resolve_path(&fid(2)),
        None,
        "the deleted directory is forgotten"
    );
    assert_eq!(
        map.resolve_path(&fid(3)),
        None,
        "and its descendant prunes with it — no stale subtree left admitting"
    );
    assert_eq!(map.dir_count(), 1, "only the root remains");
}

#[test]
fn file_rename_resolves_both_ends() {
    let mut map = seeded();
    let generation = map.generation();
    let ev = rename_ev(FAN_RENAME, Some(fid(8)), fid(1), b"a.txt", fid(2), b"b.txt");
    let admission = classify_one(&mut map, &ev);
    assert!(matches!(admission, Admission::Rename { seed: None, .. }));
    let rename = forwarded(admission).rename.expect("rename info");
    assert_eq!(rename.old_path, b"/root/a.txt".to_vec());
    assert_eq!(rename.new_path, b"/root/sub/b.txt".to_vec());
    assert_eq!(
        map.generation(),
        generation,
        "a file rename left the map (and its two seeded directories) unchanged"
    );
}

#[test]
fn rename_outside_root_is_dropped() {
    let mut map = seeded();
    let ev = rename_ev(FAN_RENAME, None, fid(90), b"x", fid(91), b"y");
    assert!(matches!(
        classify_one(&mut map, &ev),
        Admission::ForeignDrop
    ));
}

#[test]
fn root_delete_from_foreign_parent_is_root_death() {
    let mut map = seeded();
    let generation = map.generation();
    let ev = dirent(FAN_DELETE | FAN_ONDIR, fid(99), b"root", Some(fid(1)));
    let admission = classify_one(&mut map, &ev);
    assert!(
        matches!(admission, Admission::RootDeath(_)),
        "the root deleted from its foreign parent is RootDeath, not a firehose drop: {admission:?}"
    );
    let event = forwarded(admission);
    assert_eq!(
        event.path.as_deref(),
        Some(b"/root".as_slice()),
        "RootDeath carries the root's OWN path, never a <foreign-parent>/root child"
    );
    assert!(
        event.mask.delete_self(),
        "a dirent-reported root delete normalizes to the DELETE_SELF self form for compile"
    );
    assert_eq!(
        map.generation(),
        generation,
        "the foreign-parent root death is a read-only decision — the map is untouched"
    );
}

#[test]
fn root_rename_from_foreign_parents_is_root_death() {
    let mut map = seeded();
    let generation = map.generation();
    let ev = rename_ev(
        FAN_RENAME | FAN_ONDIR,
        Some(fid(1)),
        fid(90),
        b"root",
        fid(91),
        b"moved",
    );
    let admission = classify_one(&mut map, &ev);
    assert!(
        matches!(admission, Admission::RootDeath(_)),
        "the root moved between two foreign parents is RootDeath, not both-ends-out ForeignDrop: {admission:?}"
    );
    let event = forwarded(admission);
    assert_eq!(event.path.as_deref(), Some(b"/root".as_slice()));
    assert!(
        event.mask.move_self(),
        "a moved root normalizes to the MOVE_SELF self form (terminal Rescan)"
    );
    assert_eq!(
        map.generation(),
        generation,
        "the foreign-parent root move is a read-only decision — the map is untouched"
    );
}

#[test]
fn foreign_parent_over_reaches_nothing() {
    let mut map = seeded();
    let generation = map.generation();
    let non_root = dirent(FAN_DELETE | FAN_ONDIR, fid(99), b"sub", Some(fid(2)));
    assert!(
        matches!(classify_one(&mut map, &non_root), Admission::Lossy),
        "a foreign parent over an in-map non-root target is the loss barrier, not a guess"
    );
    assert_eq!(
        map.generation(),
        generation,
        "the barrier decision mutates nothing before the reseed rebuilds truth"
    );

    let mut map = seeded();
    let foreign = dirent(FAN_DELETE | FAN_ONDIR, fid(99), b"x", Some(fid(98)));
    assert!(
        matches!(classify_one(&mut map, &foreign), Admission::ForeignDrop),
        "a fully-foreign dirent is still dropped — the superblock firehose filter"
    );
    let foreign_rename = rename_ev(
        FAN_RENAME | FAN_ONDIR,
        Some(fid(98)),
        fid(90),
        b"a",
        fid(91),
        b"b",
    );
    assert!(
        matches!(
            classify_one(&mut map, &foreign_rename),
            Admission::ForeignDrop
        ),
        "a fully-foreign rename is still dropped"
    );

    let mut map = seeded();
    let child = dirent(FAN_DELETE | FAN_ONDIR, fid(1), b"sub", Some(fid(2)));
    assert!(
        matches!(classify_one(&mut map, &child), Admission::ForgetDir(_)),
        "an in-root child delete still classifies by its in-root parent"
    );
}

#[test]
fn rename_into_root_admits_with_resolved_destination() {
    let mut map = seeded();
    let ev = rename_ev(
        FAN_RENAME,
        Some(fid(8)),
        fid(90),
        b"outside",
        fid(2),
        b"arrived.txt",
    );
    let admission = classify_one(&mut map, &ev);
    assert!(matches!(admission, Admission::Rename { seed: None, .. }));
    let rename = forwarded(admission).rename.expect("rename info");
    assert_eq!(rename.new_path, b"/root/sub/arrived.txt".to_vec());
}

#[test]
fn dir_move_in_from_outside_requests_a_subtree_walk() {
    let mut map = seeded();
    assert!(!map.contains(&fid(9)), "the moved dir starts unknown");
    let ev = rename_ev(
        FAN_RENAME | FAN_ONDIR,
        Some(fid(9)),
        fid(90),
        b"arrived",
        fid(2),
        b"arrived",
    );
    let admission = classify_one(&mut map, &ev);
    let Admission::Rename {
        event,
        seed: Some(moved_fid),
    } = admission
    else {
        panic!("a populated dir moved in from outside must request a subtree walk");
    };
    assert_eq!(
        moved_fid,
        fid(9),
        "the walk hangs descendants off the moved FID"
    );
    assert_eq!(
        event.rename.expect("rename info").new_path,
        b"/root/sub/arrived".to_vec(),
        "the forwarded move still carries the destination path"
    );
    assert_eq!(
        map.pending_walk_target(&fid(9)),
        Some((b"/root/sub/arrived".to_vec(), true)),
        "the moved directory is admitted and pending its subtree walk"
    );
}

#[test]
fn in_root_dir_rename_requests_no_walk() {
    let mut map = FidMap::new();
    map.seed(&vec![
        SeedEntry::root(fid(1), b"/root"),
        SeedEntry::child(fid(2), fid(1), b"sub".to_vec()),
        SeedEntry::child(fid(4), fid(1), b"dest".to_vec()),
    ]);
    let ev = rename_ev(
        FAN_RENAME | FAN_ONDIR,
        Some(fid(2)),
        fid(1),
        b"sub",
        fid(4),
        b"sub",
    );
    assert!(
        matches!(
            classify_one(&mut map, &ev),
            Admission::Rename { seed: None, .. }
        ),
        "an in-root rename of an already-mapped directory needs no subtree walk"
    );
    assert_eq!(
        map.resolve_path(&fid(2)),
        Some(b"/root/dest/sub".to_vec()),
        "the moved directory re-parents under the new in-root parent"
    );
}

#[test]
fn dir_move_out_then_back_in_re_walks() {
    let mut map = seeded();
    let out = rename_ev(
        FAN_RENAME | FAN_ONDIR,
        Some(fid(2)),
        fid(1),
        b"sub",
        fid(90),
        b"sub",
    );
    assert!(matches!(
        classify_one(&mut map, &out),
        Admission::Rename { seed: None, .. }
    ));
    assert!(!map.contains(&fid(2)), "the moved-out dir is forgotten");

    let back = rename_ev(
        FAN_RENAME | FAN_ONDIR,
        Some(fid(2)),
        fid(90),
        b"sub",
        fid(1),
        b"sub",
    );
    assert!(
        matches!(
            classify_one(&mut map, &back),
            Admission::Rename { seed: Some(_), .. }
        ),
        "a move back in from outside re-requests the subtree walk"
    );
}

#[test]
fn burst_move_in_then_in_root_rename_keeps_walk_pending_at_current_path() {
    let mut map = FidMap::new();
    map.seed(&vec![
        SeedEntry::root(fid(1), b"/root"),
        SeedEntry::child(fid(2), fid(1), b"a".to_vec()),
        SeedEntry::child(fid(3), fid(1), b"b".to_vec()),
    ]);
    let move_in = rename_ev(
        FAN_RENAME | FAN_ONDIR,
        Some(fid(9)),
        fid(90),
        b"moved",
        fid(2),
        b"moved",
    );
    assert!(matches!(
        classify_one(&mut map, &move_in),
        Admission::Rename { seed: Some(_), .. }
    ));
    assert_eq!(
        map.pending_walk_target(&fid(9)),
        Some((b"/root/a/moved".to_vec(), true)),
        "after event 1 the moved dir is pending at /root/a"
    );

    let in_root = rename_ev(
        FAN_RENAME | FAN_ONDIR,
        Some(fid(9)),
        fid(2),
        b"moved",
        fid(3),
        b"moved",
    );
    assert!(
        matches!(
            classify_one(&mut map, &in_root),
            Admission::Rename { seed: None, .. }
        ),
        "the in-root re-parent of the now-known dir needs no second walk"
    );
    assert_eq!(
        map.pending_walk_target(&fid(9)),
        Some((b"/root/b/moved".to_vec(), true)),
        "the deferred walk target followed the in-root re-parent to /root/b and stays pending"
    );
    assert_adjacency(&map);
}

#[test]
fn file_move_in_requests_no_walk() {
    let mut map = seeded();
    let ev = rename_ev(
        FAN_RENAME,
        Some(fid(9)),
        fid(90),
        b"f.txt",
        fid(2),
        b"f.txt",
    );
    assert!(
        matches!(
            classify_one(&mut map, &ev),
            Admission::Rename { seed: None, .. }
        ),
        "a file move-in carries no descendants, so no walk"
    );
}

#[test]
fn dir_rename_reparents_descendants() {
    let mut map = FidMap::new();
    map.seed(&vec![
        SeedEntry::root(fid(1), b"/root"),
        SeedEntry::child(fid(2), fid(1), b"sub".to_vec()),
        SeedEntry::child(fid(3), fid(2), b"child".to_vec()),
    ]);
    let rename = rename_ev(
        FAN_RENAME | FAN_ONDIR,
        Some(fid(2)),
        fid(1),
        b"sub",
        fid(1),
        b"moved",
    );
    assert!(matches!(
        classify_one(&mut map, &rename),
        Admission::Rename { seed: None, .. }
    ));

    let child_event = dirent(FAN_MODIFY, fid(3), b"leaf.txt", None);
    assert_eq!(
        forwarded(classify_one(&mut map, &child_event))
            .path
            .as_deref(),
        Some(b"/root/moved/child/leaf.txt".as_slice()),
        "the descendant resolves under the renamed parent, not the stale path"
    );
}

#[test]
fn dir_rename_in_root_reparents_and_keeps_membership() {
    let mut map = FidMap::new();
    map.seed(&vec![
        SeedEntry::root(fid(1), b"/root"),
        SeedEntry::child(fid(2), fid(1), b"sub".to_vec()),
        SeedEntry::child(fid(3), fid(2), b"child".to_vec()),
    ]);
    let rename = rename_ev(
        FAN_RENAME | FAN_ONDIR,
        Some(fid(2)),
        fid(1),
        b"sub",
        fid(1),
        b"moved",
    );
    let admission = classify_one(&mut map, &rename);
    assert!(matches!(admission, Admission::Rename { seed: None, .. }));
    let rename = forwarded(admission).rename.expect("rename info");
    assert_eq!(rename.old_path, b"/root/sub".to_vec());
    assert_eq!(rename.new_path, b"/root/moved".to_vec());
    assert_eq!(map.resolve_path(&fid(2)), Some(b"/root/moved".to_vec()));
    assert_eq!(
        map.resolve_path(&fid(3)),
        Some(b"/root/moved/child".to_vec()),
        "the descendant follows the in-root rename"
    );
    assert_eq!(
        map.dir_count(),
        3,
        "an in-root rename does not grow the map"
    );
}

#[test]
fn dir_move_out_forgets_the_directory() {
    let mut map = FidMap::new();
    map.seed(&vec![
        SeedEntry::root(fid(1), b"/root"),
        SeedEntry::child(fid(2), fid(1), b"sub".to_vec()),
    ]);
    let rename = rename_ev(
        FAN_RENAME | FAN_ONDIR,
        Some(fid(2)),
        fid(1),
        b"sub",
        fid(90),
        b"sub",
    );
    assert!(matches!(
        classify_one(&mut map, &rename),
        Admission::Rename { seed: None, .. }
    ));
    assert_eq!(
        map.dir_count(),
        1,
        "the departed directory was forgotten — only the root remains"
    );
    assert_eq!(map.resolve_path(&fid(2)), None, "and it no longer admits");
}

#[test]
fn dir_move_out_of_root_stops_descendant_admission() {
    let mut map = FidMap::new();
    map.seed(&vec![
        SeedEntry::root(fid(1), b"/root"),
        SeedEntry::child(fid(2), fid(1), b"sub".to_vec()),
        SeedEntry::child(fid(3), fid(2), b"child".to_vec()),
    ]);
    let rename = rename_ev(
        FAN_RENAME | FAN_ONDIR,
        Some(fid(2)),
        fid(1),
        b"sub",
        fid(90),
        b"sub",
    );
    assert!(matches!(
        classify_one(&mut map, &rename),
        Admission::Rename { seed: None, .. }
    ));
    let child_event = dirent(FAN_MODIFY, fid(3), b"leaf.txt", None);
    assert!(
        matches!(classify_one(&mut map, &child_event), Admission::ForeignDrop),
        "a descendant of a moved-out directory no longer admits"
    );
}

#[test]
fn attrib_resolves_its_path() {
    let mut map = seeded();
    let ev = dirent(FAN_ATTRIB, fid(1), b"meta.txt", None);
    let admission = classify_one(&mut map, &ev);
    assert!(matches!(admission, Admission::Forward(_)));
    assert_eq!(
        forwarded(admission).path.as_deref(),
        Some(b"/root/meta.txt".as_slice())
    );
}

#[test]
fn dfid_name_dot_root_self_event_reaches_root_death() {
    for mask in [FAN_DELETE_SELF | FAN_ONDIR, FAN_MOVE_SELF | FAN_ONDIR] {
        let root = wire_fid(FSID, 1, b"root-handle");
        let mut map = FidMap::new();
        map.seed(&vec![SeedEntry::root(root, b"/root")]);

        let buf = dfid_name_event(mask, FSID, 1, b"root-handle", b".");
        let decoded = decode_events(&buf).expect("the buffer carries this build's metadata version");
        assert!(!decoded.lossy && decoded.events.len() == 1);
        assert!(
            decoded.events[0].name.is_none(),
            "decode folded the '.' self-name to the name-less self shape"
        );

        let admission = classify_one(&mut map, &decoded.events[0]);
        assert!(
            matches!(admission, Admission::RootDeath(_)),
            "a '.' root self-event {mask:#x} is the root's death, not a child dirent: {admission:?}"
        );
        assert_eq!(
            forwarded(admission).path.as_deref(),
            Some(b"/root".as_slice()),
            "the root death carries the root's OWN path, never /root/."
        );
    }
}

#[test]
fn dfid_name_dot_dir_metadata_forwards_own_path() {
    for mask in [FAN_ATTRIB | FAN_ONDIR, FAN_MODIFY | FAN_ONDIR] {
        let root = wire_fid(FSID, 1, b"root-handle");
        let sub = wire_fid(FSID, 1, b"sub-handle");
        let mut map = FidMap::new();
        map.seed(&vec![
            SeedEntry::root(root.clone(), b"/root"),
            SeedEntry::child(sub, root, b"sub".to_vec()),
        ]);

        let buf = dfid_name_event(mask, FSID, 1, b"sub-handle", b".");
        let decoded = decode_events(&buf).expect("the buffer carries this build's metadata version");
        assert!(!decoded.lossy && decoded.events.len() == 1 && decoded.events[0].name.is_none());

        let admission = classify_one(&mut map, &decoded.events[0]);
        assert!(
            matches!(admission, Admission::Forward(_)),
            "a '.' dir metadata event {mask:#x} forwards the dir's own path: {admission:?}"
        );
        assert_eq!(
            forwarded(admission).path.as_deref(),
            Some(b"/root/sub".as_slice()),
            "dir metadata forwards the directory's OWN path, never /root/sub/."
        );
    }
}

#[derive(Debug, Clone, Copy, PartialEq, Eq)]
enum Kind {
    Forward,
    LearnDir,
    ForgetDir,
    Rename,
    RenameSeed,
    RootDeath,
    ForeignDrop,
    ExcludedDrop,
    Lossy,
}

fn kind(admission: &Admission) -> Kind {
    match admission {
        Admission::Forward(_) => Kind::Forward,
        Admission::LearnDir(_) => Kind::LearnDir,
        Admission::ForgetDir(_) => Kind::ForgetDir,
        Admission::Rename { seed: None, .. } => Kind::Rename,
        Admission::Rename { seed: Some(_), .. } => Kind::RenameSeed,
        Admission::RootDeath(_) => Kind::RootDeath,
        Admission::ForeignDrop => Kind::ForeignDrop,
        Admission::ExcludedDrop => Kind::ExcludedDrop,
        Admission::Lossy => Kind::Lossy,
    }
}

fn deep_map() -> FidMap {
    let mut map = FidMap::new();
    map.seed(&vec![
        SeedEntry::root(fid(1), b"/root"),
        SeedEntry::child(fid(2), fid(1), b"sub".to_vec()),
        SeedEntry::child(fid(3), fid(2), b"child".to_vec()),
    ]);
    map
}

fn assert_row(label: &str, event: RawFanotifyEvent, expected: Kind) {
    let mut map = deep_map();
    let got = kind(&classify_one(&mut map, &event));
    assert_eq!(
        got, expected,
        "row `{label}`: expected {expected:?}, got {got:?}"
    );
}

#[test]
fn dirent_and_self_event_rows() {
    assert_row(
        "file create",
        dirent(FAN_CREATE, fid(2), b"f", Some(fid(7))),
        Kind::Forward,
    );
    assert_row(
        "file delete",
        dirent(FAN_DELETE, fid(2), b"f", None),
        Kind::Forward,
    );
    assert_row(
        "file modify",
        dirent(FAN_MODIFY, fid(2), b"f", None),
        Kind::Forward,
    );
    assert_row(
        "file attrib",
        dirent(FAN_ATTRIB, fid(2), b"f", None),
        Kind::Forward,
    );
    assert_row(
        "merged file create+delete",
        dirent(FAN_CREATE | FAN_DELETE, fid(2), b"f", None),
        Kind::Forward,
    );
    assert_row(
        "merged file create+delete+modify",
        dirent(
            FAN_CREATE | FAN_DELETE | FAN_MODIFY,
            fid(2),
            b"f",
            Some(fid(7)),
        ),
        Kind::Forward,
    );
    assert_row(
        "merged dir create+delete",
        dirent(
            FAN_CREATE | FAN_DELETE | FAN_ONDIR,
            fid(2),
            b"d",
            Some(fid(8)),
        ),
        Kind::Lossy,
    );
    assert_row(
        "merged file create+delete_self",
        dirent(FAN_CREATE | FAN_DELETE_SELF, fid(2), b"f", None),
        Kind::Lossy,
    );
    assert_row(
        "merged file create+delete (foreign parent, in-map target)",
        dirent(FAN_CREATE | FAN_DELETE, fid(99), b"f", Some(fid(2))),
        Kind::Lossy,
    );
    assert_row(
        "dir modify",
        dirent(FAN_MODIFY | FAN_ONDIR, fid(2), b"d", None),
        Kind::Forward,
    );
    assert_row(
        "dir attrib",
        dirent(FAN_ATTRIB | FAN_ONDIR, fid(2), b"d", None),
        Kind::Forward,
    );

    assert_row(
        "dir create + target",
        dirent(FAN_CREATE | FAN_ONDIR, fid(2), b"new", Some(fid(8))),
        Kind::LearnDir,
    );
    assert_row(
        "dir delete dirent + target",
        dirent(FAN_DELETE | FAN_ONDIR, fid(2), b"child", Some(fid(3))),
        Kind::ForgetDir,
    );
    assert_row(
        "dir move dirent + target",
        dirent(FAN_MOVE_SELF | FAN_ONDIR, fid(2), b"child", Some(fid(3))),
        Kind::ForgetDir,
    );

    assert_row(
        "dir create no target (in-root)",
        dirent(FAN_CREATE | FAN_ONDIR, fid(2), b"new", None),
        Kind::Lossy,
    );
    assert_row(
        "dir delete no target (in-root)",
        dirent(FAN_DELETE | FAN_ONDIR, fid(2), b"child", None),
        Kind::Lossy,
    );
    assert_row(
        "file delete no target",
        dirent(FAN_DELETE, fid(2), b"f", None),
        Kind::Forward,
    );

    assert_row(
        "dir create no target (out-of-root)",
        dirent(FAN_CREATE | FAN_ONDIR, fid(99), b"new", None),
        Kind::ForeignDrop,
    );

    assert_row(
        "create empty name (in-root)",
        RawFanotifyEvent {
            mask: FanMask::new(FAN_CREATE),
            dir_fid: Some(fid(2)),
            target_fid: Some(fid(7)),
            name: None,
            rename: None,
        },
        Kind::Lossy,
    );
    assert_row(
        "modify no name (out-of-root)",
        RawFanotifyEvent {
            mask: FanMask::new(FAN_MODIFY),
            dir_fid: Some(fid(99)),
            target_fid: None,
            name: None,
            rename: None,
        },
        Kind::ForeignDrop,
    );

    assert_row(
        "unknown dir fid",
        dirent(FAN_MODIFY, fid(99), b"x", None),
        Kind::ForeignDrop,
    );
    assert_row(
        "fid-only non-self attrib",
        RawFanotifyEvent {
            mask: FanMask::new(FAN_ATTRIB),
            dir_fid: None,
            target_fid: Some(fid(99)),
            name: None,
            rename: None,
        },
        Kind::ForeignDrop,
    );

    assert_row(
        "subdir delete_self (dfid)",
        self_dfid(FAN_DELETE_SELF | FAN_ONDIR, fid(2)),
        Kind::ForgetDir,
    );
    assert_row(
        "subdir delete_self (fid-only)",
        self_fid_only(FAN_DELETE_SELF | FAN_ONDIR, fid(2)),
        Kind::ForgetDir,
    );
    assert_row(
        "subdir move_self (dfid)",
        self_dfid(FAN_MOVE_SELF | FAN_ONDIR, fid(2)),
        Kind::Forward,
    );
    assert_row(
        "subdir move_self (fid-only)",
        self_fid_only(FAN_MOVE_SELF | FAN_ONDIR, fid(2)),
        Kind::Forward,
    );

    assert_row(
        "foreign delete_self (dfid)",
        self_dfid(FAN_DELETE_SELF | FAN_ONDIR, fid(99)),
        Kind::ForeignDrop,
    );
    assert_row(
        "foreign delete_self (fid-only)",
        self_fid_only(FAN_DELETE_SELF, fid(99)),
        Kind::ForeignDrop,
    );
    assert_row(
        "self-event no fid",
        RawFanotifyEvent {
            mask: FanMask::new(FAN_DELETE_SELF),
            dir_fid: None,
            target_fid: None,
            name: None,
            rename: None,
        },
        Kind::ForeignDrop,
    );
}

#[test]
fn root_self_event_is_root_death_in_both_shapes() {
    for mask in [
        FAN_DELETE_SELF | FAN_ONDIR,
        FAN_MOVE_SELF | FAN_ONDIR,
        FAN_DELETE_SELF | FAN_ATTRIB,
    ] {
        let mut map = deep_map();
        let dfid = classify_one(&mut map, &self_dfid(mask, fid(1)));
        assert!(
            matches!(dfid, Admission::RootDeath(_)),
            "DFID root self-event {mask:#x}"
        );
        assert_eq!(
            forwarded(dfid).path.as_deref(),
            Some(b"/root".as_slice()),
            "RootDeath carries the root's own path for the death lowering"
        );

        let mut map = deep_map();
        let fid_only = classify_one(&mut map, &self_fid_only(mask, fid(1)));
        assert!(
            matches!(fid_only, Admission::RootDeath(_)),
            "FID-only root self-event {mask:#x} is RootDeath, not a drop"
        );
        assert_eq!(
            forwarded(fid_only).path.as_deref(),
            Some(b"/root".as_slice())
        );
    }
}

#[test]
fn rename_rows() {
    assert_row(
        "file rename both-in",
        rename_ev(FAN_RENAME, Some(fid(7)), fid(1), b"a", fid(2), b"b"),
        Kind::Rename,
    );
    assert_row(
        "file rename into-root (no target)",
        rename_ev(FAN_RENAME, None, fid(99), b"a", fid(2), b"b"),
        Kind::Rename,
    );
    assert_row(
        "rename both-out",
        rename_ev(FAN_RENAME, None, fid(90), b"a", fid(91), b"b"),
        Kind::ForeignDrop,
    );

    assert_row(
        "dir rename in-root reparent",
        rename_ev(
            FAN_RENAME | FAN_ONDIR,
            Some(fid(2)),
            fid(1),
            b"sub",
            fid(1),
            b"moved",
        ),
        Kind::Rename,
    );
    assert_row(
        "dir move-in from outside",
        rename_ev(
            FAN_RENAME | FAN_ONDIR,
            Some(fid(9)),
            fid(90),
            b"in",
            fid(1),
            b"in",
        ),
        Kind::RenameSeed,
    );
    assert_row(
        "dir move-out of root",
        rename_ev(
            FAN_RENAME | FAN_ONDIR,
            Some(fid(2)),
            fid(1),
            b"sub",
            fid(90),
            b"sub",
        ),
        Kind::Rename,
    );

    for (label, old_dir, new_dir) in [
        ("targetless ondir reparent", fid(1), fid(1)),
        ("targetless ondir move-out", fid(1), fid(90)),
        ("targetless ondir move-in", fid(90), fid(1)),
    ] {
        assert_row(
            label,
            rename_ev(FAN_RENAME | FAN_ONDIR, None, old_dir, b"x", new_dir, b"x"),
            Kind::Lossy,
        );
    }
    assert_row(
        "targetless ondir both-out",
        rename_ev(FAN_RENAME | FAN_ONDIR, None, fid(90), b"x", fid(91), b"x"),
        Kind::ForeignDrop,
    );
}

#[test]
fn every_combination_classifies_without_panic() {
    let masks = [
        FAN_CREATE,
        FAN_DELETE,
        FAN_MODIFY,
        FAN_ATTRIB,
        FAN_CREATE | FAN_ONDIR,
        FAN_DELETE | FAN_ONDIR,
        FAN_DELETE_SELF,
        FAN_MOVE_SELF,
        FAN_DELETE_SELF | FAN_ONDIR,
        FAN_MOVE_SELF | FAN_ONDIR,
        FAN_DELETE_SELF | FAN_ATTRIB,
        FAN_RENAME,
        FAN_RENAME | FAN_ONDIR,
    ];
    let fids = [Some(fid(1)), Some(fid(2)), Some(fid(99)), None];
    let names: [Option<&[u8]>; 2] = [Some(b"n".as_slice()), None];
    let mut classified = 0u64;
    for &mask in &masks {
        for dir in &fids {
            for target in &fids {
                for &name in &names {
                    for rename in [false, true] {
                        let mut map = deep_map();
                        let event = RawFanotifyEvent {
                            mask: FanMask::new(mask),
                            dir_fid: dir.clone(),
                            target_fid: target.clone(),
                            name: name.map(<[u8]>::to_vec),
                            rename: rename.then(|| RenameInfo {
                                old_dir: fid(1),
                                old_name: b"o".to_vec(),
                                new_dir: fid(2),
                                new_name: b"n".to_vec(),
                            }),
                        };
                        let _ = kind(&classify_one(&mut map, &event));
                        classified += 1;
                    }
                }
            }
        }
    }
    assert_eq!(
        classified,
        masks.len() as u64 * 4 * 4 * 2 * 2,
        "every mask × dir × target × name × rename combination was classified"
    );
}

#[test]
fn second_event_under_same_dir_hits() {
    let mut map = seeded();
    let mut memo = MemoBatch::new();
    let a = dirent(FAN_MODIFY, fid(2), b"a.txt", None);
    let b = dirent(FAN_MODIFY, fid(2), b"b.txt", None);
    assert!(matches!(
        classify(&mut map, &a, &mut memo, &Vec::new()),
        Admission::Forward(_)
    ));
    assert_eq!((memo.hits, memo.misses), (0, 1), "the first is a cold miss");
    assert!(matches!(
        classify(&mut map, &b, &mut memo, &Vec::new()),
        Admission::Forward(_)
    ));
    assert_eq!(
        (memo.hits, memo.misses),
        (1, 1),
        "the second under the same dir is a memo hit"
    );
}

#[test]
fn a_learn_between_events_invalidates_the_memo() {
    let mut map = seeded();
    let mut memo = MemoBatch::new();
    let modify = dirent(FAN_MODIFY, fid(2), b"a.txt", None);
    assert!(matches!(
        classify(&mut map, &modify, &mut memo, &Vec::new()),
        Admission::Forward(_)
    ));
    assert_eq!((memo.hits, memo.misses), (0, 1));
    let mkdir = dirent(FAN_CREATE | FAN_ONDIR, fid(2), b"newdir", Some(fid(3)));
    assert!(matches!(
        classify(&mut map, &mkdir, &mut memo, &Vec::new()),
        Admission::LearnDir(_)
    ));
    assert_eq!(
        (memo.hits, memo.misses),
        (1, 1),
        "the learning event still hits its directory — the lookup precedes its mutation"
    );
    let modify2 = dirent(FAN_MODIFY, fid(2), b"b.txt", None);
    assert!(matches!(
        classify(&mut map, &modify2, &mut memo, &Vec::new()),
        Admission::Forward(_)
    ));
    assert_eq!(
        (memo.hits, memo.misses),
        (1, 2),
        "the post-learn lookup re-resolves: the learn invalidated the pre-learn entry"
    );
}

#[test]
fn a_forget_invalidates_the_memo() {
    let mut map = FidMap::new();
    map.seed(&vec![
        SeedEntry::root(fid(1), b"/root"),
        SeedEntry::child(fid(2), fid(1), b"a".to_vec()),
        SeedEntry::child(fid(3), fid(1), b"b".to_vec()),
    ]);
    let mut memo = MemoBatch::new();
    let under_root = dirent(FAN_MODIFY, fid(1), b"x.txt", None);
    assert!(matches!(
        classify(&mut map, &under_root, &mut memo, &Vec::new()),
        Admission::Forward(_)
    ));
    let delete_b = self_dfid(FAN_DELETE_SELF | FAN_ONDIR, fid(3));
    assert!(matches!(
        classify(&mut map, &delete_b, &mut memo, &Vec::new()),
        Admission::ForgetDir(_)
    ));
    let under_root2 = dirent(FAN_MODIFY, fid(1), b"y.txt", None);
    assert!(matches!(
        classify(&mut map, &under_root2, &mut memo, &Vec::new()),
        Admission::Forward(_)
    ));
    assert_eq!(memo.hits, 0, "the forget invalidated the root's memo entry");
}

#[test]
fn a_fresh_batch_memo_starts_cold() {
    let mut map = seeded();
    let modify = dirent(FAN_MODIFY, fid(2), b"a.txt", None);
    let mut first = MemoBatch::new();
    assert!(matches!(
        classify(&mut map, &modify, &mut first, &Vec::new()),
        Admission::Forward(_)
    ));
    assert_eq!((first.hits, first.misses), (0, 1));
    let mut second = MemoBatch::new();
    assert!(matches!(
        classify(&mut map, &modify, &mut second, &Vec::new()),
        Admission::Forward(_)
    ));
    assert_eq!(
        (second.hits, second.misses),
        (0, 1),
        "a new batch memo does not inherit the prior batch's entries"
    );
}

#[derive(Debug, Clone, Copy, PartialEq, Eq)]
enum Action {
    Forward,
    LearnDir,
    ForgetDir,
    Rename {
        seed: bool,
    },
    RootDeath,
    ForeignDrop,
    ExcludedDrop,
    Lossy,
}

fn action_of(admission: &Admission) -> Action {
    match admission {
        Admission::Forward(_) => Action::Forward,
        Admission::LearnDir(_) => Action::LearnDir,
        Admission::ForgetDir(_) => Action::ForgetDir,
        Admission::Rename { seed, .. } => Action::Rename {
            seed: seed.is_some(),
        },
        Admission::RootDeath(_) => Action::RootDeath,
        Admission::ForeignDrop => Action::ForeignDrop,
        Admission::ExcludedDrop => Action::ExcludedDrop,
        Admission::Lossy => Action::Lossy,
    }
}

enum Addressing {
    Dirent,
    SelfObject { is_root: bool },
    Foreign,
    Unaddressable,
}

fn addressing(map: &FidMap, event: &RawFanotifyEvent) -> Addressing {
    match event.name.as_ref() {
        Some(_) => match event.dir_fid.as_ref() {
            None => Addressing::Unaddressable,
            Some(parent) => {
                if map.resolve_path(parent).is_some() {
                    Addressing::Dirent
                } else {
                    Addressing::Foreign
                }
            }
        },
        None => match event.dir_fid.as_ref().or(event.target_fid.as_ref()) {
            None => Addressing::Unaddressable,
            Some(self_fid) => {
                if map.resolve_path(self_fid).is_some() {
                    Addressing::SelfObject {
                        is_root: map.is_root(self_fid),
                    }
                } else {
                    Addressing::Foreign
                }
            }
        },
    }
}

fn classify_oracle(map: &FidMap, event: &RawFanotifyEvent) -> Action {
    if multi_structural_spec(event.mask)
        && addressing_admitted(map, event)
        && !map_neutral_merge_spec(map, event)
    {
        return Action::Lossy;
    }

    if let Some(rename) = &event.rename {
        let old_in = map.resolve_path(&rename.old_dir).is_some();
        let new_in = map.resolve_path(&rename.new_dir).is_some();
        if !old_in && !new_in {
            return foreign_parent_action(map, event);
        }
        if event.mask.ondir() {
            let Some(moved) = event.target_fid.as_ref() else {
                return Action::Lossy;
            };
            let seed = new_in && !map.contains(moved);
            return Action::Rename { seed };
        }
        return Action::Rename { seed: false };
    }

    match addressing(map, event) {
        Addressing::Foreign | Addressing::Unaddressable => foreign_parent_action(map, event),
        Addressing::Dirent => dirent_action(event),
        Addressing::SelfObject { is_root } => nameless_action(event, is_root),
    }
}

fn multi_structural_spec(mask: FanMask) -> bool {
    let verbs = mask.created() as u8
        + mask.removed() as u8
        + mask.delete_self() as u8
        + mask.move_self() as u8
        + mask.rename() as u8;
    verbs >= 2
}

fn map_neutral_merge_spec(map: &FidMap, event: &RawFanotifyEvent) -> bool {
    let mask = event.mask;
    event.rename.is_none()
        && event.name.is_some()
        && !mask.ondir()
        && !mask.rename()
        && !mask.delete_self()
        && !mask.move_self()
        && event
            .dir_fid
            .as_ref()
            .is_some_and(|dir| map.resolve_path(dir).is_some())
}

fn dirent_action(event: &RawFanotifyEvent) -> Action {
    let mask = event.mask;
    if mask.ondir() {
        if mask.created() {
            return field_gated(event.target_fid.is_some(), Action::LearnDir);
        }
        if mask.removed() || mask.move_self() {
            return field_gated(event.target_fid.is_some(), Action::ForgetDir);
        }
    }
    Action::Forward
}

fn nameless_action(event: &RawFanotifyEvent, is_root: bool) -> Action {
    let mask = event.mask;
    if mask.delete_self() || mask.move_self() {
        if is_root {
            return Action::RootDeath;
        }
        return if mask.delete_self() {
            Action::ForgetDir
        } else {
            Action::Forward
        };
    }
    if mask.created() || mask.removed() {
        return Action::Lossy;
    }
    Action::Forward
}

fn field_gated(present: bool, action: Action) -> Action {
    if present { action } else { Action::Lossy }
}

fn foreign_parent_action(map: &FidMap, event: &RawFanotifyEvent) -> Action {
    let Some(target) = event.target_fid.as_ref() else {
        return Action::ForeignDrop;
    };
    if map.resolve_path(target).is_none() {
        return Action::ForeignDrop;
    }
    if map.is_root(target) && root_death_verb(event.mask) {
        return Action::RootDeath;
    }
    Action::Lossy
}

fn root_death_verb(mask: FanMask) -> bool {
    mask.removed() || mask.delete_self() || mask.move_self() || mask.rename()
}

fn oracle_map() -> FidMap {
    let mut map = FidMap::new();
    map.seed(&vec![
        SeedEntry::root(fid(1), b"/root"),
        SeedEntry::child(fid(2), fid(1), b"sub".to_vec()),
        SeedEntry::child(fid(3), fid(2), b"child".to_vec()),
    ]);
    map
}

fn addressing_admitted(map: &FidMap, event: &RawFanotifyEvent) -> bool {
    let rename_ends = event
        .rename
        .iter()
        .flat_map(|rename| [&rename.old_dir, &rename.new_dir]);
    let singles = [event.dir_fid.as_ref(), event.target_fid.as_ref()]
        .into_iter()
        .flatten();
    rename_ends
        .chain(singles)
        .any(|fid| map.resolve_path(fid).is_some())
}

fn addressing_object_admitted(map: &FidMap, event: &RawFanotifyEvent) -> bool {
    if let Some(rename) = &event.rename {
        return map.resolve_path(&rename.old_dir).is_some()
            || map.resolve_path(&rename.new_dir).is_some();
    }
    matches!(
        addressing(map, event),
        Addressing::Dirent | Addressing::SelfObject { .. }
    )
}

fn raw_fids(event: &RawFanotifyEvent) -> Vec<&Fid> {
    let mut fids = Vec::new();
    if let Some(dir) = event.dir_fid.as_ref() {
        fids.push(dir);
    }
    if let Some(target) = event.target_fid.as_ref() {
        fids.push(target);
    }
    if let Some(rename) = event.rename.as_ref() {
        fids.push(&rename.old_dir);
        fids.push(&rename.new_dir);
    }
    fids
}

fn assert_contract(label: &str, event: &RawFanotifyEvent) -> bool {
    let mut map = oracle_map();
    let expected = classify_oracle(&map, event);
    let object_admitted = addressing_object_admitted(&map, event);
    let reaches_in_root = addressing_admitted(&map, event);
    let resident = raw_fids(event).into_iter().any(|fid| map.contains(fid));
    let map_neutral = map_neutral_merge_spec(&map, event);
    let generation = map.generation();
    let admission = classify(&mut map, event, &mut MemoBatch::new(), &Vec::new());
    let got = action_of(&admission);

    assert_eq!(got, expected, "agreement `{label}`: {admission:?}");

    if object_admitted {
        assert_ne!(
            got,
            Action::ForeignDrop,
            "no-admitted-drop `{label}`: an admitted addressing object was dropped"
        );
    }

    match &admission {
        Admission::Forward(e)
        | Admission::LearnDir(e)
        | Admission::ForgetDir(e)
        | Admission::RootDeath(e) => assert!(
            e.path.is_some() && e.rename.is_none(),
            "field-correctness `{label}`: a single-object action must carry its path: {e:?}"
        ),
        Admission::Rename { event, .. } => assert!(
            event.rename.is_some() && event.path.is_none(),
            "field-correctness `{label}`: a rename must carry both halves: {event:?}"
        ),
        Admission::ForeignDrop | Admission::ExcludedDrop | Admission::Lossy => {}
    }

    if reaches_in_root && multi_structural_spec(event.mask) {
        let expected_merge_action = if map_neutral {
            Action::Forward
        } else {
            Action::Lossy
        };
        assert_eq!(
            got, expected_merge_action,
            "no-one-sided-mutation `{label}`: a mutating merge must be Lossy and a map-neutral \
              one a plain Forward: {admission:?}"
        );
        assert_eq!(
            map.generation(),
            generation,
            "no-one-sided-mutation `{label}`: a merged mask mutated the map: {admission:?}"
        );
    }

    let raw_membership_fired = resident;
    if raw_membership_fired {
        assert_ne!(
            got,
            Action::ForeignDrop,
            "raw-membership `{label}`: an event carrying a map-resident raw FID must not be dropped: {admission:?}"
        );
    }
    raw_membership_fired
}

#[test]
fn oracle_agrees_on_the_full_subscribed_mask_power_set() {
    let fids = [None, Some(fid(1)), Some(fid(2)), Some(fid(99))];
    let names: [Option<&[u8]>; 3] = [None, Some(b""), Some(b"n")];
    let rename_dirs = [fid(1), fid(2), fid(99)];
    let targets = [None, Some(fid(1)), Some(fid(2)), Some(fid(99))];

    let mut checked = 0u64;
    let mut multi_structural_seen = 0u64;
    let mut raw_membership_fired = 0u64;
    for subset in 0u32..(1u32 << SUBSCRIBED.len()) {
        let mut mask = 0u64;
        for (bit, flag) in SUBSCRIBED.iter().enumerate() {
            if subset & (1u32 << bit) != 0 {
                mask |= *flag;
            }
        }
        if FanMask::new(mask).multi_structural() {
            multi_structural_seen += 1;
        }
        if mask & FAN_RENAME != 0 {
            for old_dir in &rename_dirs {
                for new_dir in &rename_dirs {
                    for target in &targets {
                        let event = RawFanotifyEvent {
                            mask: FanMask::new(mask),
                            dir_fid: None,
                            target_fid: target.clone(),
                            name: None,
                            rename: Some(RenameInfo {
                                old_dir: old_dir.clone(),
                                old_name: b"old".to_vec(),
                                new_dir: new_dir.clone(),
                                new_name: b"new".to_vec(),
                            }),
                        };
                        raw_membership_fired += assert_contract(
                            &format!("rename mask={mask:#x} old={old_dir:?} new={new_dir:?} target={target:?}"),
                            &event,
                        ) as u64;
                        checked += 1;
                    }
                }
            }
        } else {
            for dir in &fids {
                for target in &targets {
                    for &name in &names {
                        let event = RawFanotifyEvent {
                            mask: FanMask::new(mask),
                            dir_fid: dir.clone(),
                            target_fid: target.clone(),
                            name: name.map(<[u8]>::to_vec),
                            rename: None,
                        };
                        raw_membership_fired += assert_contract(
                            &format!("mask={mask:#x} dir={dir:?} target={target:?} name={name:?}"),
                            &event,
                        ) as u64;
                        checked += 1;
                    }
                }
            }
        }
    }

    let half = 1u64 << (SUBSCRIBED.len() - 1);
    let rename_cases = (rename_dirs.len() * rename_dirs.len() * targets.len()) as u64;
    let non_rename_cases = (fids.len() * targets.len() * names.len()) as u64;
    assert_eq!(checked, half * rename_cases + half * non_rename_cases);

    assert_eq!(
        multi_structural_seen, 208,
        "the rename-inclusive power set must span every multi-structural merge"
    );

    assert!(
        raw_membership_fired > 0,
        "the independent raw-membership invariant must be exercised across the sweep, not vacuous"
    );
}

#[test]
fn fid_only_attrib_on_admitted_object_is_forwarded_not_dropped() {
    for (self_fid, own_path) in [(fid(1), "/root"), (fid(2), "/root/sub")] {
        for mask in [FAN_ATTRIB, FAN_MODIFY, FAN_ATTRIB | FAN_ONDIR] {
            let mut map = oracle_map();
            let event = self_fid_only(mask, self_fid.clone());
            let admission = classify(&mut map, &event, &mut MemoBatch::new(), &Vec::new());
            assert!(
                matches!(admission, Admission::Forward(_)),
                "a FID-only {mask:#x} on admitted {self_fid:?} forwards, not drops: {admission:?}"
            );
            assert_eq!(
                forwarded(admission).path.as_deref(),
                Some(own_path.as_bytes()),
                "the forward carries the admitted object's OWN path"
            );
        }
    }
}

#[test]
fn merged_file_create_delete_is_map_neutral_and_forwards() {
    let mut map = oracle_map();
    let generation = map.generation();
    let merged = dirent(
        FAN_CREATE | FAN_DELETE | FAN_MODIFY,
        fid(2),
        b"top.txt",
        None,
    );
    let admission = classify(&mut map, &merged, &mut MemoBatch::new(), &Vec::new());
    assert!(
        matches!(admission, Admission::Forward(_)),
        "a merged file create+delete mutates nothing, so it keeps its buffer: {admission:?}"
    );
    assert_eq!(
        forwarded(admission).path.as_deref(),
        Some(b"/root/sub/top.txt".as_slice()),
        "the forward carries the merged NAME, which is the only ground still ambiguous"
    );
    assert_eq!(
        map.generation(),
        generation,
        "the exempted merge mutated nothing — the property the barrier protected"
    );

    let mut map = oracle_map();
    let generation = map.generation();
    let ondir = dirent(
        FAN_CREATE | FAN_DELETE | FAN_ONDIR,
        fid(2),
        b"top",
        Some(fid(8)),
    );
    assert!(
        matches!(classify_one(&mut map, &ondir), Admission::Lossy),
        "an ONDIR merge can mutate, so it still takes the barrier"
    );
    assert_eq!(map.generation(), generation, "and mutated nothing");

    let mut map = oracle_map();
    let foreign_parent = dirent(FAN_CREATE | FAN_DELETE, fid(99), b"top.txt", Some(fid(2)));
    assert!(
        matches!(classify_one(&mut map, &foreign_parent), Admission::Lossy),
        "an unresolved parent keeps the merge on the foreign-parent path, not the exemption"
    );
}

#[test]
fn merged_multi_structural_mask_is_lossy_never_one_sided() {
    let mut map = oracle_map();
    let generation = map.generation();
    let create_delete = dirent(
        FAN_CREATE | FAN_DELETE | FAN_ONDIR,
        fid(2),
        b"merged",
        Some(fid(8)),
    );
    assert!(
        matches!(classify_one(&mut map, &create_delete), Admission::Lossy),
        "a merged create+delete dirent is ambiguous → Lossy, not a one-sided learn"
    );
    assert_eq!(
        map.generation(),
        generation,
        "the ambiguous event mutated nothing — no phantom directory learned"
    );
    assert!(
        !map.contains(&fid(8)),
        "the merged create did not learn the child its co-merged delete removed"
    );

    let mut map = oracle_map();
    let generation = map.generation();
    let delete_move_self = self_dfid(FAN_DELETE_SELF | FAN_MOVE_SELF | FAN_ONDIR, fid(2));
    assert!(
        matches!(classify_one(&mut map, &delete_move_self), Admission::Lossy),
        "a merged delete_self+move_self is ambiguous → Lossy, not a one-sided forget"
    );
    assert_eq!(
        map.generation(),
        generation,
        "the ambiguous self-event forgot nothing — no live node dropped from one bit"
    );
    assert!(
        map.contains(&fid(2)),
        "the node is still mapped; the reseed barrier rebuilds it, not a one-sided forget"
    );

    let mut map = oracle_map();
    let root_merged = self_fid_only(FAN_DELETE_SELF | FAN_MOVE_SELF, fid(1));
    assert!(
        matches!(classify_one(&mut map, &root_merged), Admission::Lossy),
        "a merged root self-event is ambiguous → Lossy, not a one-sided RootDeath"
    );

    let mut map = oracle_map();
    let generation = map.generation();
    let rename_delete = rename_ev(
        FAN_RENAME | FAN_DELETE | FAN_ONDIR,
        Some(fid(2)),
        fid(1),
        b"sub",
        fid(1),
        b"moved",
    );
    assert!(
        matches!(classify_one(&mut map, &rename_delete), Admission::Lossy),
        "a merged rename+delete is ambiguous → Lossy, not a one-sided re-parent"
    );
    assert_eq!(
        map.generation(),
        generation,
        "the ambiguous rename mutated nothing — no one-sided re-parent applied"
    );
    assert_eq!(
        map.resolve_path(&fid(2)),
        Some(b"/root/sub".to_vec()),
        "the directory stays at its original path; the reseed barrier rebuilds truth, not a half-applied rename"
    );
}

#[test]
fn merged_rename_self_with_foreign_parents_but_in_root_target_is_lossy() {
    let foreign = fid(99);
    for mask in [
        FAN_RENAME | FAN_MOVE_SELF | FAN_ONDIR,
        FAN_RENAME | FAN_DELETE_SELF | FAN_ONDIR,
    ] {
        for target in [fid(1), fid(2)] {
            let mut map = oracle_map();
            let generation = map.generation();
            let event = rename_ev(
                mask,
                Some(target.clone()),
                foreign.clone(),
                b"x",
                foreign.clone(),
                b"y",
            );
            let admission = classify_one(&mut map, &event);
            assert!(
                matches!(admission, Admission::Lossy),
                "a merged rename+self with foreign parents but in-root target {target:?} (mask {mask:#x}) must be Lossy, not ForeignDrop: {admission:?}"
            );
            assert_eq!(
                map.generation(),
                generation,
                "the ambiguous merge took the barrier before any shape acted — no one-sided mutation"
            );
            assert_eq!(
                map.resolve_path(&fid(2)),
                Some(b"/root/sub".to_vec()),
                "the node is untouched; the reseed barrier rebuilds the truth"
            );
        }
    }
}

fn cache() -> Vec<Vec<u8>> {
    vec![b"/root/cache".to_vec()]
}

fn classify_fenced(
    map: &mut FidMap,
    event: &RawFanotifyEvent,
    exclusions: &Vec<Vec<u8>>,
) -> Admission {
    classify(map, event, &mut MemoBatch::new(), exclusions)
}

#[test]
fn an_excluded_directory_create_is_refused_before_the_learn() {
    let mut map = seeded();
    let generation = map.generation();
    let count = map.dir_count();
    let create = dirent(FAN_CREATE | FAN_ONDIR, fid(1), b"cache", Some(fid(10)));
    let admission = classify_fenced(&mut map, &create, &cache());
    assert!(
        matches!(admission, Admission::ExcludedDrop),
        "the excluded create is refused at admission: {admission:?}"
    );
    assert_eq!(
        (map.generation(), map.dir_count()),
        (generation, count),
        "no learn ran — the map is provably untouched"
    );
    assert!(!map.contains(&fid(10)));
}

#[test]
fn every_single_object_shape_on_an_excluded_path_is_refused_without_mutating() {
    let rows: [(&str, RawFanotifyEvent); 4] = [
        (
            "file modify inside the excluded name",
            dirent(FAN_MODIFY, fid(1), b"cache", None),
        ),
        (
            "directory delete of the excluded name",
            dirent(FAN_DELETE | FAN_ONDIR, fid(1), b"cache", Some(fid(10))),
        ),
        (
            "attrib on the excluded name",
            dirent(FAN_ATTRIB | FAN_ONDIR, fid(1), b"cache", Some(fid(10))),
        ),
        (
            "merged create+delete of the excluded name",
            dirent(
                FAN_CREATE | FAN_DELETE | FAN_ONDIR,
                fid(1),
                b"cache",
                Some(fid(10)),
            ),
        ),
    ];
    for (label, event) in rows {
        let mut map = seeded();
        let generation = map.generation();
        let count = map.dir_count();
        let admission = classify_fenced(&mut map, &event, &cache());
        assert!(
            matches!(admission, Admission::ExcludedDrop),
            "{label}: expected the fence to refuse it, got {admission:?}"
        );
        assert_eq!(
            (map.generation(), map.dir_count()),
            (generation, count),
            "{label}: the map must be untouched"
        );
    }
}

#[test]
fn a_self_event_on_an_excluded_directory_is_refused_without_mutating() {
    for mask in [
        FAN_DELETE_SELF | FAN_ONDIR,
        FAN_MOVE_SELF | FAN_ONDIR,
        FAN_ATTRIB,
    ] {
        let mut map = FidMap::new();
        map.seed(&vec![
            SeedEntry::root(fid(1), b"/root"),
            SeedEntry::child(fid(2), fid(1), b"cache".to_vec()),
        ]);
        let generation = map.generation();
        let event = self_dfid(mask, fid(2));
        let admission = classify_fenced(&mut map, &event, &cache());
        assert!(
            matches!(admission, Admission::ExcludedDrop),
            "mask {mask:#x}: expected the fence to refuse it, got {admission:?}"
        );
        assert_eq!(
            map.generation(),
            generation,
            "mask {mask:#x}: no forget, no eviction — the map is untouched"
        );
    }
}

#[test]
fn a_rename_wholly_inside_the_exclusion_is_refused_before_any_maintenance() {
    let mut map = FidMap::new();
    map.seed(&vec![
        SeedEntry::root(fid(1), b"/root"),
        SeedEntry::child(fid(2), fid(1), b"cache".to_vec()),
    ]);
    let generation = map.generation();
    let event = rename_ev(
        FAN_RENAME | FAN_ONDIR,
        Some(fid(5)),
        fid(2),
        b"a",
        fid(2),
        b"b",
    );
    let admission = classify_fenced(&mut map, &event, &cache());
    assert!(
        matches!(admission, Admission::ExcludedDrop),
        "both ends excluded: {admission:?}"
    );
    assert_eq!(
        map.generation(),
        generation,
        "no learn_moved_in and no walk was owed"
    );
}

#[test]
fn a_rename_into_the_exclusion_departs_the_reported_tree_and_owes_no_walk() {
    let mut map = FidMap::new();
    map.seed(&vec![
        SeedEntry::root(fid(1), b"/root"),
        SeedEntry::child(fid(2), fid(1), b"keep".to_vec()),
        SeedEntry::child(fid(3), fid(2), b"deep".to_vec()),
    ]);
    let event = rename_ev(
        FAN_RENAME | FAN_ONDIR,
        Some(fid(2)),
        fid(1),
        b"keep",
        fid(1),
        b"cache",
    );
    let admission = classify_fenced(&mut map, &event, &cache());
    let Admission::Rename {
        event: admitted,
        seed,
    } = admission
    else {
        panic!("a crossing rename is reported, not dropped");
    };
    assert!(seed.is_none(), "a departure owes no subtree walk");
    assert_eq!(
        admitted.rename.map(|r| (r.old_path, r.new_path)),
        Some((b"/root/keep".to_vec(), b"/root/cache".to_vec())),
        "the pair names both ends of the crossing"
    );
    assert_eq!(
        map.dir_count(),
        1,
        "the departed subtree is pruned, not parked inside the exclusion"
    );
    assert_eq!(
        map.resolve_path(&fid(3)),
        None,
        "and its descendant stops resolving rather than admitting at /root/cache/deep"
    );
}

#[test]
fn a_rename_with_no_reported_end_is_refused_however_its_ends_fail_to_be_reported() {
    let rows: [(&str, RawFanotifyEvent); 2] = [
        (
            "outside the root onto the excluded name",
            rename_ev(
                FAN_RENAME | FAN_ONDIR,
                Some(fid(5)),
                fid(9),
                b"X",
                fid(1),
                b"cache",
            ),
        ),
        (
            "the excluded name off the watched root",
            rename_ev(
                FAN_RENAME | FAN_ONDIR,
                Some(fid(5)),
                fid(1),
                b"cache",
                fid(9),
                b"X",
            ),
        ),
    ];
    for (label, event) in rows {
        let mut map = seeded();
        let generation = map.generation();
        let count = map.dir_count();
        let admission = classify_fenced(&mut map, &event, &cache());
        assert!(
            matches!(admission, Admission::ExcludedDrop),
            "{label}: neither end is in the reported tree, so nothing may be forwarded from \
              it: {admission:?}"
        );
        assert_eq!(
            (map.generation(), map.dir_count()),
            (generation, count),
            "{label}: no learn_moved_in, no forget, and no walk was owed"
        );
        assert!(
            !map.contains(&fid(5)),
            "{label}: and no move-in top was seated"
        );
    }
}

#[test]
fn a_rename_across_the_root_boundary_survives_a_fence_that_has_exclusions() {
    let rows: [(&str, RawFanotifyEvent); 2] = [
        (
            "in from outside the root",
            rename_ev(
                FAN_RENAME | FAN_ONDIR,
                Some(fid(5)),
                fid(9),
                b"X",
                fid(1),
                b"keep",
            ),
        ),
        (
            "out of the root",
            rename_ev(
                FAN_RENAME | FAN_ONDIR,
                Some(fid(2)),
                fid(1),
                b"sub",
                fid(9),
                b"X",
            ),
        ),
    ];
    for (label, event) in rows {
        let mut map = seeded();
        let admission = classify_fenced(&mut map, &event, &cache());
        assert!(
            matches!(admission, Admission::Rename { .. }),
            "{label}: one end is reported, so the crossing is delivered: {admission:?}"
        );
    }
}

#[test]
fn a_rename_out_of_the_exclusion_arrives_and_owes_its_walk() {
    let mut map = seeded();
    let event = rename_ev(
        FAN_RENAME | FAN_ONDIR,
        Some(fid(5)),
        fid(20),
        b"X",
        fid(1),
        b"X",
    );
    let admission = classify_fenced(&mut map, &event, &cache());
    let Admission::Rename { seed, .. } = admission else {
        panic!("an arrival across the boundary is reported");
    };
    assert_eq!(
        seed.as_ref().map(|fid| fid.handle().to_vec()),
        Some(fid(5).handle().to_vec()),
        "the arriving subtree owes its descendant walk"
    );
    assert_eq!(
        map.resolve_path(&fid(5)),
        Some(b"/root/X".to_vec()),
        "and its top is learned in the reported tree"
    );
}

#[test]
fn renaming_out_of_an_exclusion_discards_the_stale_subtree_and_owes_a_walk() {
    let mut map = FidMap::new();
    map.seed(&vec![
        SeedEntry::root(fid(1), b"/root"),
        SeedEntry::child(fid(2), fid(1), b"a".to_vec()),
        SeedEntry::child(fid(3), fid(2), b"keep".to_vec()),
    ]);
    let under_a = vec![b"/root/a/cache".to_vec()];
    let event = rename_ev(
        FAN_RENAME | FAN_ONDIR,
        Some(fid(2)),
        fid(1),
        b"a",
        fid(1),
        b"b",
    );
    let admission = classify_fenced(&mut map, &event, &under_a);
    let Admission::Rename { seed, .. } = admission else {
        panic!("a rename with both ends reported is forwarded");
    };
    assert_eq!(
        seed.as_ref().map(|fid| fid.handle().to_vec()),
        Some(fid(2).handle().to_vec()),
        "the moved subtree owes a fresh walk: /root/b/cache is reportable and unmapped"
    );
    assert_eq!(
        map.resolve_path(&fid(2)),
        Some(b"/root/b".to_vec()),
        "the moved top is relearned at its destination"
    );
    assert_eq!(
        map.dir_count(),
        2,
        "the carried-across descendants are discarded for the walk to rebuild"
    );
    assert!(
        !map.contains(&fid(3)),
        "a re-parent that kept them would keep the map's old exclusion geometry too"
    );
    assert_adjacency(&map);
}

#[test]
fn renaming_into_an_exclusion_prunes_the_nodes_the_fence_now_covers() {
    let mut map = FidMap::new();
    map.seed(&vec![
        SeedEntry::root(fid(1), b"/root"),
        SeedEntry::child(fid(2), fid(1), b"a".to_vec()),
        SeedEntry::child(fid(3), fid(2), b"cache".to_vec()),
        SeedEntry::child(fid(4), fid(3), b"deep".to_vec()),
    ]);
    let under_b = vec![b"/root/b/cache".to_vec()];
    let event = rename_ev(
        FAN_RENAME | FAN_ONDIR,
        Some(fid(2)),
        fid(1),
        b"a",
        fid(1),
        b"b",
    );
    let admission = classify_fenced(&mut map, &event, &under_b);
    let Admission::Rename { seed, .. } = admission else {
        panic!("a rename with both ends reported is forwarded");
    };
    assert!(
        seed.is_some(),
        "the destination's geometry is rebuilt by a walk, not inherited"
    );
    assert_eq!(
        map.resolve_path(&fid(3)),
        None,
        "the newly-excluded directory must NOT sit in the map at /root/b/cache"
    );
    assert_eq!(map.resolve_path(&fid(4)), None, "nor anything beneath it");
    assert_eq!(
        map.dir_count(),
        2,
        "only the root and the relearned move-in top remain"
    );
    assert_adjacency(&map);
}

#[test]
fn a_rename_clear_of_every_exclusion_is_still_a_walk_free_reparent() {
    let seeded_pair = || {
        let mut map = FidMap::new();
        map.seed(&vec![
            SeedEntry::root(fid(1), b"/root"),
            SeedEntry::child(fid(2), fid(1), b"a".to_vec()),
            SeedEntry::child(fid(3), fid(2), b"keep".to_vec()),
        ]);
        map
    };
    let event = rename_ev(
        FAN_RENAME | FAN_ONDIR,
        Some(fid(2)),
        fid(1),
        b"a",
        fid(1),
        b"b",
    );

    let mut map = seeded_pair();
    let admission = classify_fenced(&mut map, &event, &cache());
    let Admission::Rename { seed, .. } = admission else {
        panic!("an in-root rename is forwarded");
    };
    assert!(
        seed.is_none(),
        "an exclusion beside both endpoints changes no geometry and owes no walk"
    );
    assert_eq!(
        map.resolve_path(&fid(3)),
        Some(b"/root/b/keep".to_vec()),
        "the descendant follows its parent link, un-rewritten"
    );
    assert_eq!(map.dir_count(), 3, "nothing was discarded");

    let mut map = seeded_pair();
    let both_sides = vec![
        b"/root/a/cache".to_vec(),
        b"/root/b/cache".to_vec(),
    ];
    let admission = classify_fenced(&mut map, &event, &both_sides);
    let Admission::Rename { seed, .. } = admission else {
        panic!("an in-root rename is forwarded");
    };
    assert!(
        seed.is_some(),
        "the endpoint test is a conservative superset: an exclusion beneath either end \
          relearns, even where the two sides happen to agree"
    );
}

#[test]
fn the_roots_own_death_is_never_fenced() {
    let whole_root = vec![b"/root".to_vec()];
    let rows: [(&str, RawFanotifyEvent); 4] = [
        (
            "DFID self delete",
            self_dfid(FAN_DELETE_SELF | FAN_ONDIR, fid(1)),
        ),
        (
            "DFID self move",
            self_dfid(FAN_MOVE_SELF | FAN_ONDIR, fid(1)),
        ),
        (
            "FID-only self delete",
            self_fid_only(FAN_DELETE_SELF | FAN_ONDIR, fid(1)),
        ),
        (
            "dirent from the root's foreign parent",
            dirent(FAN_DELETE | FAN_ONDIR, fid(99), b"root", Some(fid(1))),
        ),
    ];
    for (label, event) in rows {
        let mut map = seeded();
        let admission = classify_fenced(&mut map, &event, &whole_root);
        let Admission::RootDeath(admitted) = admission else {
            panic!("{label}: the root's death must survive the fence, got {admission:?}");
        };
        assert_eq!(
            admitted.path.as_deref(),
            Some(b"/root".as_slice()),
            "{label}: the death carries the root's own path"
        );
    }
}

#[test]
fn a_fenced_rename_that_moves_a_reported_object_takes_the_barrier() {
    let event = |moved: Fid| {
        rename_ev(
            FAN_RENAME | FAN_ONDIR,
            Some(moved),
            fid(9),
            b"X",
            fid(1),
            b"cache",
        )
    };

    let mut map = seeded();
    let generation = map.generation();
    let count = map.dir_count();
    let admission = classify_fenced(&mut map, &event(fid(2)), &cache());
    assert!(
        matches!(admission, Admission::Lossy),
        "the fence must not drop a move of an object the map holds in the reported tree: \
          {admission:?}"
    );
    assert_eq!(
        (map.generation(), map.dir_count()),
        (generation, count),
        "the barrier is a verdict, not a mutation — the fence is still read-only"
    );
    assert_eq!(
        map.resolve_path(&fid(2)),
        Some(b"/root/sub".to_vec()),
        "and the stranded node is still there, which is precisely what the barrier's \
          reseed is owed for: a clean drop would leave it resolving here forever"
    );

    let mut map = seeded();
    let generation = map.generation();
    let count = map.dir_count();
    let admission = classify_fenced(&mut map, &event(fid(5)), &cache());
    assert!(
        matches!(admission, Admission::ExcludedDrop),
        "an unmapped moved object strands nothing: {admission:?}"
    );
    assert_eq!(
        (map.generation(), map.dir_count()),
        (generation, count),
        "and it still costs the map nothing"
    );

    let mut map = FidMap::new();
    map.seed(&vec![
        SeedEntry::root(fid(1), b"/root"),
        SeedEntry::child(fid(2), fid(1), b"cache".to_vec()),
    ]);
    let generation = map.generation();
    let admission = classify_fenced(&mut map, &event(fid(2)), &cache());
    assert!(
        matches!(admission, Admission::ExcludedDrop),
        "an admitted object at an excluded path is outside the reported tree: {admission:?}"
    );
    assert_eq!(map.generation(), generation, "and mutates nothing");
}

#[test]
fn a_fenced_dirent_over_a_reported_object_takes_the_barrier() {
    let mut map = seeded();
    let generation = map.generation();
    let count = map.dir_count();
    let event = dirent(FAN_DELETE | FAN_ONDIR, fid(1), b"cache", Some(fid(2)));
    let admission = classify_fenced(&mut map, &event, &cache());
    assert!(
        matches!(admission, Admission::Lossy),
        "the named path is excluded but the object it removes is admitted at /root/sub: \
          {admission:?}"
    );
    assert_eq!(
        (map.generation(), map.dir_count()),
        (generation, count),
        "the fence stayed read-only"
    );
    assert_eq!(
        map.resolve_path(&fid(2)),
        Some(b"/root/sub".to_vec()),
        "the node the reseed must rebuild is still resolving at its stale path"
    );

    let mut map = seeded();
    let generation = map.generation();
    let unmapped = dirent(FAN_DELETE | FAN_ONDIR, fid(1), b"cache", Some(fid(10)));
    let admission = classify_fenced(&mut map, &unmapped, &cache());
    assert!(
        matches!(admission, Admission::ExcludedDrop),
        "the ordinary excluded delete removes nothing the map held: {admission:?}"
    );
    assert_eq!(map.generation(), generation);
}

#[test]
fn a_fenced_self_event_carrying_a_reported_target_takes_the_barrier() {
    let mut map = FidMap::new();
    map.seed(&vec![
        SeedEntry::root(fid(1), b"/root"),
        SeedEntry::child(fid(2), fid(1), b"cache".to_vec()),
        SeedEntry::child(fid(3), fid(1), b"sub".to_vec()),
    ]);
    let generation = map.generation();
    let mut event = self_dfid(FAN_DELETE_SELF | FAN_ONDIR, fid(2));
    event.target_fid = Some(fid(3));
    let admission = classify_fenced(&mut map, &event, &cache());
    assert!(
        matches!(admission, Admission::Lossy),
        "a carried FID the map holds at /root/sub is not covered by the self object's \
          exclusion: {admission:?}"
    );
    assert_eq!(
        map.generation(),
        generation,
        "and the fence mutated nothing"
    );
}

#[test]
fn an_unrelated_exclusion_changes_no_foreign_parent_action() {
    let foreign = fid(99);
    let mut rows: Vec<(String, RawFanotifyEvent)> = Vec::new();
    for mask in [
        FAN_RENAME | FAN_MOVE_SELF | FAN_ONDIR,
        FAN_RENAME | FAN_DELETE_SELF | FAN_ONDIR,
    ] {
        for target in [fid(1), fid(2)] {
            rows.push((
                format!("merged rename+self, foreign parents, target {target:?}, mask {mask:#x}"),
                rename_ev(
                    mask,
                    Some(target),
                    foreign.clone(),
                    b"x",
                    foreign.clone(),
                    b"y",
                ),
            ));
        }
    }
    rows.push((
        "foreign parent over an in-map non-root target".to_owned(),
        dirent(FAN_DELETE | FAN_ONDIR, fid(99), b"sub", Some(fid(2))),
    ));
    rows.push((
        "fully foreign dirent".to_owned(),
        dirent(FAN_DELETE | FAN_ONDIR, fid(99), b"x", Some(fid(98))),
    ));
    rows.push((
        "fully foreign rename".to_owned(),
        rename_ev(
            FAN_RENAME | FAN_ONDIR,
            Some(fid(98)),
            fid(90),
            b"a",
            fid(91),
            b"b",
        ),
    ));

    let outcome = |admission: &Admission| match admission {
        Admission::ForeignDrop | Admission::ExcludedDrop => "clean drop".to_owned(),
        other => format!("{other:?}"),
    };
    for (label, event) in rows {
        let mut fenced = seeded();
        let mut plain = seeded();
        let with_unrelated = classify_fenced(&mut fenced, &event, &cache());
        let without = classify_one(&mut plain, &event);
        assert_eq!(
            outcome(&with_unrelated),
            outcome(&without),
            "{label}: an exclusion that describes none of this event's paths must not change \
              its action"
        );
        assert_eq!(
            (fenced.dir_count(), fenced.generation()),
            (plain.dir_count(), plain.generation()),
            "{label}: nor the map maintenance it performs"
        );
        assert_eq!(
            fenced.resolve_path(&fid(2)),
            plain.resolve_path(&fid(2)),
            "{label}: nor what the map still resolves afterwards"
        );
    }
}

#[test]
fn an_empty_exclusion_set_changes_no_action() {
    let rows: [(&str, RawFanotifyEvent); 3] = [
        (
            "directory create",
            dirent(FAN_CREATE | FAN_ONDIR, fid(1), b"cache", Some(fid(10))),
        ),
        (
            "self delete",
            self_dfid(FAN_DELETE_SELF | FAN_ONDIR, fid(2)),
        ),
        (
            "move-in rename",
            rename_ev(
                FAN_RENAME | FAN_ONDIR,
                Some(fid(5)),
                fid(9),
                b"X",
                fid(1),
                b"cache",
            ),
        ),
    ];
    for (label, event) in rows {
        let mut fenced = seeded();
        let mut plain = seeded();
        let with_empty = classify(&mut fenced, &event, &mut MemoBatch::new(), &Vec::new());
        let without = classify_one(&mut plain, &event);
        assert_eq!(
            format!("{with_empty:?}"),
            format!("{without:?}"),
            "{label}: an empty exclusion set is not a fence"
        );
        assert_eq!(
            fenced.dir_count(),
            plain.dir_count(),
            "{label}: and it changes no map maintenance"
        );
    }
}

#[test]
fn a_move_that_no_tree_allows_leaves_the_map_alone() {
    for (moved, into) in [(1u8, 2u8), (2, 2), (2, 3)] {
        let mut map = deep_map();
        let generation = map.generation();
        let ev = rename_ev(
            FAN_RENAME | FAN_ONDIR,
            Some(fid(moved)),
            fid(1),
            b"x",
            fid(into),
            b"y",
        );
        assert!(matches!(
            classify_one(&mut map, &ev),
            Admission::Rename { seed: None, .. }
        ));
        assert_eq!(map.generation(), generation);
        assert_eq!(map.resolve_path(&fid(3)), Some(b"/root/sub/child".to_vec()));
        assert_adjacency(&map);
    }
}

#[test]
fn the_root_is_never_forgotten() {
    let mut map = deep_map();
    let ev = dirent(FAN_DELETE | FAN_ONDIR, fid(2), b"x", Some(fid(1)));
    assert!(matches!(classify_one(&mut map, &ev), Admission::ForgetDir(_)));
    let out = rename_ev(FAN_RENAME | FAN_ONDIR, Some(fid(1)), fid(2), b"x", fid(99), b"y");
    assert!(matches!(classify_one(&mut map, &out), Admission::Rename { seed: None, .. }));
    assert!(map.is_root(&fid(1)));
    assert_eq!(map.dir_count(), 3);
}

#[test]
fn a_directory_that_is_created_where_the_map_knows_it_keeps_what_is_beneath() {
    let mut map = deep_map();
    let ev = dirent(FAN_CREATE | FAN_ONDIR, fid(1), b"sub", Some(fid(2)));
    assert!(matches!(classify_one(&mut map, &ev), Admission::LearnDir(_)));
    assert_eq!(map.resolve_path(&fid(3)), Some(b"/root/sub/child".to_vec()));
    assert_eq!(map.dir_count(), 3);
}

#[test]
fn the_map_is_keyed_by_the_handle_alone() {
    let map = deep_map();
    let other = Fid::new([200; 8], vec![2]);
    assert!(map.contains(&other));
    assert_eq!(map.resolve_path(&other), Some(b"/root/sub".to_vec()));
}

#[test]
fn a_seed_skips_what_hangs_nowhere_and_a_second_root() {
    let mut map = FidMap::new();
    map.seed(&vec![
        SeedEntry::child(fid(4), fid(9), b"lost".to_vec()),
        SeedEntry::root(fid(1), b"/root"),
        SeedEntry::root(fid(5), b"/other"),
        SeedEntry::child(fid(2), fid(1), b"sub".to_vec()),
    ]);
    assert_eq!(map.dir_count(), 2);
    assert!(!map.contains(&fid(4)) && !map.contains(&fid(5)));
    assert_eq!(map.resolve_path(&fid(2)), Some(b"/root/sub".to_vec()));
}

#[test]
fn a_map_says_when_it_holds_too_much() {
    let mut map = FidMap::with_capacity(Some(2));
    map.seed(&vec![
        SeedEntry::root(fid(1), b"/root"),
        SeedEntry::child(fid(2), fid(1), b"a".to_vec()),
    ]);
    assert!(!map.over_capacity());
    map.seed(&vec![SeedEntry::child(fid(3), fid(2), b"b".to_vec())]);
    assert!(map.over_capacity());
    let mut open = FidMap::with_capacity(None);
    open.seed(&vec![SeedEntry::root(fid(1), b"/root")]);
    assert!(!open.over_capacity());
}

#[test]
fn a_merge_that_touches_the_root_is_lossy_under_exclusions_too() {
    let mut map = seeded();
    let generation = map.generation();
    let merged = dirent(FAN_CREATE | FAN_DELETE | FAN_ONDIR, fid(2), b"d", Some(fid(8)));
    assert!(matches!(classify_fenced(&mut map, &merged, &cache()), Admission::Lossy));
    assert_eq!(map.generation(), generation);
}

#[test]
fn a_name_that_only_starts_like_an_exclusion_is_not_excluded() {
    let mut map = seeded();
    let ev = dirent(FAN_CREATE | FAN_ONDIR, fid(1), b"cachex", Some(fid(10)));
    assert!(matches!(classify_fenced(&mut map, &ev, &cache()), Admission::LearnDir(_)));
    assert_eq!(map.resolve_path(&fid(10)), Some(b"/root/cachex".to_vec()));
}
