//! Decoding of packed fanotify events, and the kernel's constants.

use tributary_fs::error::EOVERFLOW;
use tributary_fs::fanotify::event::{
    FANOTIFY_METADATA_VERSION, FAN_ATTRIB, FAN_CREATE, FAN_DELETE, FAN_DELETE_SELF,
    FAN_EVENT_INFO_TYPE_DFID, FAN_EVENT_INFO_TYPE_DFID_NAME, FAN_EVENT_INFO_TYPE_FID,
    FAN_EVENT_INFO_TYPE_NEW_DFID_NAME, FAN_EVENT_INFO_TYPE_OLD_DFID_NAME, FAN_INIT_FLAGS,
    FAN_MARK_MASK, FAN_MODIFY, FAN_MOVE_SELF, FAN_ONDIR, FAN_Q_OVERFLOW, FAN_RENAME, FanMask,
};
use tributary_fs::fanotify::wire::{decode_events, decode_fan_events_as};
use tributary_fs::inotify::decode::ByteOrder;

#[test]
fn fanotify_constants_match_libc() {
    assert_eq!(FAN_MODIFY, libc::FAN_MODIFY);
    assert_eq!(FAN_ATTRIB, libc::FAN_ATTRIB);
    assert_eq!(FAN_CREATE, libc::FAN_CREATE);
    assert_eq!(FAN_DELETE, libc::FAN_DELETE);
    assert_eq!(FAN_DELETE_SELF, libc::FAN_DELETE_SELF);
    assert_eq!(FAN_MOVE_SELF, libc::FAN_MOVE_SELF);
    assert_eq!(FAN_RENAME, libc::FAN_RENAME);
    assert_eq!(FAN_Q_OVERFLOW, libc::FAN_Q_OVERFLOW);
    assert_eq!(FAN_ONDIR, libc::FAN_ONDIR);
}

#[test]
fn eoverflow_matches_libc() {
    assert_eq!(EOVERFLOW, libc::EOVERFLOW);
}

#[test]
fn metadata_version_matches_libc() {
    assert_eq!(FANOTIFY_METADATA_VERSION, libc::FANOTIFY_METADATA_VERSION);
}

#[test]
fn info_record_tags_match_libc() {
    assert_eq!(FAN_EVENT_INFO_TYPE_FID, libc::FAN_EVENT_INFO_TYPE_FID);
    assert_eq!(FAN_EVENT_INFO_TYPE_DFID_NAME, libc::FAN_EVENT_INFO_TYPE_DFID_NAME);
    assert_eq!(FAN_EVENT_INFO_TYPE_DFID, libc::FAN_EVENT_INFO_TYPE_DFID);
    assert_eq!(
        FAN_EVENT_INFO_TYPE_OLD_DFID_NAME,
        libc::FAN_EVENT_INFO_TYPE_OLD_DFID_NAME
    );
    assert_eq!(
        FAN_EVENT_INFO_TYPE_NEW_DFID_NAME,
        libc::FAN_EVENT_INFO_TYPE_NEW_DFID_NAME
    );
}

#[test]
fn init_and_mark_flag_sets_match_the_composite() {
    assert_eq!(
        FAN_INIT_FLAGS,
        libc::FAN_CLASS_NOTIF
            | libc::FAN_REPORT_FID
            | libc::FAN_REPORT_DFID_NAME
            | libc::FAN_REPORT_TARGET_FID
    );
    assert_eq!(
        FAN_MARK_MASK,
        libc::FAN_CREATE
            | libc::FAN_DELETE
            | libc::FAN_MODIFY
            | libc::FAN_ATTRIB
            | libc::FAN_RENAME
            | libc::FAN_DELETE_SELF
            | libc::FAN_MOVE_SELF
            | libc::FAN_ONDIR
    );
}

fn record(kind: u8, handle: &[u8], name: Option<&[u8]>) -> Vec<u8> {
    let mut body = vec![5u8; 8];
    body.extend_from_slice(&(handle.len() as u32).to_ne_bytes());
    body.extend_from_slice(&1i32.to_ne_bytes());
    body.extend_from_slice(handle);
    if let Some(name) = name {
        body.extend_from_slice(name);
        body.push(0);
    }
    let mut out = vec![kind, 0];
    out.extend_from_slice(&((4 + body.len()) as u16).to_ne_bytes());
    out.extend_from_slice(&body);
    out
}

fn event(mask: u64, records: &[Vec<u8>]) -> Vec<u8> {
    let body = records.concat();
    let mut out = ((24 + body.len()) as u32).to_ne_bytes().to_vec();
    out.push(3);
    out.push(0);
    out.extend_from_slice(&24u16.to_ne_bytes());
    out.extend_from_slice(&mask.to_ne_bytes());
    out.extend_from_slice(&(-1i32).to_ne_bytes());
    out.extend_from_slice(&0i32.to_ne_bytes());
    out.extend_from_slice(&body);
    out
}

fn wire_handle(handle: &[u8]) -> Vec<u8> {
    let mut out = 1i32.to_ne_bytes().to_vec();
    out.extend_from_slice(handle);
    out
}

#[test]
fn a_named_event_carries_its_directory_its_name_and_its_target() {
    let mut buf = event(
        FAN_CREATE | FAN_ONDIR,
        &[
            record(FAN_EVENT_INFO_TYPE_DFID_NAME, b"dir", Some(b"new")),
            record(FAN_EVENT_INFO_TYPE_FID, b"kid", None),
        ],
    );
    buf.extend(event(FAN_MODIFY, &[record(FAN_EVENT_INFO_TYPE_DFID, b"dir", None)]));
    let outcome = decode_events(&buf).expect("this version");
    assert!(!outcome.lossy);
    assert_eq!(outcome.events.len(), 2);
    let first = &outcome.events[0];
    assert_eq!(first.mask, FanMask::new(FAN_CREATE | FAN_ONDIR));
    assert_eq!(first.dir_fid.as_ref().map(|f| f.handle.clone()), Some(wire_handle(b"dir")));
    assert_eq!(first.dir_fid.as_ref().map(|f| f.fsid), Some([5; 8]));
    assert_eq!(first.target_fid.as_ref().map(|f| f.handle.clone()), Some(wire_handle(b"kid")));
    assert_eq!(first.name, Some(b"new".to_vec()));
    assert_eq!(outcome.events[1].name, None);
    assert!(outcome.events[1].target_fid.is_none());
}

#[test]
fn a_rename_needs_both_its_ends() {
    let old = record(FAN_EVENT_INFO_TYPE_OLD_DFID_NAME, b"a", Some(b"x"));
    let new = record(FAN_EVENT_INFO_TYPE_NEW_DFID_NAME, b"b", Some(b"y"));
    let whole = decode_events(&event(FAN_RENAME, &[old.clone(), new.clone()])).expect("version");
    let rename = whole.events[0].rename.as_ref().expect("both ends");
    assert_eq!(rename.old_dir.handle, wire_handle(b"a"));
    assert_eq!(rename.old_name, b"x".to_vec());
    assert_eq!(rename.new_dir.handle, wire_handle(b"b"));
    assert_eq!(rename.new_name, b"y".to_vec());
    let nameless = record(FAN_EVENT_INFO_TYPE_NEW_DFID_NAME, b"b", Some(b""));
    for records in [vec![old.clone()], vec![new], vec![], vec![old, nameless]] {
        let outcome = decode_events(&event(FAN_RENAME, &records)).expect("version");
        assert!(outcome.lossy);
        assert!(outcome.events.is_empty());
    }
}

#[test]
fn an_overflow_is_a_loss_and_what_follows_it_decodes() {
    let mut buf = event(FAN_Q_OVERFLOW, &[]);
    buf.extend(event(FAN_ATTRIB, &[record(FAN_EVENT_INFO_TYPE_FID, b"k", None)]));
    let outcome = decode_events(&buf).expect("version");
    assert!(outcome.lossy);
    assert_eq!(outcome.events.len(), 1);
    assert_eq!(outcome.events[0].mask, FanMask::new(FAN_ATTRIB));
}

#[test]
fn another_version_is_refused_and_a_cut_is_a_loss() {
    let mut other = event(FAN_ATTRIB, &[]);
    other[4] = 4;
    assert!(decode_events(&other).is_none());
    let whole = event(FAN_ATTRIB, &[record(FAN_EVENT_INFO_TYPE_FID, b"k", None)]);
    for kept in 1..whole.len() {
        let outcome = decode_events(&whole[..kept]).expect("version");
        assert!(outcome.lossy && outcome.events.is_empty());
    }
    assert_eq!(decode_events(&[]).map(|o| (o.events.len(), o.lossy)), Some((0, false)));
}

#[test]
fn a_record_that_cannot_be_read_loses_its_event_only() {
    let mut long = record(FAN_EVENT_INFO_TYPE_FID, b"k", None);
    long[12..16].copy_from_slice(&99u32.to_ne_bytes());
    let mut buf = event(FAN_ATTRIB, &[long]);
    buf.extend(event(FAN_MODIFY, &[record(200, b"?", None)]));
    let outcome = decode_events(&buf).expect("version");
    assert!(outcome.lossy);
    assert_eq!(outcome.events.len(), 1);
    assert!(outcome.events[0].target_fid.is_none() && outcome.events[0].dir_fid.is_none());
}

#[test]
fn an_events_numbers_follow_the_byte_order() {
    let mut big = 24u32.to_be_bytes().to_vec();
    big.push(3);
    big.push(0);
    big.extend_from_slice(&24u16.to_be_bytes());
    big.extend_from_slice(&FAN_RENAME.to_be_bytes());
    big.extend_from_slice(&[0; 8]);
    let outcome = decode_fan_events_as(&big, ByteOrder::Big).expect("version");
    assert!(outcome.lossy && outcome.events.is_empty());
    big[8..16].copy_from_slice(&(FAN_ATTRIB | FAN_ONDIR).to_be_bytes());
    let outcome = decode_fan_events_as(&big, ByteOrder::Big).expect("version");
    assert_eq!(outcome.events[0].mask, FanMask::new(FAN_ATTRIB | FAN_ONDIR));
}
