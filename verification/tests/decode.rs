//! Decoding of packed inotify records.

use tributary_fs::inotify::decode::{
    ByteOrder, DecodeOutcome, IN_ATTRIB, IN_CREATE, IN_DELETE, IN_DELETE_SELF, IN_DONT_FOLLOW,
    IN_EXCL_UNLINK, IN_IGNORED, IN_ISDIR, IN_MASK_CREATE, IN_MODIFY, IN_MOVED_FROM, IN_MOVED_TO,
    IN_MOVE_SELF, IN_ONLYDIR, IN_Q_OVERFLOW, IN_UNMOUNT, InotifyMask, WATCH_MASK, decode_events,
    decode_events_as, native_order, read_word,
};

fn event_bytes(wd: i32, mask: u32, cookie: u32, name: &[u8], pad_to: usize) -> Vec<u8> {
    assert!(pad_to >= name.len());
    let mut buf = Vec::new();
    buf.extend_from_slice(&wd.to_ne_bytes());
    buf.extend_from_slice(&mask.to_ne_bytes());
    buf.extend_from_slice(&cookie.to_ne_bytes());
    buf.extend_from_slice(&(pad_to as u32).to_ne_bytes());
    buf.extend_from_slice(name);
    buf.resize(16 + pad_to, 0);
    buf
}

#[test]
fn packed_multi_event_buffer_decodes_in_order() {
    let mut buf = event_bytes(1, IN_CREATE, 0, b"a.txt", 8);
    buf.extend(event_bytes(
        2,
        IN_MOVED_FROM,
        77,
        b"old",
        4,
    ));
    buf.extend(event_bytes(
        2,
        IN_MOVED_TO,
        77,
        b"new",
        4,
    ));

    let DecodeOutcome { events, lossy } = decode_events(&buf);
    assert!(!lossy);
    assert_eq!(events.len(), 3);
    assert_eq!(events[0].wd, 1);
    assert!(events[0].mask.created());
    assert_eq!(events[0].name.as_deref(), Some(b"a.txt".as_slice()));
    assert_eq!(events[1].cookie, 77);
    assert!(events[1].mask.moved_from());
    assert!(events[2].mask.moved_to());
    assert_eq!(events[2].name.as_deref(), Some(b"new".as_slice()));
}

#[test]
fn name_padding_is_trimmed_and_empty_name_is_none() {
    let buf = event_bytes(3, IN_DELETE_SELF, 0, b"", 16);
    let DecodeOutcome { events, lossy } = decode_events(&buf);
    assert!(!lossy);
    assert_eq!(events.len(), 1);
    assert_eq!(events[0].name, None, "all-NUL name decodes to None");
}

#[test]
fn truncated_trailing_record_is_lossy_not_fatal() {
    let mut buf = event_bytes(1, IN_MODIFY, 0, b"x", 4);
    let whole = event_bytes(1, IN_MODIFY, 0, b"y", 4);
    buf.extend_from_slice(&whole[..10]); // header cut mid-way

    let DecodeOutcome { events, lossy } = decode_events(&buf);
    assert_eq!(events.len(), 1, "the intact record still decodes");
    assert!(lossy, "a truncated tail marks the batch lossy");
}

#[test]
fn absurd_len_is_lossy_not_a_panic() {
    let mut buf = event_bytes(1, IN_CREATE, 0, b"ok", 4);
    let mut bad = Vec::new();
    bad.extend_from_slice(&5i32.to_ne_bytes());
    bad.extend_from_slice(&IN_CREATE.to_ne_bytes());
    bad.extend_from_slice(&0u32.to_ne_bytes());
    bad.extend_from_slice(&(u32::MAX).to_ne_bytes()); // len far beyond the buffer
    buf.extend(bad);

    let DecodeOutcome { events, lossy } = decode_events(&buf);
    assert_eq!(events.len(), 1);
    assert!(lossy);
}

#[test]
fn name_len_overflow_alone_is_lossy_not_a_panic() {
    let mut buf = Vec::new();
    buf.extend_from_slice(&7i32.to_ne_bytes()); // wd
    buf.extend_from_slice(&IN_CREATE.to_ne_bytes()); // mask
    buf.extend_from_slice(&0u32.to_ne_bytes()); // cookie
    buf.extend_from_slice(&u32::MAX.to_ne_bytes()); // len: absurd, overflows on 32-bit

    let DecodeOutcome { events, lossy } = decode_events(&buf);
    assert!(lossy, "a name length that overflows usize is lossy");
    assert!(
        events.is_empty(),
        "the overflowing record yields no event and stops the walk"
    );
}

#[test]
fn queue_overflow_entry_decodes_with_sentinel_wd() {
    let buf = event_bytes(-1, IN_Q_OVERFLOW, 0, b"", 0);
    let DecodeOutcome { events, lossy } = decode_events(&buf);
    assert!(!lossy, "overflow is an EVENT, not a decode defect");
    assert_eq!(events.len(), 1);
    assert_eq!(events[0].wd, -1);
    assert!(events[0].mask.is_overflow());
    assert_eq!(events[0].name, None);
}

#[test]
fn mask_predicates_match_kernel_bits() {
    assert!(InotifyMask(IN_IGNORED).is_ignored());
    assert!(InotifyMask(IN_UNMOUNT).unmount());
    assert!(InotifyMask(IN_MOVE_SELF).move_self());
    assert!(InotifyMask(IN_DELETE_SELF).delete_self());
    assert!(InotifyMask(IN_ATTRIB).attrib());
    assert!(InotifyMask(IN_DELETE).removed());
    assert!(InotifyMask(IN_MODIFY).modified());
    let dir_create = InotifyMask(IN_CREATE | IN_ISDIR);
    assert!(dir_create.created() && dir_create.is_dir());
}

#[test]
fn reader_decode_constants_match_libc() {
    assert_eq!(IN_CREATE, libc::IN_CREATE);
    assert_eq!(IN_DELETE, libc::IN_DELETE);
    assert_eq!(IN_DELETE_SELF, libc::IN_DELETE_SELF);
    assert_eq!(IN_MODIFY, libc::IN_MODIFY);
    assert_eq!(IN_ATTRIB, libc::IN_ATTRIB);
    assert_eq!(IN_MOVE_SELF, libc::IN_MOVE_SELF);
    assert_eq!(IN_MOVED_FROM, libc::IN_MOVED_FROM);
    assert_eq!(IN_MOVED_TO, libc::IN_MOVED_TO);
    assert_eq!(IN_UNMOUNT, libc::IN_UNMOUNT);
    assert_eq!(IN_Q_OVERFLOW, libc::IN_Q_OVERFLOW);
    assert_eq!(IN_IGNORED, libc::IN_IGNORED);
    assert_eq!(IN_ISDIR, libc::IN_ISDIR);
    assert_eq!(IN_ONLYDIR, libc::IN_ONLYDIR);
    assert_eq!(IN_DONT_FOLLOW, libc::IN_DONT_FOLLOW);
    assert_eq!(IN_EXCL_UNLINK, libc::IN_EXCL_UNLINK);
    assert_eq!(IN_MASK_CREATE, libc::IN_MASK_CREATE);
}

#[test]
fn tests_decode_constants_match_libc() {
    let composite = libc::IN_ATTRIB
        | libc::IN_CREATE
        | libc::IN_DELETE
        | libc::IN_DELETE_SELF
        | libc::IN_MODIFY
        | libc::IN_MOVE_SELF
        | libc::IN_MOVED_FROM
        | libc::IN_MOVED_TO
        | libc::IN_ONLYDIR
        | libc::IN_DONT_FOLLOW
        | libc::IN_EXCL_UNLINK
        | libc::IN_MASK_CREATE;
    assert_eq!(WATCH_MASK, composite);
    assert_eq!(IN_CREATE, libc::IN_CREATE);
    assert_eq!(IN_DELETE, libc::IN_DELETE);
    assert_eq!(IN_DELETE_SELF, libc::IN_DELETE_SELF);
    assert_eq!(IN_MODIFY, libc::IN_MODIFY);
    assert_eq!(IN_ATTRIB, libc::IN_ATTRIB);
    assert_eq!(IN_MOVE_SELF, libc::IN_MOVE_SELF);
    assert_eq!(IN_MOVED_FROM, libc::IN_MOVED_FROM);
    assert_eq!(IN_MOVED_TO, libc::IN_MOVED_TO);
    assert_eq!(IN_UNMOUNT, libc::IN_UNMOUNT);
    assert_eq!(IN_Q_OVERFLOW, libc::IN_Q_OVERFLOW);
    assert_eq!(IN_IGNORED, libc::IN_IGNORED);
    assert_eq!(IN_ISDIR, libc::IN_ISDIR);
    assert_eq!(IN_ONLYDIR, libc::IN_ONLYDIR);
    assert_eq!(IN_DONT_FOLLOW, libc::IN_DONT_FOLLOW);
    assert_eq!(IN_EXCL_UNLINK, libc::IN_EXCL_UNLINK);
    assert_eq!(IN_MASK_CREATE, libc::IN_MASK_CREATE);
}

#[test]
fn both_byte_orders_decode_to_the_same_event() {
    let mut little = Vec::new();
    little.extend_from_slice(&(-5i32).to_le_bytes());
    little.extend_from_slice(&IN_CREATE.to_le_bytes());
    little.extend_from_slice(&0xdead_beefu32.to_le_bytes());
    little.extend_from_slice(&4u32.to_le_bytes());
    little.extend_from_slice(b"ab\0\0");
    let mut big = Vec::new();
    big.extend_from_slice(&(-5i32).to_be_bytes());
    big.extend_from_slice(&IN_CREATE.to_be_bytes());
    big.extend_from_slice(&0xdead_beefu32.to_be_bytes());
    big.extend_from_slice(&4u32.to_be_bytes());
    big.extend_from_slice(b"ab\0\0");
    let a = decode_events_as(&little, ByteOrder::Little);
    let b = decode_events_as(&big, ByteOrder::Big);
    assert_eq!(a, b);
    assert_eq!(a.events[0].wd, -5);
    assert_eq!(a.events[0].cookie, 0xdead_beef);
    assert_eq!(a.events[0].name, Some(b"ab".to_vec()));
}

#[test]
fn the_native_order_is_the_machines_own() {
    let order = native_order();
    assert_eq!(read_word(&0x0102_0304u32.to_ne_bytes(), 0, order), 0x0102_0304);
    let other = match order {
        ByteOrder::Little => ByteOrder::Big,
        ByteOrder::Big => ByteOrder::Little,
    };
    assert_eq!(read_word(&0x0102_0304u32.to_ne_bytes(), 0, other), 0x0403_0201);
}

#[test]
fn interior_nuls_are_kept_and_the_extreme_descriptors_decode() {
    let mut buf = event_bytes(i32::MIN, IN_CREATE, 1, b"a\0b", 8);
    buf.extend(event_bytes(i32::MAX, IN_DELETE, 2, b"c", 1));
    let outcome = decode_events(&buf);
    assert!(!outcome.lossy);
    assert_eq!(outcome.events[0].wd, i32::MIN);
    assert_eq!(outcome.events[0].name, Some(b"a\0b".to_vec()));
    assert_eq!(outcome.events[1].wd, i32::MAX);
    assert_eq!(outcome.events[1].name, Some(b"c".to_vec()));
}

#[test]
fn cutting_a_buffer_anywhere_keeps_a_prefix() {
    let mut buf = event_bytes(1, IN_CREATE, 0, b"one", 8);
    buf.extend(event_bytes(2, IN_MODIFY, 0, b"", 0));
    buf.extend(event_bytes(3, IN_DELETE, 0, b"three", 5));
    let whole = decode_events(&buf);
    assert_eq!(whole.events.len(), 3);
    for kept in 0..buf.len() {
        let cut = decode_events(&buf[..kept]);
        assert!(whole.events.starts_with(&cut.events));
        assert_eq!(cut.lossy, kept != 0 && kept != 24 && kept != 40);
    }
}

#[test]
fn an_empty_buffer_is_clean() {
    assert_eq!(decode_events(&[]), DecodeOutcome { events: Vec::new(), lossy: false });
}
