//! Decoding of the kernel's packed fanotify events.
//!
//! An event is a fixed part (its length, the layout's version, the fixed part's
//! length and the mask) and a run of records. Each record has a type and a
//! length, and holds a file identity and, for some types, a name. An event that
//! does not fit what is left of the buffer ends the walk; one whose records
//! cannot be read is left out. Both make the outcome lossy.

use vstd::prelude::*;

use crate::fanotify::event::{
    FANOTIFY_METADATA_VERSION, FAN_EVENT_INFO_TYPE_DFID, FAN_EVENT_INFO_TYPE_DFID_NAME,
    FAN_EVENT_INFO_TYPE_FID, FAN_EVENT_INFO_TYPE_NEW_DFID_NAME,
    FAN_EVENT_INFO_TYPE_OLD_DFID_NAME, FAN_Q_OVERFLOW, FAN_RENAME, FanEventModel, FanMask,
    RawFanotifyEvent, RenameInfo, RenameModel,
};
use crate::fanotify::fid::{Fid, FidModel, fid_view};
use crate::inotify::decode::{ByteOrder, machine_order, native_order, read_word, word_at};
use crate::path::{DOT, copy_range};

verus! {

/// Size of an event's fixed part.
pub const METADATA: usize = 24;

/// The two bytes at `at` as one unsigned number.
pub open spec fn half_at(buf: Seq<u8>, at: int, order: ByteOrder) -> int {
    match order {
        ByteOrder::Little => buf[at] + 0x100 * buf[at + 1],
        ByteOrder::Big => buf[at + 1] + 0x100 * buf[at],
    }
}

/// The eight bytes at `at` as one unsigned number.
pub open spec fn quad_at(buf: Seq<u8>, at: int, order: ByteOrder) -> int {
    match order {
        ByteOrder::Little => word_at(buf, at, order) + 0x1_0000_0000 * word_at(
            buf,
            at + 4,
            order,
        ),
        ByteOrder::Big => word_at(buf, at + 4, order) + 0x1_0000_0000 * word_at(buf, at, order),
    }
}

/// What the records of an event hold.
pub struct InfoModel {
    pub dir_fid: Option<FidModel>,
    pub name: Option<Seq<u8>>,
    pub target_fid: Option<FidModel>,
    pub old: Option<(FidModel, Seq<u8>)>,
    pub new: Option<(FidModel, Seq<u8>)>,
}

impl InfoModel {
    /// What no record holds.
    pub open spec fn empty() -> InfoModel {
        InfoModel { dir_fid: None, name: None, target_fid: None, old: None, new: None }
    }
}

/// Where the handle in a record ends: behind the filesystem's identity, the
/// handle's size, its type, and its bytes.
pub open spec fn handle_end(record: Seq<u8>, order: ByteOrder) -> int {
    20 + word_at(record, 12, order)
}

/// Whether a record holds a whole identity.
pub open spec fn has_fid(record: Seq<u8>, order: ByteOrder) -> bool {
    record.len() >= 20 && handle_end(record, order) <= record.len()
}

/// The identity in a record: its handle is the type and the bytes.
pub open spec fn fid_in(record: Seq<u8>, order: ByteOrder) -> FidModel {
    FidModel {
        fsid: record.subrange(4, 12),
        handle: record.subrange(16, handle_end(record, order)),
    }
}

/// How many bytes come ahead of the first NUL.
pub open spec fn text_len(bytes: Seq<u8>) -> int
    decreases bytes.len(),
{
    if bytes.len() == 0 || bytes[0] == 0 {
        0
    } else {
        1 + text_len(bytes.skip(1))
    }
}

/// The name in a record, behind the identity.
pub open spec fn record_name(record: Seq<u8>, order: ByteOrder) -> Seq<u8> {
    let rest = record.skip(handle_end(record, order));
    rest.take(text_len(rest))
}

/// Whether records of this type are read.
pub open spec fn is_known(kind: u8) -> bool {
    kind == FAN_EVENT_INFO_TYPE_FID || kind == FAN_EVENT_INFO_TYPE_DFID || kind
        == FAN_EVENT_INFO_TYPE_DFID_NAME || kind == FAN_EVENT_INFO_TYPE_OLD_DFID_NAME || kind
        == FAN_EVENT_INFO_TYPE_NEW_DFID_NAME
}

/// What the records hold with one more. A directory's own name, `.`, is no
/// name. The end of a rename without a name cannot be read.
pub open spec fn with_record(info: InfoModel, record: Seq<u8>, order: ByteOrder) -> Option<
    InfoModel,
> {
    let kind = record[0];
    let fid = fid_in(record, order);
    let name = record_name(record, order);
    if !is_known(kind) {
        Some(info)
    } else if !has_fid(record, order) {
        None
    } else if kind == FAN_EVENT_INFO_TYPE_FID {
        Some(InfoModel { target_fid: Some(fid), ..info })
    } else if kind == FAN_EVENT_INFO_TYPE_DFID {
        Some(InfoModel { dir_fid: Some(fid), ..info })
    } else if kind == FAN_EVENT_INFO_TYPE_DFID_NAME {
        Some(
            InfoModel {
                dir_fid: Some(fid),
                name: if name.len() == 0 || name == seq![DOT] {
                    None
                } else {
                    Some(name)
                },
                ..info
            },
        )
    } else if name.len() == 0 {
        None
    } else if kind == FAN_EVENT_INFO_TYPE_OLD_DFID_NAME {
        Some(InfoModel { old: Some((fid, name)), ..info })
    } else {
        Some(InfoModel { new: Some((fid, name)), ..info })
    }
}

/// Whether the records start with a whole one.
pub open spec fn has_info(records: Seq<u8>, order: ByteOrder) -> bool {
    records.len() >= 4 && 4 <= half_at(records, 2, order) <= records.len()
}

/// What a run of records holds, behind what is known already; nothing where one
/// of them cannot be read.
pub open spec fn info_in(records: Seq<u8>, info: InfoModel, order: ByteOrder) -> Option<InfoModel>
    decreases records.len(),
{
    if records.len() == 0 {
        Some(info)
    } else if !has_info(records, order) {
        None
    } else {
        let n = half_at(records, 2, order);
        match with_record(info, records.take(n), order) {
            Some(more) => info_in(records.skip(n), more, order),
            None => None,
        }
    }
}

/// The event that the records tell of; nothing where a rename lacks an end.
pub open spec fn event_of(mask: FanMask, info: InfoModel) -> Option<FanEventModel> {
    let event = FanEventModel {
        mask,
        dir_fid: info.dir_fid,
        target_fid: info.target_fid,
        name: info.name,
        rename: None,
    };
    match (info.old, info.new) {
        (Some((old_dir, old_name)), Some((new_dir, new_name))) => Some(
            FanEventModel {
                rename: Some(RenameModel { old_dir, old_name, new_dir, new_name }),
                ..event
            },
        ),
        (None, None) => if mask.has(FAN_RENAME) {
            None
        } else {
            Some(event)
        },
        _ => None,
    }
}

/// The length of the event that `buf` starts with.
pub open spec fn event_len(buf: Seq<u8>, order: ByteOrder) -> int {
    word_at(buf, 0, order)
}

/// Whether `buf` starts with a whole event.
pub open spec fn has_event(buf: Seq<u8>, order: ByteOrder) -> bool {
    &&& buf.len() >= METADATA
    &&& METADATA <= half_at(buf, 6, order) <= event_len(buf, order) <= buf.len()
}

/// The mask of the event that `buf` starts with.
pub open spec fn event_mask(buf: Seq<u8>, order: ByteOrder) -> FanMask {
    FanMask(quad_at(buf, 8, order) as u64)
}

/// The event that `buf` starts with; nothing where events were lost, or where
/// it cannot be read.
pub open spec fn first_event(buf: Seq<u8>, order: ByteOrder) -> Option<FanEventModel> {
    let mask = event_mask(buf, order);
    let records = buf.subrange(half_at(buf, 6, order), event_len(buf, order));
    if mask.has(FAN_Q_OVERFLOW) {
        None
    } else {
        match info_in(records, InfoModel::empty(), order) {
            Some(info) => event_of(mask, info),
            None => None,
        }
    }
}

/// What a buffer decodes to.
pub struct FanDecoded {
    pub events: Seq<FanEventModel>,
    pub lossy: bool,
}

/// One event, or a loss, ahead of what the rest decodes to.
pub open spec fn prepend(first: Option<FanEventModel>, rest: FanDecoded) -> FanDecoded {
    match first {
        Some(event) => FanDecoded { events: seq![event] + rest.events, lossy: rest.lossy },
        None => FanDecoded { events: rest.events, lossy: true },
    }
}

/// The events of a buffer, read from its start; nothing where an event is of
/// another version of the layout.
pub open spec fn fan_decoded(buf: Seq<u8>, order: ByteOrder) -> Option<FanDecoded>
    decreases buf.len(),
{
    if buf.len() == 0 {
        Some(FanDecoded { events: Seq::empty(), lossy: false })
    } else if buf.len() < METADATA {
        Some(FanDecoded { events: Seq::empty(), lossy: true })
    } else if buf[4] != FANOTIFY_METADATA_VERSION {
        None
    } else if !has_event(buf, order) {
        Some(FanDecoded { events: Seq::empty(), lossy: true })
    } else {
        match fan_decoded(buf.skip(event_len(buf, order)), order) {
            Some(rest) => Some(prepend(first_event(buf, order), rest)),
            None => None,
        }
    }
}

/// The outcome of decoding one buffer: the events that could be read, and
/// whether any were lost.
#[derive(Debug, PartialEq, Eq)]
pub struct FanOutcome {
    pub events: Vec<RawFanotifyEvent>,
    pub lossy: bool,
}

impl View for FanOutcome {
    type V = FanDecoded;

    open spec fn view(&self) -> FanDecoded {
        FanDecoded {
            events: self.events@.map_values(|e: RawFanotifyEvent| e@),
            lossy: self.lossy,
        }
    }
}

/// What the records of an event hold, as they are read.
#[derive(Debug)]
struct Info {
    dir_fid: Option<Fid>,
    name: Option<Vec<u8>>,
    target_fid: Option<Fid>,
    old: Option<(Fid, Vec<u8>)>,
    new: Option<(Fid, Vec<u8>)>,
}

/// What an optional end of a rename stands for.
spec fn end_view(end: Option<(Fid, Vec<u8>)>) -> Option<(FidModel, Seq<u8>)> {
    match end {
        Some((fid, name)) => Some((fid@, name@)),
        None => None,
    }
}

impl View for Info {
    type V = InfoModel;

    closed spec fn view(&self) -> InfoModel {
        InfoModel {
            dir_fid: fid_view(self.dir_fid),
            name: match self.name {
                Some(n) => Some(n@),
                None => None,
            },
            target_fid: fid_view(self.target_fid),
            old: end_view(self.old),
            new: end_view(self.new),
        }
    }
}

/// Reads the two bytes at `at` as one unsigned number.
fn read_half(buf: &[u8], at: usize, order: ByteOrder) -> (r: usize)
    requires
        at + 2 <= buf@.len(),
    ensures
        r == half_at(buf@, at as int, order),
{
    let b0: usize = buf[at] as usize;
    let b1: usize = buf[at + 1] as usize;
    match order {
        ByteOrder::Little => b0 + 0x100 * b1,
        ByteOrder::Big => b1 + 0x100 * b0,
    }
}

/// Reads the eight bytes at `at` as one unsigned number.
fn read_quad(buf: &[u8], at: usize, order: ByteOrder) -> (r: u64)
    requires
        at + 8 <= buf@.len(),
    ensures
        r == quad_at(buf@, at as int, order),
{
    assert(buf.len() >= at + 8);
    let w0: u64 = read_word(buf, at, order) as u64;
    let w1: u64 = read_word(buf, at + 4, order) as u64;
    match order {
        ByteOrder::Little => w0 + 0x1_0000_0000 * w1,
        ByteOrder::Big => w1 + 0x1_0000_0000 * w0,
    }
}

/// The bytes `buf[from..to]` as a text up to its first NUL.
fn read_text(buf: &[u8], from: usize, to: usize) -> (r: Vec<u8>)
    requires
        from <= to <= buf@.len(),
    ensures
        ({
            let bytes = buf@.subrange(from as int, to as int);
            r@ == bytes.take(text_len(bytes))
        }),
{
    let ghost bytes = buf@.subrange(from as int, to as int);
    let mut at: usize = from;
    while at < to && buf[at] != 0
        invariant
            from <= at <= to <= buf@.len(),
            bytes == buf@.subrange(from as int, to as int),
            text_len(bytes) == at - from + text_len(buf@.subrange(at as int, to as int)),
        decreases to - at,
    {
        assert(buf@.subrange(at as int, to as int).skip(1) =~= buf@.subrange(at + 1, to as int));
        at = at + 1;
    }
    assert(text_len(buf@.subrange(at as int, to as int)) == 0);
    assert(bytes.take(at - from) =~= buf@.subrange(from as int, at as int));
    copy_range(buf, from, at)
}

/// Whether records of this type are read.
fn known(kind: u8) -> (r: bool)
    ensures
        r == is_known(kind),
{
    kind == FAN_EVENT_INFO_TYPE_FID || kind == FAN_EVENT_INFO_TYPE_DFID || kind
        == FAN_EVENT_INFO_TYPE_DFID_NAME || kind == FAN_EVENT_INFO_TYPE_OLD_DFID_NAME || kind
        == FAN_EVENT_INFO_TYPE_NEW_DFID_NAME
}

/// Takes in the record `buf[from..to]`.
fn read_record(buf: &[u8], from: usize, to: usize, info: Info, order: ByteOrder) -> (r: Option<
    Info,
>)
    requires
        from + 4 <= to <= buf@.len(),
    ensures
        ({
            let record = buf@.subrange(from as int, to as int);
            match r {
                Some(more) => with_record(info@, record, order) == Some(more@),
                None => with_record(info@, record, order) is None,
            }
        }),
{
    let ghost record = buf@.subrange(from as int, to as int);
    let kind: u8 = buf[from];
    assert(record[0] == kind);
    if !known(kind) {
        return Some(info);
    }
    if to - from < 20 {
        return None;
    }
    assert(word_at(record, 12, order) == word_at(buf@, from + 12, order));
    let size: usize = read_word(buf, from + 12, order) as usize;
    if size > to - from - 20 {
        return None;
    }
    let end: usize = from + 20 + size;
    let fsid: [u8; 8] = [
        buf[from + 4],
        buf[from + 5],
        buf[from + 6],
        buf[from + 7],
        buf[from + 8],
        buf[from + 9],
        buf[from + 10],
        buf[from + 11],
    ];
    assert(fsid@ =~= record.subrange(4, 12));
    assert(record.subrange(16, handle_end(record, order)) =~= buf@.subrange(
        from + 16,
        end as int,
    ));
    let fid = Fid::new(fsid, copy_range(buf, from + 16, end));
    assert(fid@ == fid_in(record, order));
    assert(record.skip(handle_end(record, order)) =~= buf@.subrange(end as int, to as int));
    let name = read_text(buf, end, to);
    assert(name@ == record_name(record, order));
    if kind == FAN_EVENT_INFO_TYPE_FID {
        return Some(Info { target_fid: Some(fid), ..info });
    }
    if kind == FAN_EVENT_INFO_TYPE_DFID {
        return Some(Info { dir_fid: Some(fid), ..info });
    }
    if kind == FAN_EVENT_INFO_TYPE_DFID_NAME {
        assert(name@ =~= seq![DOT] <==> name@.len() == 1 && name@[0] == DOT);
        let own = name.len() == 0 || (name.len() == 1 && name[0] == DOT);
        let name: Option<Vec<u8>> = if own {
            None
        } else {
            Some(name)
        };
        return Some(Info { dir_fid: Some(fid), name, ..info });
    }
    if name.len() == 0 {
        return None;
    }
    if kind == FAN_EVENT_INFO_TYPE_OLD_DFID_NAME {
        Some(Info { old: Some((fid, name)), ..info })
    } else {
        Some(Info { new: Some((fid, name)), ..info })
    }
}

/// Reads the records `buf[from..to]`.
fn read_info(buf: &[u8], from: usize, to: usize, order: ByteOrder) -> (r: Option<Info>)
    requires
        from <= to <= buf@.len(),
    ensures
        ({
            let records = buf@.subrange(from as int, to as int);
            match r {
                Some(info) => info_in(records, InfoModel::empty(), order) == Some(info@),
                None => info_in(records, InfoModel::empty(), order) is None,
            }
        }),
{
    let ghost whole = buf@.subrange(from as int, to as int);
    let mut info = Info { dir_fid: None, name: None, target_fid: None, old: None, new: None };
    let mut at: usize = from;
    while at < to
        invariant
            from <= at <= to <= buf@.len(),
            whole == buf@.subrange(from as int, to as int),
            info_in(whole, InfoModel::empty(), order) == info_in(
                buf@.subrange(at as int, to as int),
                info@,
                order,
            ),
        decreases to - at,
    {
        let ghost rest = buf@.subrange(at as int, to as int);
        if to - at < 4 {
            return None;
        }
        assert(half_at(rest, 2, order) == half_at(buf@, at + 2, order));
        let len: usize = read_half(buf, at + 2, order);
        if len < 4 || len > to - at {
            return None;
        }
        assert(rest.take(len as int) =~= buf@.subrange(at as int, at + len));
        assert(rest.skip(len as int) =~= buf@.subrange(at + len, to as int));
        info = match read_record(buf, at, at + len, info, order) {
            Some(more) => more,
            None => {
                return None;
            },
        };
        at = at + len;
    }
    Some(info)
}

/// The event that the records tell of.
fn make_event(mask: FanMask, info: Info) -> (r: Option<RawFanotifyEvent>)
    ensures
        match r {
            Some(event) => event_of(mask, info@) == Some(event@),
            None => event_of(mask, info@) is None,
        },
{
    let rename: Option<RenameInfo> = match (info.old, info.new) {
        (Some((old_dir, old_name)), Some((new_dir, new_name))) => Some(
            RenameInfo { old_dir, old_name, new_dir, new_name },
        ),
        (None, None) => {
            if mask.rename() {
                return None;
            }
            None
        },
        _ => {
            return None;
        },
    };
    Some(
        RawFanotifyEvent {
            mask,
            dir_fid: info.dir_fid,
            target_fid: info.target_fid,
            name: info.name,
            rename,
        },
    )
}

/// Reads the event at `at`, which ends at `end`.
fn read_event(buf: &[u8], at: usize, end: usize, order: ByteOrder) -> (r: Option<
    RawFanotifyEvent,
>)
    requires
        at <= end <= buf@.len(),
        has_event(buf@.skip(at as int), order),
        end == at + event_len(buf@.skip(at as int), order),
    ensures
        match r {
            Some(event) => first_event(buf@.skip(at as int), order) == Some(event@),
            None => first_event(buf@.skip(at as int), order) is None,
        },
{
    let ghost rest = buf@.skip(at as int);
    assert(half_at(rest, 6, order) == half_at(buf@, at + 6, order));
    assert(quad_at(rest, 8, order) == quad_at(buf@, at + 8, order));
    let fixed: usize = read_half(buf, at + 6, order);
    let mask = FanMask::new(read_quad(buf, at + 8, order));
    if mask.0 & FAN_Q_OVERFLOW != 0 {
        return None;
    }
    assert(rest.subrange(fixed as int, end - at) =~= buf@.subrange(at + fixed, end as int));
    match read_info(buf, at + fixed, end, order) {
        Some(info) => make_event(mask, info),
        None => None,
    }
}

/// What is decoded so far, ahead of what the rest decodes to.
spec fn ahead_of(done: Seq<FanEventModel>, lost: bool, rest: Option<FanDecoded>) -> Option<
    FanDecoded,
> {
    match rest {
        Some(r) => Some(FanDecoded { events: done + r.events, lossy: lost || r.lossy }),
        None => None,
    }
}

/// Decodes a buffer of packed events whose numbers lie in the given byte order;
/// nothing where an event is of another version of the layout.
pub fn decode_fan_events_as(buf: &[u8], order: ByteOrder) -> (r: Option<FanOutcome>)
    ensures
        match r {
            Some(outcome) => fan_decoded(buf@, order) == Some(outcome@),
            None => fan_decoded(buf@, order) is None,
        },
{
    let mut events: Vec<RawFanotifyEvent> = Vec::new();
    let mut lossy: bool = false;
    let mut at: usize = 0;
    let ghost mut done: Seq<FanEventModel> = Seq::empty();
    proof {
        assert(buf@.skip(0) =~= buf@);
        assert(done =~= events@.map_values(|e: RawFanotifyEvent| e@));
        if let Some(d) = fan_decoded(buf@, order) {
            assert(done + d.events =~= d.events);
        }
    }
    while at < buf.len()
        invariant
            at <= buf@.len(),
            done == events@.map_values(|e: RawFanotifyEvent| e@),
            fan_decoded(buf@, order) == ahead_of(
                done,
                lossy,
                fan_decoded(buf@.skip(at as int), order),
            ),
        decreases buf@.len() - at,
    {
        let ghost rest = buf@.skip(at as int);
        assert(done + Seq::<FanEventModel>::empty() =~= done);
        if buf.len() - at < METADATA {
            return Some(FanOutcome { events, lossy: true });
        }
        assert(rest[4] == buf@[at + 4]);
        if buf[at + 4] != FANOTIFY_METADATA_VERSION {
            return None;
        }
        assert(half_at(rest, 6, order) == half_at(buf@, at + 6, order));
        assert(word_at(rest, 0, order) == word_at(buf@, at as int, order));
        let len: usize = read_word(buf, at, order) as usize;
        let fixed: usize = read_half(buf, at + 6, order);
        if fixed < METADATA || fixed > len || len > buf.len() - at {
            return Some(FanOutcome { events, lossy: true });
        }
        let first = read_event(buf, at, at + len, order);
        assert(rest.skip(len as int) =~= buf@.skip(at + len));
        let ghost later = fan_decoded(buf@.skip(at + len), order);
        match first {
            Some(event) => {
                proof {
                    if let Some(l) = later {
                        assert(done + (seq![event@] + l.events) =~= done.push(event@) + l.events);
                    }
                    done = done.push(event@);
                }
                events.push(event);
                assert(done =~= events@.map_values(|e: RawFanotifyEvent| e@));
            },
            None => {
                lossy = true;
            },
        }
        at = at + len;
    }
    assert(done + Seq::<FanEventModel>::empty() =~= done);
    Some(FanOutcome { events, lossy })
}

/// Decodes a buffer of packed events in the machine's own byte order.
pub fn decode_events(buf: &[u8]) -> (r: Option<FanOutcome>)
    ensures
        match r {
            Some(outcome) => fan_decoded(buf@, machine_order()) == Some(outcome@),
            None => fan_decoded(buf@, machine_order()) is None,
        },
{
    decode_fan_events_as(buf, native_order())
}

} // verus!
