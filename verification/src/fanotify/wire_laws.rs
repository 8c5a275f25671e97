//! What holds of every buffer of packed events: what the kernel writes for an
//! event decodes to that event, and what cannot be read is a loss.

use vstd::prelude::*;

use crate::fanotify::event::{FanEventModel, FanMask};
use crate::fanotify::fid::FidModel;
use crate::fanotify::wire::{
    FanDecoded, InfoModel, event_mask, fan_decoded, fid_in, first_event, half_at, handle_end,
    has_event, info_in, quad_at, record_name, text_len, with_record,
};
use crate::inotify::decode::{ByteOrder, lemma_word_bytes, word_at, word_bytes};

verus! {

/// A short number as two bytes.
pub open spec fn half_bytes(half: int, order: ByteOrder) -> Seq<u8> {
    let low = (half % 0x100) as u8;
    let high = (half / 0x100 % 0x100) as u8;
    match order {
        ByteOrder::Little => seq![low, high],
        ByteOrder::Big => seq![high, low],
    }
}

/// A long number as eight bytes.
pub open spec fn quad_bytes(quad: int, order: ByteOrder) -> Seq<u8> {
    let low = word_bytes(quad % 0x1_0000_0000, order);
    let high = word_bytes(quad / 0x1_0000_0000, order);
    match order {
        ByteOrder::Little => low + high,
        ByteOrder::Big => high + low,
    }
}

/// That many NULs.
pub open spec fn nuls(n: nat) -> Seq<u8> {
    Seq::new(n, |i: int| 0u8)
}

/// What one record of an event tells.
pub enum Part {
    /// The directory that the event is on or in.
    Directory(FidModel),
    /// The same, under the name that a directory has in itself.
    Itself(FidModel),
    /// The same, under no name at all.
    Unnamed(FidModel),
    /// The directory that the event is in, and the name there.
    Named(FidModel, Seq<u8>),
    /// The object that the event is about.
    Target(FidModel),
    /// The end that a rename started from.
    Old(FidModel, Seq<u8>),
    /// The end that a rename led to.
    New(FidModel, Seq<u8>),
    /// Something else, under a type of its own.
    Other(u8, Seq<u8>),
}

/// The type under which the kernel writes the record.
pub open spec fn part_type(part: Part) -> u8 {
    match part {
        Part::Target(_) => 1,
        Part::Itself(_) => 2,
        Part::Unnamed(_) => 2,
        Part::Named(_, _) => 2,
        Part::Directory(_) => 3,
        Part::Old(_, _) => 10,
        Part::New(_, _) => 12,
        Part::Other(kind, _) => kind,
    }
}

/// An identity as the kernel writes it: the filesystem, how many bytes the
/// handle has behind its type, the type, and those bytes.
pub open spec fn fid_bytes(fid: FidModel, order: ByteOrder) -> Seq<u8> {
    fid.fsid + word_bytes(fid.handle.len() - 4, order) + fid.handle
}

/// What stands behind a record's type and length, up to the NULs at its end.
pub open spec fn part_bytes(part: Part, order: ByteOrder) -> Seq<u8> {
    match part {
        Part::Directory(fid) => fid_bytes(fid, order),
        Part::Target(fid) => fid_bytes(fid, order),
        Part::Unnamed(fid) => fid_bytes(fid, order),
        Part::Itself(fid) => fid_bytes(fid, order) + seq![46u8],
        Part::Named(fid, name) => fid_bytes(fid, order) + name,
        Part::Old(fid, name) => fid_bytes(fid, order) + name,
        Part::New(fid, name) => fid_bytes(fid, order) + name,
        Part::Other(_, bytes) => bytes,
    }
}

/// A record's type and length, and what stands behind them.
pub open spec fn labelled(kind: u8, len: int, body: Seq<u8>, order: ByteOrder) -> Seq<u8> {
    seq![kind, 0u8] + half_bytes(len, order) + body
}

/// A record with this type and this much behind its length.
pub open spec fn framed(kind: u8, body: Seq<u8>, order: ByteOrder) -> Seq<u8> {
    labelled(kind, 4 + body.len() as int, body, order)
}

/// The record that the kernel writes, with some NULs at its end.
pub open spec fn record_of(part: (Part, nat), order: ByteOrder) -> Seq<u8> {
    framed(part_type(part.0), part_bytes(part.0, order) + nuls(part.1), order)
}

/// The records that the kernel writes, one behind the other.
pub open spec fn records_of(parts: Seq<(Part, nat)>, order: ByteOrder) -> Seq<u8>
    decreases parts.len(),
{
    if parts.len() == 0 {
        Seq::empty()
    } else {
        record_of(parts.first(), order) + records_of(parts.drop_first(), order)
    }
}

/// Whether this can be an identity: a filesystem has eight bytes, and a handle
/// has at least its type.
pub open spec fn is_fid(fid: FidModel) -> bool {
    fid.fsid.len() == 8 && fid.handle.len() >= 4
}

/// Whether this can be the name of an entry: there are bytes, none of them a
/// NUL.
pub open spec fn is_name(name: Seq<u8>) -> bool {
    name.len() > 0 && forall|i: int| 0 <= i < name.len() ==> #[trigger] name[i] != 0
}

/// Whether the kernel can write the record.
pub open spec fn is_writable(part: (Part, nat), order: ByteOrder) -> bool {
    &&& part_bytes(part.0, order).len() + part.1 <= 0xfffb
    &&& match part.0 {
        Part::Directory(fid) => is_fid(fid),
        Part::Itself(fid) => is_fid(fid),
        Part::Unnamed(fid) => is_fid(fid),
        Part::Target(fid) => is_fid(fid),
        Part::Named(fid, name) => is_fid(fid) && is_name(name) && name != seq![46u8],
        Part::Old(fid, name) => is_fid(fid) && is_name(name),
        Part::New(fid, name) => is_fid(fid) && is_name(name),
        Part::Other(kind, _) => kind != 1 && kind != 2 && kind != 3 && kind != 10 && kind != 12,
    }
}

/// Whether the kernel can write all of the records.
pub open spec fn are_writable(parts: Seq<(Part, nat)>, order: ByteOrder) -> bool {
    forall|i: int| 0 <= i < parts.len() ==> is_writable(#[trigger] parts[i], order)
}

/// Whether the record tells what the event has.
pub open spec fn tells_of(part: Part, event: FanEventModel) -> bool {
    match part {
        Part::Directory(fid) => event.dir_fid == Some(fid) && event.name is None,
        Part::Itself(fid) => event.dir_fid == Some(fid) && event.name is None,
        Part::Unnamed(fid) => event.dir_fid == Some(fid) && event.name is None,
        Part::Named(fid, name) => event.dir_fid == Some(fid) && event.name == Some(name),
        Part::Target(fid) => event.target_fid == Some(fid),
        Part::Old(fid, name) => event.rename matches Some(r) && r.old_dir == fid && r.old_name
            == name,
        Part::New(fid, name) => event.rename matches Some(r) && r.new_dir == fid && r.new_name
            == name,
        Part::Other(_, _) => true,
    }
}

/// Whether one of the records is of the directory.
pub open spec fn has_directory(parts: Seq<(Part, nat)>) -> bool {
    exists|i: int|
        0 <= i < parts.len() && ((#[trigger] parts[i]).0 is Directory || parts[i].0 is Itself
            || parts[i].0 is Unnamed || parts[i].0 is Named)
}

/// Whether one of the records is of the target.
pub open spec fn has_target(parts: Seq<(Part, nat)>) -> bool {
    exists|i: int| 0 <= i < parts.len() && (#[trigger] parts[i]).0 is Target
}

/// Whether one of the records is of the end that a rename started from.
pub open spec fn has_old(parts: Seq<(Part, nat)>) -> bool {
    exists|i: int| 0 <= i < parts.len() && (#[trigger] parts[i]).0 is Old
}

/// Whether one of the records is of the end that a rename led to.
pub open spec fn has_new(parts: Seq<(Part, nat)>) -> bool {
    exists|i: int| 0 <= i < parts.len() && (#[trigger] parts[i]).0 is New
}

/// Whether the records tell the event, all of it and nothing else.
pub open spec fn are_records_of(parts: Seq<(Part, nat)>, event: FanEventModel) -> bool {
    &&& forall|i: int| 0 <= i < parts.len() ==> tells_of((#[trigger] parts[i]).0, event)
    &&& event.dir_fid is Some ==> has_directory(parts)
    &&& event.name is Some ==> event.dir_fid is Some
    &&& event.target_fid is Some ==> has_target(parts)
    &&& event.rename is Some ==> has_old(parts) && has_new(parts)
}

/// What stands in an event's fixed part beside its numbers: a byte that is kept
/// free, the reader's copy of the object and the process, and what another
/// kernel may put behind them.
pub struct Rest {
    pub free: u8,
    pub who: Seq<u8>,
    pub more: Seq<u8>,
}

/// Whether this can stand in a fixed part.
pub open spec fn is_rest(rest: Rest) -> bool {
    rest.who.len() == 8 && rest.more.len() <= 0x1000
}

/// An event as the kernel writes it: its length, the layout's version, the
/// length of its fixed part, its mask, what else stands in the fixed part, and
/// its records.
pub open spec fn written(
    mask: FanMask,
    rest: Rest,
    records: Seq<u8>,
    order: ByteOrder,
) -> Seq<u8> {
    word_bytes(24 + (rest.more.len() + records.len()) as int, order) + seq![3u8, rest.free]
        + half_bytes(24 + rest.more.len() as int, order) + quad_bytes(mask.0 as int, order)
        + rest.who + rest.more + records
}

/// What a buffer decodes to that starts with an event which cannot be read: what
/// follows the event, and a loss.
pub open spec fn lost_ahead_of(rest: Option<FanDecoded>) -> Option<FanDecoded> {
    match rest {
        Some(r) => Some(FanDecoded { events: r.events, lossy: true }),
        None => None,
    }
}

proof fn lemma_half_bytes(half: int, order: ByteOrder)
    requires
        0 <= half < 0x1_0000,
    ensures
        half_bytes(half, order).len() == 2,
        half_at(half_bytes(half, order), 0, order) == half,
{
    assert(half == half % 0x100 + 0x100 * (half / 0x100 % 0x100));
}

proof fn lemma_quad_bytes(quad: int, order: ByteOrder)
    requires
        0 <= quad < 0x1_0000_0000_0000_0000,
    ensures
        quad_bytes(quad, order).len() == 8,
        quad_at(quad_bytes(quad, order), 0, order) == quad,
{
    let low = quad % 0x1_0000_0000;
    let high = quad / 0x1_0000_0000;
    lemma_word_bytes(low, order);
    lemma_word_bytes(high, order);
    let bytes = quad_bytes(quad, order);
    match order {
        ByteOrder::Little => {
            assert(word_at(bytes, 0, order) == word_at(word_bytes(low, order), 0, order));
            assert(word_at(bytes, 4, order) == word_at(word_bytes(high, order), 0, order));
        },
        ByteOrder::Big => {
            assert(word_at(bytes, 0, order) == word_at(word_bytes(high, order), 0, order));
            assert(word_at(bytes, 4, order) == word_at(word_bytes(low, order), 0, order));
        },
    }
}

/// The frame of a record reads back, whatever follows it.
proof fn lemma_frame_reads_back(kind: u8, body: Seq<u8>, tail: Seq<u8>, order: ByteOrder)
    requires
        body.len() <= 0xfffb,
    ensures
        ({
            let record = framed(kind, body, order);
            let buf = record + tail;
            &&& record.len() == 4 + body.len()
            &&& record[0] == kind
            &&& record.skip(4) == body
            &&& half_at(buf, 2, order) == record.len()
            &&& buf.take(record.len() as int) == record
            &&& buf.skip(record.len() as int) == tail
        }),
{
    let record = framed(kind, body, order);
    let buf = record + tail;
    let half = half_bytes(4 + body.len() as int, order);
    lemma_half_bytes(4 + body.len() as int, order);
    assert(buf[2] == half[0] && buf[3] == half[1]);
    assert(record.skip(4) =~= body);
    assert(buf.take(record.len() as int) =~= record);
    assert(buf.skip(record.len() as int) =~= tail);
}

/// The identity in a record reads back, and what stands behind it.
proof fn lemma_fid_reads_back(kind: u8, fid: FidModel, text: Seq<u8>, order: ByteOrder)
    requires
        is_fid(fid),
        fid_bytes(fid, order).len() + text.len() <= 0xfffb,
    ensures
        ({
            let record = framed(kind, fid_bytes(fid, order) + text, order);
            &&& record.len() >= 20
            &&& handle_end(record, order) == 16 + fid.handle.len()
            &&& handle_end(record, order) <= record.len()
            &&& fid_in(record, order) == fid
            &&& record.skip(handle_end(record, order)) == text
        }),
{
    let body = fid_bytes(fid, order) + text;
    let record = framed(kind, body, order);
    let size = fid.handle.len() - 4;
    lemma_frame_reads_back(kind, body, Seq::empty(), order);
    lemma_word_bytes(size, order);
    let word = word_bytes(size, order);
    assert(fid_bytes(fid, order).len() == 12 + fid.handle.len());
    assert forall|i: int| 0 <= i < body.len() implies record[4 + i] == #[trigger] body[i] by {
        assert(record.skip(4)[i] == body[i]);
    }
    assert forall|i: int| 0 <= i < 4 implies record[12 + i] == #[trigger] word[i] by {
        assert(body[8 + i] == word[i]);
    }
    assert(record[12] == word[0] && record[13] == word[1] && record[14] == word[2] && record[15]
        == word[3]);
    assert(word_at(record, 12, order) == word_at(word, 0, order));
    assert(record.subrange(4, 12) =~= fid.fsid) by {
        assert forall|i: int| 0 <= i < 8 implies record[4 + i] == #[trigger] fid.fsid[i] by {
            assert(body[i] == fid.fsid[i]);
        }
    }
    assert(record.subrange(16, 16 + fid.handle.len() as int) =~= fid.handle) by {
        assert forall|i: int| 0 <= i < fid.handle.len() implies record[16 + i]
            == #[trigger] fid.handle[i] by {
            assert(body[12 + i] == fid.handle[i]);
        }
    }
    assert(record.skip(16 + fid.handle.len() as int) =~= text) by {
        assert forall|i: int| 0 <= i < text.len() implies record[16 + fid.handle.len() + i]
            == #[trigger] text[i] by {
            assert(body[12 + fid.handle.len() + i] == text[i]);
        }
    }
}

proof fn lemma_text_ends_at_a_nul(name: Seq<u8>, n: nat)
    requires
        forall|i: int| 0 <= i < name.len() ==> #[trigger] name[i] != 0,
    ensures
        text_len(name + nuls(n)) == name.len(),
    decreases name.len(),
{
    let text = name + nuls(n);
    if name.len() > 0 {
        let rest = name.skip(1);
        assert(text[0] == name[0]);
        assert(text.skip(1) =~= rest + nuls(n));
        assert forall|i: int| 0 <= i < rest.len() implies #[trigger] rest[i] != 0 by {
            assert(rest[i] == name[i + 1]);
        }
        lemma_text_ends_at_a_nul(rest, n);
    } else if n > 0 {
        assert(text[0] == 0);
    }
}

/// The name in a record reads back.
proof fn lemma_name_reads_back(
    kind: u8,
    fid: FidModel,
    name: Seq<u8>,
    n: nat,
    order: ByteOrder,
)
    requires
        is_fid(fid),
        is_name(name),
        fid_bytes(fid, order).len() + name.len() + n <= 0xfffb,
    ensures
        record_name(framed(kind, fid_bytes(fid, order) + name + nuls(n), order), order) == name,
{
    let text = name + nuls(n);
    assert(fid_bytes(fid, order) + name + nuls(n) =~= fid_bytes(fid, order) + text);
    lemma_fid_reads_back(kind, fid, text, order);
    lemma_text_ends_at_a_nul(name, n);
    assert(text.take(name.len() as int) =~= name);
}

/// What is known once a record was read.
proof fn lemma_record_is_read(info: InfoModel, part: (Part, nat), order: ByteOrder)
    requires
        is_writable(part, order),
    ensures
        with_record(info, record_of(part, order), order) == Some(
            match part.0 {
                Part::Directory(fid) => InfoModel { dir_fid: Some(fid), ..info },
                Part::Itself(fid) => InfoModel { dir_fid: Some(fid), name: None, ..info },
                Part::Unnamed(fid) => InfoModel { dir_fid: Some(fid), name: None, ..info },
                Part::Named(fid, name) => InfoModel {
                    dir_fid: Some(fid),
                    name: Some(name),
                    ..info
                },
                Part::Target(fid) => InfoModel { target_fid: Some(fid), ..info },
                Part::Old(fid, name) => InfoModel { old: Some((fid, name)), ..info },
                Part::New(fid, name) => InfoModel { new: Some((fid, name)), ..info },
                Part::Other(_, _) => info,
            },
        ),
{
    let kind = part_type(part.0);
    let pad = nuls(part.1);
    let body = part_bytes(part.0, order) + pad;
    lemma_frame_reads_back(kind, body, Seq::empty(), order);
    match part.0 {
        Part::Directory(fid) => {
            lemma_fid_reads_back(kind, fid, pad, order);
        },
        Part::Target(fid) => {
            lemma_fid_reads_back(kind, fid, pad, order);
        },
        Part::Unnamed(fid) => {
            lemma_fid_reads_back(kind, fid, pad, order);
            lemma_text_ends_at_a_nul(Seq::empty(), part.1);
            assert(Seq::<u8>::empty() + pad =~= pad);
        },
        Part::Itself(fid) => {
            let name = seq![46u8];
            assert(fid_bytes(fid, order) + (name + pad) =~= body);
            lemma_fid_reads_back(kind, fid, name + pad, order);
            lemma_name_reads_back(kind, fid, name, part.1, order);
        },
        Part::Named(fid, name) => {
            assert(fid_bytes(fid, order) + (name + pad) =~= body);
            lemma_fid_reads_back(kind, fid, name + pad, order);
            lemma_name_reads_back(kind, fid, name, part.1, order);
        },
        Part::Old(fid, name) => {
            assert(fid_bytes(fid, order) + (name + pad) =~= body);
            lemma_fid_reads_back(kind, fid, name + pad, order);
            lemma_name_reads_back(kind, fid, name, part.1, order);
        },
        Part::New(fid, name) => {
            assert(fid_bytes(fid, order) + (name + pad) =~= body);
            lemma_fid_reads_back(kind, fid, name + pad, order);
            lemma_name_reads_back(kind, fid, name, part.1, order);
        },
        Part::Other(_, _) => {},
    }
}

/// Whether what is known is of the event.
spec fn is_known_of(info: InfoModel, event: FanEventModel) -> bool {
    &&& info.dir_fid is Some ==> info.dir_fid == event.dir_fid
    &&& info.dir_fid is Some ==> info.name == event.name
    &&& info.dir_fid is None ==> info.name is None
    &&& info.target_fid is Some ==> info.target_fid == event.target_fid
    &&& info.old matches Some((fid, name)) ==> event.rename matches Some(r) && r.old_dir == fid
        && r.old_name == name
    &&& info.new matches Some((fid, name)) ==> event.rename matches Some(r) && r.new_dir == fid
        && r.new_name == name
}

/// Records are read one after the other, and then whatever follows them.
proof fn lemma_records_are_read(
    info: InfoModel,
    parts: Seq<(Part, nat)>,
    more: Seq<u8>,
    event: FanEventModel,
    order: ByteOrder,
) -> (r: InfoModel)
    requires
        are_writable(parts, order),
    ensures
        info_in(records_of(parts, order) + more, info, order) == info_in(more, r, order),
        r.dir_fid is Some <==> info.dir_fid is Some || has_directory(parts),
        r.target_fid is Some <==> info.target_fid is Some || has_target(parts),
        r.old is Some <==> info.old is Some || has_old(parts),
        r.new is Some <==> info.new is Some || has_new(parts),
        is_known_of(info, event) && (forall|i: int|
            0 <= i < parts.len() ==> tells_of((#[trigger] parts[i]).0, event)) ==> is_known_of(
            r,
            event,
        ),
    decreases parts.len(),
{
    if parts.len() == 0 {
        assert(records_of(parts, order) + more =~= more);
        info
    } else {
        let first = parts.first();
        let rest = parts.drop_first();
        let record = record_of(first, order);
        let body = part_bytes(first.0, order) + nuls(first.1);
        let tail = records_of(rest, order) + more;
        assert(is_writable(parts[0], order));
        lemma_record_is_read(info, first, order);
        lemma_frame_reads_back(part_type(first.0), body, tail, order);
        assert(records_of(parts, order) + more =~= record + tail);
        let next = with_record(info, record, order)->0;
        assert(info_in(record + tail, info, order) == info_in(tail, next, order));
        assert forall|i: int| 0 <= i < rest.len() implies is_writable(
            #[trigger] rest[i],
            order,
        ) by {
            assert(rest[i] == parts[i + 1]);
        }
        assert forall|i: int| 0 <= i < rest.len() implies #[trigger] rest[i] == parts[i + 1] by {}
        if forall|i: int| 0 <= i < parts.len() ==> tells_of((#[trigger] parts[i]).0, event) {
            assert(tells_of(parts[0].0, event));
            assert forall|i: int| 0 <= i < rest.len() implies tells_of(
                (#[trigger] rest[i]).0,
                event,
            ) by {
                assert(rest[i] == parts[i + 1]);
            }
        }
        lemma_has_any(parts);
        lemma_records_are_read(next, rest, more, event, order)
    }
}

/// A list of records has one of a kind if its first one is, or one behind it.
proof fn lemma_has_any(parts: Seq<(Part, nat)>)
    requires
        parts.len() > 0,
    ensures
        ({
            let first = parts.first().0;
            let rest = parts.drop_first();
            &&& has_directory(parts) <==> first is Directory || first is Itself || first is
                Unnamed || first is Named || has_directory(rest)
            &&& has_target(parts) <==> first is Target || has_target(rest)
            &&& has_old(parts) <==> first is Old || has_old(rest)
            &&& has_new(parts) <==> first is New || has_new(rest)
        }),
{
    let rest = parts.drop_first();
    assert(parts[0] == parts.first());
    assert forall|i: int| 0 <= i < rest.len() implies #[trigger] rest[i] == parts[i + 1] by {}
    assert forall|i: int| 0 < i < parts.len() implies #[trigger] parts[i] == rest[i - 1] by {}
}

/// The fixed part of an event reads back, whatever follows the event.
#[verifier::spinoff_prover]
proof fn lemma_fixed_part_reads_back(
    mask: FanMask,
    rest: Rest,
    records: Seq<u8>,
    tail: Seq<u8>,
    order: ByteOrder,
)
    requires
        is_rest(rest),
        24 + rest.more.len() + records.len() <= u32::MAX,
    ensures
        ({
            let event = written(mask, rest, records, order);
            let fixed = 24 + rest.more.len();
            let buf = event + tail;
            &&& event.len() == fixed + records.len()
            &&& word_at(buf, 0, order) == event.len()
            &&& buf[4] == 3
            &&& half_at(buf, 6, order) == fixed
            &&& quad_at(buf, 8, order) == mask.0
            &&& buf.subrange(fixed as int, event.len() as int) == records
            &&& buf.skip(event.len() as int) == tail
        }),
{
    let event = written(mask, rest, records, order);
    let fixed = 24 + rest.more.len();
    let total = fixed + records.len();
    let buf = event + tail;
    let w = word_bytes(total as int, order);
    let h = half_bytes(fixed as int, order);
    let q = quad_bytes(mask.0 as int, order);
    lemma_word_bytes(total as int, order);
    lemma_half_bytes(fixed as int, order);
    lemma_quad_bytes(mask.0 as int, order);
    assert(w.len() == 4 && h.len() == 2 && q.len() == 8);
    assert(buf[0] == w[0] && buf[1] == w[1] && buf[2] == w[2] && buf[3] == w[3]);
    assert(buf[6] == h[0] && buf[7] == h[1]);
    assert(buf[8] == q[0] && buf[9] == q[1] && buf[10] == q[2] && buf[11] == q[3]);
    assert(buf[12] == q[4] && buf[13] == q[5] && buf[14] == q[6] && buf[15] == q[7]);
    assert(quad_at(buf, 8, order) == quad_at(q, 0, order));
    assert(buf.subrange(fixed as int, total as int) =~= records);
    assert(buf.skip(total as int) =~= tail);
}

/// A buffer that starts with an event decodes to what the event is read as, ahead
/// of what follows it.
proof fn lemma_event_is_read(
    mask: FanMask,
    rest: Rest,
    records: Seq<u8>,
    tail: Seq<u8>,
    order: ByteOrder,
)
    requires
        is_rest(rest),
        24 + rest.more.len() + records.len() <= u32::MAX,
    ensures
        ({
            let buf = written(mask, rest, records, order) + tail;
            &&& event_mask(buf, order) == mask
            &&& first_event(buf, order) is None ==> fan_decoded(buf, order) == lost_ahead_of(
                fan_decoded(tail, order),
            )
            &&& first_event(buf, order) matches Some(event) ==> fan_decoded(buf, order)
                == match fan_decoded(tail, order) {
                Some(r) => Some(
                    FanDecoded { events: seq![event] + r.events, lossy: r.lossy },
                ),
                None => None,
            }
            &&& buf.subrange(half_at(buf, 6, order), word_at(buf, 0, order)) == records
        }),
{
    lemma_fixed_part_reads_back(mask, rest, records, tail, order);
    let buf = written(mask, rest, records, order) + tail;
    assert(has_event(buf, order));
}

/// What the kernel writes for an event decodes to that event: a rename or not,
/// with every field kept, whatever the order of its records and the NULs behind
/// them, whatever records of other types stand between them, and whatever else
/// its fixed part holds. What follows it decodes as it would alone.
pub proof fn law_an_event_decodes_to_itself(
    event: FanEventModel,
    rest: Rest,
    parts: Seq<(Part, nat)>,
    tail: Seq<u8>,
    order: ByteOrder,
)
    requires
        is_rest(rest),
        are_writable(parts, order),
        are_records_of(parts, event),
        24 + rest.more.len() + records_of(parts, order).len() <= u32::MAX,
        event.mask.0 & 0x4000 == 0,
        event.mask.0 & 0x1000_0000 != 0 ==> event.rename is Some,
    ensures
        fan_decoded(written(event.mask, rest, records_of(parts, order), order) + tail, order)
            == match fan_decoded(tail, order) {
            Some(r) => Some(FanDecoded { events: seq![event] + r.events, lossy: r.lossy }),
            None => None,
        },
{
    let records = records_of(parts, order);
    let buf = written(event.mask, rest, records, order) + tail;
    lemma_event_is_read(event.mask, rest, records, tail, order);
    let r = lemma_records_are_read(InfoModel::empty(), parts, Seq::empty(), event, order);
    assert(records + Seq::<u8>::empty() =~= records);
    assert(info_in(records, InfoModel::empty(), order) == Some(r));
    if event.rename is None {
        assert(!has_old(parts)) by {
            if has_old(parts) {
                let i = choose|i: int| 0 <= i < parts.len() && (#[trigger] parts[i]).0 is Old;
                assert(tells_of(parts[i].0, event));
            }
        }
        assert(!has_new(parts)) by {
            if has_new(parts) {
                let i = choose|i: int| 0 <= i < parts.len() && (#[trigger] parts[i]).0 is New;
                assert(tells_of(parts[i].0, event));
            }
        }
    }
    assert(first_event(buf, order) == Some(event));
}

/// An overflow of the kernel's queue is a loss, whatever comes with it. What
/// follows it is decoded.
pub proof fn law_an_overflow_is_a_loss(
    mask: FanMask,
    rest: Rest,
    records: Seq<u8>,
    tail: Seq<u8>,
    order: ByteOrder,
)
    requires
        is_rest(rest),
        24 + rest.more.len() + records.len() <= u32::MAX,
        mask.0 & 0x4000 != 0,
    ensures
        fan_decoded(written(mask, rest, records, order) + tail, order) == lost_ahead_of(
            fan_decoded(tail, order),
        ),
{
    lemma_event_is_read(mask, rest, records, tail, order);
}

/// A rename that lacks an end is a loss and no event: where its records tell one
/// end only, and where its mask says that it is one and they tell neither.
pub proof fn law_half_a_rename_is_a_loss(
    mask: FanMask,
    rest: Rest,
    parts: Seq<(Part, nat)>,
    tail: Seq<u8>,
    order: ByteOrder,
)
    requires
        is_rest(rest),
        are_writable(parts, order),
        24 + rest.more.len() + records_of(parts, order).len() <= u32::MAX,
        has_old(parts) != has_new(parts) || (mask.0 & 0x1000_0000 != 0 && !has_old(parts)),
    ensures
        fan_decoded(written(mask, rest, records_of(parts, order), order) + tail, order)
            == lost_ahead_of(fan_decoded(tail, order)),
{
    let records = records_of(parts, order);
    let nothing = FanEventModel {
        mask,
        dir_fid: None,
        target_fid: None,
        name: None,
        rename: None,
    };
    lemma_event_is_read(mask, rest, records, tail, order);
    let r = lemma_records_are_read(InfoModel::empty(), parts, Seq::empty(), nothing, order);
    assert(records + Seq::<u8>::empty() =~= records);
    assert(info_in(records, InfoModel::empty(), order) == Some(r));
}

/// What cannot be read as a record.
pub enum Flaw {
    /// There is not even a type and a length.
    Cut(Seq<u8>),
    /// The length is not that of a record.
    Length(u8, int, Seq<u8>),
    /// There is no room for the identity that the record is to hold.
    NoIdentity(u8, Seq<u8>),
    /// The handle is shorter than it is said to be.
    CutHandle(u8, Seq<u8>, int, Seq<u8>),
    /// The end of a rename has no name, only that many NULs.
    NoName(u8, FidModel, nat),
}

/// The bytes of what cannot be read.
pub open spec fn flaw_bytes(flaw: Flaw, order: ByteOrder) -> Seq<u8> {
    match flaw {
        Flaw::Cut(bytes) => bytes,
        Flaw::Length(kind, len, body) => labelled(kind, len, body, order),
        Flaw::NoIdentity(kind, body) => framed(kind, body, order),
        Flaw::CutHandle(kind, fsid, size, handle) => framed(
            kind,
            fsid + word_bytes(size, order) + handle,
            order,
        ),
        Flaw::NoName(kind, fid, n) => framed(kind, fid_bytes(fid, order) + nuls(n), order),
    }
}

/// Whether this cannot be read, as the last of an event's records.
pub open spec fn is_flaw(flaw: Flaw) -> bool {
    let holds_identity = |kind: u8|
        kind == 1 || kind == 2 || kind == 3 || kind == 10 || kind == 12;
    match flaw {
        Flaw::Cut(bytes) => 0 < bytes.len() < 4,
        Flaw::Length(_, len, body) => 0 <= len < 0x1_0000 && (len < 4 || len > 4 + body.len()),
        Flaw::NoIdentity(kind, body) => holds_identity(kind) && body.len() < 16,
        Flaw::CutHandle(kind, fsid, size, handle) => {
            &&& holds_identity(kind)
            &&& fsid.len() == 8
            &&& 4 <= handle.len() < 4 + size
            &&& size <= u32::MAX
            &&& handle.len() <= 0xff00
        },
        Flaw::NoName(kind, fid, n) => {
            &&& kind == 10 || kind == 12
            &&& is_fid(fid)
            &&& fid.handle.len() + n <= 0xff00
        },
    }
}

/// Whether other records may follow what cannot be read.
pub open spec fn is_framed(flaw: Flaw) -> bool {
    !(flaw is Cut) && !(flaw is Length)
}

proof fn lemma_a_flaw_is_not_read(
    info: InfoModel,
    flaw: Flaw,
    behind: Seq<u8>,
    order: ByteOrder,
)
    requires
        is_flaw(flaw),
        is_framed(flaw) || behind.len() == 0,
    ensures
        info_in(flaw_bytes(flaw, order) + behind, info, order) is None,
{
    let more = flaw_bytes(flaw, order) + behind;
    match flaw {
        Flaw::Cut(_) => {},
        Flaw::Length(_, len, _) => {
            let half = half_bytes(len, order);
            lemma_half_bytes(len, order);
            assert(more[2] == half[0] && more[3] == half[1]);
            assert(half_at(more, 2, order) == len);
        },
        Flaw::NoIdentity(kind, body) => {
            lemma_frame_reads_back(kind, body, behind, order);
        },
        Flaw::CutHandle(kind, fsid, size, handle) => {
            let word = word_bytes(size, order);
            let body = fsid + word + handle;
            lemma_word_bytes(size, order);
            lemma_frame_reads_back(kind, body, behind, order);
            let record = framed(kind, body, order);
            assert forall|i: int| 0 <= i < body.len() implies record[4 + i]
                == #[trigger] body[i] by {
                assert(record.skip(4)[i] == body[i]);
            }
            assert(body[8] == word[0] && body[9] == word[1] && body[10] == word[2] && body[11]
                == word[3]);
            assert(word_at(record, 12, order) == word_at(word, 0, order));
        },
        Flaw::NoName(kind, fid, n) => {
            lemma_word_bytes(fid.handle.len() - 4, order);
            lemma_frame_reads_back(kind, fid_bytes(fid, order) + nuls(n), behind, order);
            lemma_fid_reads_back(kind, fid, nuls(n), order);
            lemma_text_ends_at_a_nul(Seq::empty(), n);
            assert(Seq::<u8>::empty() + nuls(n) =~= nuls(n));
        },
    }
}

/// An event with a record that cannot be read is a loss and no event, whatever
/// could be read ahead of that record and whatever stands behind it. What follows
/// the event is decoded.
pub proof fn law_a_broken_event_is_a_loss(
    mask: FanMask,
    rest: Rest,
    parts: Seq<(Part, nat)>,
    flaw: Flaw,
    behind: Seq<u8>,
    tail: Seq<u8>,
    order: ByteOrder,
)
    requires
        is_rest(rest),
        are_writable(parts, order),
        is_flaw(flaw),
        is_framed(flaw) || behind.len() == 0,
        24 + rest.more.len() + records_of(parts, order).len() + flaw_bytes(flaw, order).len()
            + behind.len() <= u32::MAX,
    ensures
        fan_decoded(
            written(
                mask,
                rest,
                records_of(parts, order) + (flaw_bytes(flaw, order) + behind),
                order,
            ) + tail,
            order,
        ) == lost_ahead_of(fan_decoded(tail, order)),
{
    let nothing = FanEventModel {
        mask,
        dir_fid: None,
        target_fid: None,
        name: None,
        rename: None,
    };
    let more = flaw_bytes(flaw, order) + behind;
    lemma_event_is_read(mask, rest, records_of(parts, order) + more, tail, order);
    let r = lemma_records_are_read(InfoModel::empty(), parts, more, nothing, order);
    lemma_a_flaw_is_not_read(r, flaw, behind, order);
}

/// An event that was cut short is a loss, and nothing is read of it.
pub proof fn law_a_cut_event_is_a_loss(
    mask: FanMask,
    rest: Rest,
    records: Seq<u8>,
    kept: int,
    order: ByteOrder,
)
    requires
        is_rest(rest),
        24 + rest.more.len() + records.len() <= u32::MAX,
        0 < kept < 24 + rest.more.len() + records.len(),
    ensures
        fan_decoded(written(mask, rest, records, order).take(kept), order) == Some(
            FanDecoded { events: Seq::empty(), lossy: true },
        ),
{
    lemma_fixed_part_reads_back(mask, rest, records, Seq::empty(), order);
    let event = written(mask, rest, records, order);
    assert(event + Seq::<u8>::empty() =~= event);
    let cut = event.take(kept);
    if kept >= 24 {
        assert(word_at(cut, 0, order) == word_at(event, 0, order));
        assert(cut[4] == 3);
    }
}

/// An empty buffer holds no event and no loss.
pub proof fn law_an_empty_buffer_tells_nothing(order: ByteOrder)
    ensures
        fan_decoded(Seq::empty(), order) == Some(
            FanDecoded { events: Seq::empty(), lossy: false },
        ),
{
}

/// A buffer in another version of the layout is refused as a whole, wherever in
/// it the version shows.
pub proof fn law_another_layout_is_refused(
    ahead: Seq<(FanMask, Rest, Seq<u8>)>,
    buf: Seq<u8>,
    order: ByteOrder,
)
    requires
        forall|i: int|
            0 <= i < ahead.len() ==> is_rest((#[trigger] ahead[i]).1) && 24
                + ahead[i].1.more.len() + ahead[i].2.len() <= u32::MAX,
        buf.len() >= 24,
        buf[4] != 3,
    ensures
        fan_decoded(all_written(ahead, order) + buf, order) is None,
    decreases ahead.len(),
{
    if ahead.len() == 0 {
        assert(all_written(ahead, order) + buf =~= buf);
    } else {
        let (mask, rest, records) = ahead.first();
        let later = ahead.drop_first();
        assert(ahead[0] == ahead.first());
        assert forall|i: int| 0 <= i < later.len() implies is_rest((#[trigger] later[i]).1) && 24
            + later[i].1.more.len() + later[i].2.len() <= u32::MAX by {
            assert(later[i] == ahead[i + 1]);
        }
        law_another_layout_is_refused(later, buf, order);
        let tail = all_written(later, order) + buf;
        assert(all_written(ahead, order) + buf =~= written(mask, rest, records, order) + tail);
        lemma_event_is_read(mask, rest, records, tail, order);
    }
}

/// Events as the kernel writes them, one behind the other.
pub open spec fn all_written(events: Seq<(FanMask, Rest, Seq<u8>)>, order: ByteOrder) -> Seq<u8>
    decreases events.len(),
{
    if events.len() == 0 {
        Seq::empty()
    } else {
        let (mask, rest, records) = events.first();
        written(mask, rest, records, order) + all_written(events.drop_first(), order)
    }
}

} // verus!
