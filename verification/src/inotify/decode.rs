//! Decoding of the kernel's packed `inotify_event` records.
//!
//! A buffer is read as a sequence of records, each a sixteen-byte header
//! (`wd`, `mask`, `cookie`, `len`) and `len` name bytes, padded with NULs. A
//! record that does not fit what is left of the buffer ends the walk and marks
//! the outcome lossy; the records ahead of it stand.

use vstd::endian::{Endian, endianness};
use vstd::prelude::*;

verus! {

/// A child object was created in the watched directory.
pub const IN_CREATE: u32 = 0x0000_0100;

/// A child object was removed from the watched directory.
pub const IN_DELETE: u32 = 0x0000_0200;

/// The watched object itself was deleted.
pub const IN_DELETE_SELF: u32 = 0x0000_0400;

/// A watched object's content changed.
pub const IN_MODIFY: u32 = 0x0000_0002;

/// A watched object's metadata changed.
pub const IN_ATTRIB: u32 = 0x0000_0004;

/// The watched object itself was moved.
pub const IN_MOVE_SELF: u32 = 0x0000_0800;

/// The source half of a rename, paired by cookie with `IN_MOVED_TO`.
pub const IN_MOVED_FROM: u32 = 0x0000_0040;

/// The destination half of a rename, paired by cookie with `IN_MOVED_FROM`.
pub const IN_MOVED_TO: u32 = 0x0000_0080;

/// The filesystem holding the watched object was unmounted.
pub const IN_UNMOUNT: u32 = 0x0000_2000;

/// The kernel queue overflowed and events were lost (`wd` is -1).
pub const IN_Q_OVERFLOW: u32 = 0x0000_4000;

/// The watch was removed: the final event of its `wd`.
pub const IN_IGNORED: u32 = 0x0000_8000;

/// The subject of the event is a directory.
pub const IN_ISDIR: u32 = 0x4000_0000;

/// Arm only if the target is a directory.
pub const IN_ONLYDIR: u32 = 0x0100_0000;

/// Never resolve a symlink at arm time.
pub const IN_DONT_FOLLOW: u32 = 0x0200_0000;

/// Suppress events for children after they are unlinked.
pub const IN_EXCL_UNLINK: u32 = 0x0400_0000;

/// Fail with `EEXIST` instead of updating the mask when the inode is already
/// watched.
pub const IN_MASK_CREATE: u32 = 0x1000_0000;

/// The mask every directory watch arms with: the record vocabulary plus the
/// arm-time guards (`IN_ONLYDIR`, `IN_DONT_FOLLOW`, `IN_EXCL_UNLINK`,
/// `IN_MASK_CREATE`).
pub const WATCH_MASK: u32 = IN_ATTRIB | IN_CREATE | IN_DELETE | IN_DELETE_SELF | IN_MODIFY
    | IN_MOVE_SELF | IN_MOVED_FROM | IN_MOVED_TO | IN_ONLYDIR | IN_DONT_FOLLOW | IN_EXCL_UNLINK
    | IN_MASK_CREATE;

/// Size of a record's fixed part.
pub const HEADER: usize = 16;

/// The mask word of a record.
#[derive(Clone, Copy, Debug, PartialEq, Eq, Structural)]
pub struct InotifyMask(pub u32);

impl InotifyMask {
    /// Whether any bit of `bits` is set.
    pub open spec fn has(self, bits: u32) -> bool {
        self.0 & bits != 0
    }

    /// The kernel queue overflowed.
    pub fn is_overflow(self) -> (r: bool)
        ensures
            r == self.has(IN_Q_OVERFLOW),
    {
        self.0 & IN_Q_OVERFLOW != 0
    }

    /// The watch was torn down; nothing follows for its `wd`.
    pub fn is_ignored(self) -> (r: bool)
        ensures
            r == self.has(IN_IGNORED),
    {
        self.0 & IN_IGNORED != 0
    }

    /// The event's subject is a directory.
    pub fn is_dir(self) -> (r: bool)
        ensures
            r == self.has(IN_ISDIR),
    {
        self.0 & IN_ISDIR != 0
    }

    /// The source half of a rename.
    pub fn moved_from(self) -> (r: bool)
        ensures
            r == self.has(IN_MOVED_FROM),
    {
        self.0 & IN_MOVED_FROM != 0
    }

    /// The destination half of a rename.
    pub fn moved_to(self) -> (r: bool)
        ensures
            r == self.has(IN_MOVED_TO),
    {
        self.0 & IN_MOVED_TO != 0
    }

    /// The watched object itself moved.
    pub fn move_self(self) -> (r: bool)
        ensures
            r == self.has(IN_MOVE_SELF),
    {
        self.0 & IN_MOVE_SELF != 0
    }

    /// The watched object itself was deleted.
    pub fn delete_self(self) -> (r: bool)
        ensures
            r == self.has(IN_DELETE_SELF),
    {
        self.0 & IN_DELETE_SELF != 0
    }

    /// The backing filesystem was unmounted.
    pub fn unmount(self) -> (r: bool)
        ensures
            r == self.has(IN_UNMOUNT),
    {
        self.0 & IN_UNMOUNT != 0
    }

    /// A child was created.
    pub fn created(self) -> (r: bool)
        ensures
            r == self.has(IN_CREATE),
    {
        self.0 & IN_CREATE != 0
    }

    /// A child was removed.
    pub fn removed(self) -> (r: bool)
        ensures
            r == self.has(IN_DELETE),
    {
        self.0 & IN_DELETE != 0
    }

    /// Content changed.
    pub fn modified(self) -> (r: bool)
        ensures
            r == self.has(IN_MODIFY),
    {
        self.0 & IN_MODIFY != 0
    }

    /// Metadata changed.
    pub fn attrib(self) -> (r: bool)
        ensures
            r == self.has(IN_ATTRIB),
    {
        self.0 & IN_ATTRIB != 0
    }
}

/// One decoded record. The name is raw bytes without its NUL padding; `None`
/// for an event on the watched object itself and for the overflow sentinel.
#[derive(Clone, Debug, PartialEq, Eq)]
pub struct RawInotifyEvent {
    pub wd: i32,
    pub mask: InotifyMask,
    pub cookie: u32,
    pub name: Option<Vec<u8>>,
}

/// What a `RawInotifyEvent` stands for.
pub struct EventModel {
    pub wd: i32,
    pub mask: InotifyMask,
    pub cookie: u32,
    pub name: Option<Seq<u8>>,
}

impl View for RawInotifyEvent {
    type V = EventModel;

    open spec fn view(&self) -> EventModel {
        EventModel {
            wd: self.wd,
            mask: self.mask,
            cookie: self.cookie,
            name: match self.name {
                Some(n) => Some(n@),
                None => None,
            },
        }
    }
}

/// The outcome of decoding one buffer: the intact records, and whether an
/// invalid tail stopped the walk early.
#[derive(Debug, PartialEq, Eq)]
pub struct DecodeOutcome {
    pub events: Vec<RawInotifyEvent>,
    pub lossy: bool,
}

/// What a `DecodeOutcome` stands for.
pub struct Decoded {
    pub events: Seq<EventModel>,
    pub lossy: bool,
}

impl View for DecodeOutcome {
    type V = Decoded;

    open spec fn view(&self) -> Decoded {
        Decoded { events: self.events@.map_values(|e: RawInotifyEvent| e@), lossy: self.lossy }
    }
}

/// The order of a word's bytes in memory.
#[derive(Clone, Copy, Debug, PartialEq, Eq, Structural)]
pub enum ByteOrder {
    Little,
    Big,
}

/// The four bytes at `at` as one unsigned word.
pub open spec fn word_at(buf: Seq<u8>, at: int, order: ByteOrder) -> int {
    match order {
        ByteOrder::Little => buf[at] + 0x100 * buf[at + 1] + 0x1_0000 * buf[at + 2] + 0x100_0000
            * buf[at + 3],
        ByteOrder::Big => buf[at + 3] + 0x100 * buf[at + 2] + 0x1_0000 * buf[at + 1] + 0x100_0000
            * buf[at],
    }
}

/// An unsigned word read as a two's complement number.
pub open spec fn as_signed(word: int) -> int {
    if word < 0x8000_0000 {
        word
    } else {
        word - 0x1_0000_0000
    }
}

/// The bytes ahead of the trailing run of NULs.
pub open spec fn without_padding(bytes: Seq<u8>) -> Seq<u8>
    decreases bytes.len(),
{
    if bytes.len() == 0 || bytes.last() != 0 {
        bytes
    } else {
        without_padding(bytes.drop_last())
    }
}

/// The name a record's name field holds.
pub open spec fn name_in(field: Seq<u8>) -> Option<Seq<u8>> {
    if without_padding(field).len() == 0 {
        None
    } else {
        Some(without_padding(field))
    }
}

/// The length of the record that `buf` starts with, by its own header.
pub open spec fn record_len(buf: Seq<u8>, order: ByteOrder) -> int {
    HEADER + word_at(buf, 12, order)
}

/// Whether `buf` starts with a whole record.
pub open spec fn has_record(buf: Seq<u8>, order: ByteOrder) -> bool {
    buf.len() >= HEADER && record_len(buf, order) <= buf.len()
}

/// The record that `buf` starts with.
pub open spec fn first_record(buf: Seq<u8>, order: ByteOrder) -> EventModel {
    EventModel {
        wd: as_signed(word_at(buf, 0, order)) as i32,
        mask: InotifyMask(word_at(buf, 4, order) as u32),
        cookie: word_at(buf, 8, order) as u32,
        name: name_in(buf.subrange(HEADER as int, record_len(buf, order))),
    }
}

/// The records of a buffer, read from its start until nothing is left or what
/// is left does not start with a whole record.
pub open spec fn decoded(buf: Seq<u8>, order: ByteOrder) -> Decoded
    decreases buf.len(),
{
    if buf.len() == 0 {
        Decoded { events: Seq::empty(), lossy: false }
    } else if !has_record(buf, order) {
        Decoded { events: Seq::empty(), lossy: true }
    } else {
        let rest = decoded(buf.skip(record_len(buf, order)), order);
        Decoded { events: seq![first_record(buf, order)] + rest.events, lossy: rest.lossy }
    }
}

/// Reads the four bytes at `at` as one unsigned word.
pub fn read_word(buf: &[u8], at: usize, order: ByteOrder) -> (r: u32)
    requires
        at + 4 <= buf@.len(),
    ensures
        r == word_at(buf@, at as int, order),
{
    let b0: u32 = buf[at] as u32;
    let b1: u32 = buf[at + 1] as u32;
    let b2: u32 = buf[at + 2] as u32;
    let b3: u32 = buf[at + 3] as u32;
    match order {
        ByteOrder::Little => b0 + 0x100 * b1 + 0x1_0000 * b2 + 0x100_0000 * b3,
        ByteOrder::Big => b3 + 0x100 * b2 + 0x1_0000 * b1 + 0x100_0000 * b0,
    }
}

/// Reads an unsigned word as a two's complement number.
fn signed(word: u32) -> (r: i32)
    ensures
        r == as_signed(word as int),
{
    if word <= 0x7fff_ffff {
        word as i32
    } else {
        -1 - ((0xffff_ffff - word) as i32)
    }
}

/// Copies out the name held by the field `buf[start..end]`.
fn read_name(buf: &[u8], start: usize, end: usize) -> (r: Option<Vec<u8>>)
    requires
        start <= end <= buf@.len(),
    ensures
        match r {
            Some(n) => name_in(buf@.subrange(start as int, end as int)) == Some(n@),
            None => name_in(buf@.subrange(start as int, end as int)) is None,
        },
{
    let mut stop: usize = end;
    while stop > start && buf[stop - 1] == 0
        invariant
            start <= stop <= end <= buf@.len(),
            without_padding(buf@.subrange(start as int, end as int)) == without_padding(
                buf@.subrange(start as int, stop as int),
            ),
        decreases stop,
    {
        proof {
            let s = buf@.subrange(start as int, stop as int);
            assert(s.drop_last() =~= buf@.subrange(start as int, stop - 1));
        }
        stop = stop - 1;
    }
    let ghost field = buf@.subrange(start as int, stop as int);
    if stop == start {
        return None;
    }
    let mut name: Vec<u8> = Vec::new();
    let mut i: usize = start;
    while i < stop
        invariant
            start <= i <= stop <= buf@.len(),
            name@ =~= buf@.subrange(start as int, i as int),
        decreases stop - i,
    {
        name.push(buf[i]);
        i = i + 1;
    }
    Some(name)
}

/// What stands at `at` in a buffer is what its tail from there starts with.
proof fn lemma_tail_words(buf: Seq<u8>, at: int, order: ByteOrder)
    requires
        0 <= at,
        at + HEADER <= buf.len(),
    ensures
        word_at(buf.skip(at), 0, order) == word_at(buf, at, order),
        word_at(buf.skip(at), 4, order) == word_at(buf, at + 4, order),
        word_at(buf.skip(at), 8, order) == word_at(buf, at + 8, order),
        word_at(buf.skip(at), 12, order) == word_at(buf, at + 12, order),
{
}

/// Moving one record along a buffer moves one event from what is left to
/// decode to what is decoded.
proof fn lemma_record_step(
    done: Seq<EventModel>,
    buf: Seq<u8>,
    at: int,
    end: int,
    event: EventModel,
    order: ByteOrder,
)
    requires
        0 <= at < buf.len(),
        has_record(buf.skip(at), order),
        end == at + record_len(buf.skip(at), order),
        event == first_record(buf.skip(at), order),
    ensures
        done + decoded(buf.skip(at), order).events == done.push(event) + decoded(
            buf.skip(end),
            order,
        ).events,
        decoded(buf.skip(at), order).lossy == decoded(buf.skip(end), order).lossy,
{
    let rest = buf.skip(at);
    assert(rest.skip(record_len(rest, order)) =~= buf.skip(end));
    assert(done + (seq![event] + decoded(buf.skip(end), order).events) =~= done.push(event)
        + decoded(buf.skip(end), order).events);
}

/// Decodes a buffer of packed records whose words lie in the given byte order.
pub fn decode_events_as(buf: &[u8], order: ByteOrder) -> (r: DecodeOutcome)
    ensures
        r@ == decoded(buf@, order),
{
    let mut events: Vec<RawInotifyEvent> = Vec::new();
    let mut at: usize = 0;
    let ghost mut done: Seq<EventModel> = Seq::empty();
    proof {
        assert(buf@.skip(0) =~= buf@);
        assert(done =~= events@.map_values(|e: RawInotifyEvent| e@));
        assert(done + decoded(buf@, order).events =~= decoded(buf@, order).events);
    }
    while at < buf.len()
        invariant
            at <= buf@.len(),
            done == events@.map_values(|e: RawInotifyEvent| e@),
            decoded(buf@, order).events == done + decoded(buf@.skip(at as int), order).events,
            decoded(buf@, order).lossy == decoded(buf@.skip(at as int), order).lossy,
        decreases buf@.len() - at,
    {
        let ghost rest = buf@.skip(at as int);
        if buf.len() - at < HEADER {
            assert(done + Seq::<EventModel>::empty() =~= done);
            return DecodeOutcome { events, lossy: true };
        }
        proof {
            lemma_tail_words(buf@, at as int, order);
        }
        let wd: i32 = signed(read_word(buf, at, order));
        let mask: u32 = read_word(buf, at + 4, order);
        let cookie: u32 = read_word(buf, at + 8, order);
        let len: usize = read_word(buf, at + 12, order) as usize;
        let start: usize = at + HEADER;
        let end: usize = match start.checked_add(len) {
            Some(end) => end,
            None => {
                assert(done + Seq::<EventModel>::empty() =~= done);
                return DecodeOutcome { events, lossy: true };
            },
        };
        if end > buf.len() {
            assert(done + Seq::<EventModel>::empty() =~= done);
            return DecodeOutcome { events, lossy: true };
        }
        let name = read_name(buf, start, end);
        let event = RawInotifyEvent { wd, mask: InotifyMask(mask), cookie, name };
        proof {
            assert(rest.subrange(HEADER as int, record_len(rest, order)) =~= buf@.subrange(
                start as int,
                end as int,
            ));
            lemma_record_step(done, buf@, at as int, end as int, event@, order);
            done = done.push(event@);
        }
        events.push(event);
        assert(done =~= events@.map_values(|e: RawInotifyEvent| e@));
        at = end;
    }
    assert(done + Seq::<EventModel>::empty() =~= done);
    DecodeOutcome { events, lossy: false }
}

/// The byte order of the machine this runs on: that of `vstd::endian::endianness`,
/// which stands for the hardware and is one or the other without saying which.
pub open spec fn machine_order() -> ByteOrder {
    match endianness() {
        Endian::Little => ByteOrder::Little,
        Endian::Big => ByteOrder::Big,
    }
}

/// The native reading of the bytes 1, 0.
///
/// Calls `u16::from_ne_bytes`, which reads the bytes in the order of the
/// machine it runs on: 1 where the low byte comes first, 256 where the high
/// byte does. The contract claims that this order is `machine_order`; which of
/// the two it is stays open, so code above it holds on both.
#[verifier::external_body]
fn one_in_native_order() -> (r: u16)
    ensures
        r == match machine_order() {
            ByteOrder::Little => 1u16,
            ByteOrder::Big => 256u16,
        },
{
    u16::from_ne_bytes([1, 0])
}

/// The byte order of the machine this runs on.
pub fn native_order() -> (r: ByteOrder)
    ensures
        r == machine_order(),
{
    if one_in_native_order() == 1 {
        ByteOrder::Little
    } else {
        ByteOrder::Big
    }
}

/// Decodes a buffer of packed records in the machine's own byte order, as the
/// kernel of the same machine wrote them.
pub fn decode_events(buf: &[u8]) -> (r: DecodeOutcome)
    ensures
        r@ == decoded(buf@, machine_order()),
{
    decode_events_as(buf, native_order())
}

/// One word as four bytes.
pub open spec fn word_bytes(word: int, order: ByteOrder) -> Seq<u8> {
    let b0 = (word % 0x100) as u8;
    let b1 = (word / 0x100 % 0x100) as u8;
    let b2 = (word / 0x1_0000 % 0x100) as u8;
    let b3 = (word / 0x100_0000 % 0x100) as u8;
    match order {
        ByteOrder::Little => seq![b0, b1, b2, b3],
        ByteOrder::Big => seq![b3, b2, b1, b0],
    }
}

/// A two's complement number as an unsigned word.
pub open spec fn as_unsigned(x: int) -> int {
    if x < 0 {
        x + 0x1_0000_0000
    } else {
        x
    }
}

/// An event's name field with `padding` NULs behind the name.
pub open spec fn name_field(event: EventModel, padding: nat) -> Seq<u8> {
    let zeros = Seq::new(padding, |i: int| 0u8);
    match event.name {
        Some(n) => n + zeros,
        None => zeros,
    }
}

/// The record the kernel writes for an event, with `padding` NULs behind its
/// name.
pub open spec fn record_bytes(event: EventModel, padding: nat, order: ByteOrder) -> Seq<u8> {
    word_bytes(as_unsigned(event.wd as int), order) + word_bytes(event.mask.0 as int, order)
        + word_bytes(event.cookie as int, order) + word_bytes(
        name_field(event, padding).len() as int,
        order,
    ) + name_field(event, padding)
}

/// Whether the kernel can report the event under its name: a name is not empty
/// and does not end in a NUL.
pub open spec fn well_named(event: EventModel) -> bool {
    match event.name {
        Some(n) => n.len() > 0 && n.last() != 0,
        None => true,
    }
}

pub(crate) proof fn lemma_word_bytes(word: int, order: ByteOrder)
    requires
        0 <= word < 0x1_0000_0000,
    ensures
        word_bytes(word, order).len() == 4,
        word_at(word_bytes(word, order), 0, order) == word,
{
    let b0 = word % 0x100;
    let b1 = word / 0x100 % 0x100;
    let b2 = word / 0x1_0000 % 0x100;
    let b3 = word / 0x100_0000 % 0x100;
    assert(word == b0 + 0x100 * b1 + 0x1_0000 * b2 + 0x100_0000 * b3);
}

proof fn lemma_padding_is_trimmed(name: Seq<u8>, padding: nat)
    requires
        name.len() > 0 ==> name.last() != 0,
    ensures
        without_padding(name + Seq::new(padding, |i: int| 0u8)) == name,
    decreases padding,
{
    let field = name + Seq::new(padding, |i: int| 0u8);
    if padding == 0 {
        assert(field =~= name);
    } else {
        let less = (padding - 1) as nat;
        assert(field.drop_last() =~= name + Seq::new(less, |i: int| 0u8));
        lemma_padding_is_trimmed(name, less);
    }
}

/// The header of a record reads back, whatever follows it.
#[verifier::spinoff_prover]
proof fn lemma_header_reads_back(
    event: EventModel,
    padding: nat,
    tail: Seq<u8>,
    order: ByteOrder,
)
    requires
        name_field(event, padding).len() <= u32::MAX,
    ensures
        ({
            let buf = record_bytes(event, padding, order) + tail;
            let field = name_field(event, padding);
            &&& buf.len() == HEADER + field.len() + tail.len()
            &&& word_at(buf, 0, order) == as_unsigned(event.wd as int)
            &&& word_at(buf, 4, order) == event.mask.0
            &&& word_at(buf, 8, order) == event.cookie
            &&& word_at(buf, 12, order) == field.len()
            &&& buf.subrange(HEADER as int, HEADER + field.len()) == field
            &&& buf.skip(HEADER + field.len()) == tail
        }),
{
    let field = name_field(event, padding);
    let w0 = as_unsigned(event.wd as int);
    let w1 = event.mask.0 as int;
    let w2 = event.cookie as int;
    let w3 = field.len() as int;
    lemma_word_bytes(w0, order);
    lemma_word_bytes(w1, order);
    lemma_word_bytes(w2, order);
    lemma_word_bytes(w3, order);
    let buf = record_bytes(event, padding, order) + tail;
    assert(word_at(buf, 0, order) == word_at(word_bytes(w0, order), 0, order));
    assert(word_at(buf, 4, order) == word_at(word_bytes(w1, order), 0, order));
    assert(word_at(buf, 8, order) == word_at(word_bytes(w2, order), 0, order));
    assert(word_at(buf, 12, order) == word_at(word_bytes(w3, order), 0, order));
    assert(buf.subrange(HEADER as int, HEADER + field.len()) =~= field);
    assert(buf.skip(HEADER + field.len()) =~= tail);
}

/// The name of an event reads back from its field.
proof fn lemma_name_reads_back(event: EventModel, padding: nat)
    requires
        well_named(event),
    ensures
        without_padding(name_field(event, padding)) == match event.name {
            Some(n) => n,
            None => Seq::empty(),
        },
{
    match event.name {
        Some(n) => {
            lemma_padding_is_trimmed(n, padding);
        },
        None => {
            lemma_padding_is_trimmed(Seq::empty(), padding);
            assert(Seq::<u8>::empty() + name_field(event, padding) =~= name_field(
                event,
                padding,
            ));
        },
    }
}

/// A whole record at the start of a buffer decodes to the event it was written
/// for, whatever its padding, and what follows it decodes as it would alone.
#[verifier::spinoff_prover]
pub proof fn law_record_decodes_to_its_event(
    event: EventModel,
    padding: nat,
    tail: Seq<u8>,
    order: ByteOrder,
)
    requires
        well_named(event),
        name_field(event, padding).len() <= u32::MAX,
    ensures
        decoded(record_bytes(event, padding, order) + tail, order) == (Decoded {
            events: seq![event] + decoded(tail, order).events,
            lossy: decoded(tail, order).lossy,
        }),
{
    let buf = record_bytes(event, padding, order) + tail;
    lemma_header_reads_back(event, padding, tail, order);
    lemma_name_reads_back(event, padding);
    assert(record_len(buf, order) == HEADER + name_field(event, padding).len());
    assert(first_record(buf, order) == event);
}

/// Cutting a buffer short loses records off the end only: what still decodes is
/// a prefix of what the whole buffer decodes to.
pub proof fn law_truncation_keeps_a_prefix(buf: Seq<u8>, kept: int, order: ByteOrder)
    requires
        0 <= kept <= buf.len(),
    ensures
        decoded(buf.take(kept), order).events.is_prefix_of(decoded(buf, order).events),
    decreases buf.len(),
{
    let short = buf.take(kept);
    if short.len() == 0 || !has_record(short, order) {
        assert(decoded(short, order).events =~= Seq::empty());
        assert(decoded(buf, order).events.take(0) =~= Seq::empty());
    } else {
        let len = record_len(short, order);
        assert(word_at(short, 0, order) == word_at(buf, 0, order));
        assert(word_at(short, 4, order) == word_at(buf, 4, order));
        assert(word_at(short, 8, order) == word_at(buf, 8, order));
        assert(word_at(short, 12, order) == word_at(buf, 12, order));
        assert(short.subrange(HEADER as int, len) =~= buf.subrange(HEADER as int, len));
        assert(short.skip(len) =~= buf.skip(len).take(kept - len));
        law_truncation_keeps_a_prefix(buf.skip(len), kept - len, order);
    }
}

/// A record that was cut short is a loss, and nothing is read of it. An empty buffer
/// holds no record and no loss.
pub proof fn law_a_cut_record_is_a_loss(
    event: EventModel,
    padding: nat,
    kept: int,
    order: ByteOrder,
)
    requires
        name_field(event, padding).len() <= u32::MAX,
        0 < kept < record_bytes(event, padding, order).len(),
    ensures
        decoded(record_bytes(event, padding, order).take(kept), order) == (Decoded {
            events: Seq::empty(),
            lossy: true,
        }),
        decoded(Seq::empty(), order) == (Decoded { events: Seq::empty(), lossy: false }),
{
    lemma_header_reads_back(event, padding, Seq::empty(), order);
    let whole = record_bytes(event, padding, order);
    assert(whole + Seq::<u8>::empty() =~= whole);
    let cut = whole.take(kept);
    if kept >= HEADER {
        assert(word_at(cut, 12, order) == word_at(whole, 12, order));
    }
    assert(decoded(cut, order).events =~= Seq::empty());
    assert(decoded(Seq::empty(), order).events =~= Seq::empty());
}

/// Each of the kernel's bits is read as what it says, whatever other bits are set with it.
pub proof fn law_each_bit_says_one_thing(mask: InotifyMask)
    ensures
        mask.has(IN_MODIFY) <==> mask.0 & 0x2 != 0,
        mask.has(IN_ATTRIB) <==> mask.0 & 0x4 != 0,
        mask.has(IN_MOVED_FROM) <==> mask.0 & 0x40 != 0,
        mask.has(IN_MOVED_TO) <==> mask.0 & 0x80 != 0,
        mask.has(IN_CREATE) <==> mask.0 & 0x100 != 0,
        mask.has(IN_DELETE) <==> mask.0 & 0x200 != 0,
        mask.has(IN_DELETE_SELF) <==> mask.0 & 0x400 != 0,
        mask.has(IN_MOVE_SELF) <==> mask.0 & 0x800 != 0,
        mask.has(IN_UNMOUNT) <==> mask.0 & 0x2000 != 0,
        mask.has(IN_Q_OVERFLOW) <==> mask.0 & 0x4000 != 0,
        mask.has(IN_IGNORED) <==> mask.0 & 0x8000 != 0,
        mask.has(IN_ISDIR) <==> mask.0 & 0x4000_0000 != 0,
{
}

} // verus!
