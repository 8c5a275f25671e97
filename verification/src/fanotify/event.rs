//! What fanotify reports, decoded, and what of it crosses to the consumer.

use vstd::prelude::*;

use crate::fanotify::fid::{Fid, FidModel, fid_view};

verus! {

/// Content changed.
pub const FAN_MODIFY: u64 = 0x0000_0002;

/// Metadata changed.
pub const FAN_ATTRIB: u64 = 0x0000_0004;

/// A directory entry was created.
pub const FAN_CREATE: u64 = 0x0000_0100;

/// A directory entry was removed.
pub const FAN_DELETE: u64 = 0x0000_0200;

/// The object itself was deleted.
pub const FAN_DELETE_SELF: u64 = 0x0000_0400;

/// The object itself was moved.
pub const FAN_MOVE_SELF: u64 = 0x0000_0800;

/// The kernel queue overflowed and events were lost.
pub const FAN_Q_OVERFLOW: u64 = 0x0000_4000;

/// A directory entry was renamed; both ends are reported.
pub const FAN_RENAME: u64 = 0x1000_0000;

/// The subject of the event is a directory.
pub const FAN_ONDIR: u64 = 0x4000_0000;

/// The event classes the superblock mark asks for.
pub const FAN_MARK_MASK: u64 = FAN_CREATE | FAN_DELETE | FAN_MODIFY | FAN_ATTRIB | FAN_RENAME
    | FAN_DELETE_SELF | FAN_MOVE_SELF | FAN_ONDIR;

/// The reporting mode of the instance: notification class, with the file
/// identities of the directory, the child's name, and the target.
pub const FAN_INIT_FLAGS: u32 = 0x0000_1e00;

/// The version of the event layout.
pub const FANOTIFY_METADATA_VERSION: u8 = 3;

/// A record that holds the identity of the object itself.
pub const FAN_EVENT_INFO_TYPE_FID: u8 = 1;

/// A record that holds the identity of a directory and a name in it.
pub const FAN_EVENT_INFO_TYPE_DFID_NAME: u8 = 2;

/// A record that holds the identity of a directory.
pub const FAN_EVENT_INFO_TYPE_DFID: u8 = 3;

/// A record that holds the end a rename started from.
pub const FAN_EVENT_INFO_TYPE_OLD_DFID_NAME: u8 = 10;

/// A record that holds the end a rename led to.
pub const FAN_EVENT_INFO_TYPE_NEW_DFID_NAME: u8 = 12;

/// The mask word of an event.
#[derive(Clone, Copy, Debug, PartialEq, Eq, Structural)]
pub struct FanMask(pub u64);

impl FanMask {
    /// Whether any bit of `bits` is set.
    pub open spec fn has(self, bits: u64) -> bool {
        self.0 & bits != 0
    }

    /// The mask with these bits.
    pub fn new(bits: u64) -> (r: FanMask)
        ensures
            r == FanMask(bits),
    {
        FanMask(bits)
    }

    /// Content changed.
    pub fn modified(self) -> (r: bool)
        ensures
            r == self.has(FAN_MODIFY),
    {
        self.0 & FAN_MODIFY != 0
    }

    /// Metadata changed.
    pub fn attrib(self) -> (r: bool)
        ensures
            r == self.has(FAN_ATTRIB),
    {
        self.0 & FAN_ATTRIB != 0
    }

    /// A directory entry was created.
    pub fn created(self) -> (r: bool)
        ensures
            r == self.has(FAN_CREATE),
    {
        self.0 & FAN_CREATE != 0
    }

    /// A directory entry was removed.
    pub fn removed(self) -> (r: bool)
        ensures
            r == self.has(FAN_DELETE),
    {
        self.0 & FAN_DELETE != 0
    }

    /// The object itself was deleted.
    pub fn delete_self(self) -> (r: bool)
        ensures
            r == self.has(FAN_DELETE_SELF),
    {
        self.0 & FAN_DELETE_SELF != 0
    }

    /// The object itself was moved.
    pub fn move_self(self) -> (r: bool)
        ensures
            r == self.has(FAN_MOVE_SELF),
    {
        self.0 & FAN_MOVE_SELF != 0
    }

    /// A directory entry was renamed.
    pub fn rename(self) -> (r: bool)
        ensures
            r == self.has(FAN_RENAME),
    {
        self.0 & FAN_RENAME != 0
    }

    /// How many of the verbs that change the tree are set: create, delete,
    /// delete-self, move-self and rename.
    pub open spec fn verbs(self) -> int {
        let one = |bits: u64|
            if self.has(bits) {
                1int
            } else {
                0int
            };
        one(FAN_CREATE) + one(FAN_DELETE) + one(FAN_DELETE_SELF) + one(FAN_MOVE_SELF) + one(
            FAN_RENAME,
        )
    }

    /// Whether the kernel has merged several changes of the tree into one
    /// event.
    pub fn multi_structural(self) -> (r: bool)
        ensures
            r == (self.verbs() >= 2),
    {
        let mut verbs: u8 = 0;
        if self.created() {
            verbs = verbs + 1;
        }
        if self.removed() {
            verbs = verbs + 1;
        }
        if self.delete_self() {
            verbs = verbs + 1;
        }
        if self.move_self() {
            verbs = verbs + 1;
        }
        if self.rename() {
            verbs = verbs + 1;
        }
        verbs >= 2
    }

    /// The subject of the event is a directory.
    pub fn ondir(self) -> (r: bool)
        ensures
            r == self.has(FAN_ONDIR),
    {
        self.0 & FAN_ONDIR != 0
    }
}

/// The two ends of a rename, as they were reported.
#[derive(Debug, PartialEq, Eq)]
pub struct RenameInfo {
    pub old_dir: Fid,
    pub old_name: Vec<u8>,
    pub new_dir: Fid,
    pub new_name: Vec<u8>,
}

/// What a `RenameInfo` stands for.
pub struct RenameModel {
    pub old_dir: FidModel,
    pub old_name: Seq<u8>,
    pub new_dir: FidModel,
    pub new_name: Seq<u8>,
}

impl View for RenameInfo {
    type V = RenameModel;

    open spec fn view(&self) -> RenameModel {
        RenameModel {
            old_dir: self.old_dir@,
            old_name: self.old_name@,
            new_dir: self.new_dir@,
            new_name: self.new_name@,
        }
    }
}

/// One event as it was reported. An event in a directory has that directory and
/// a name; an event on an object itself has the object as its directory or as
/// its target, and no name.
#[derive(Debug, PartialEq, Eq)]
pub struct RawFanotifyEvent {
    pub mask: FanMask,
    pub dir_fid: Option<Fid>,
    pub target_fid: Option<Fid>,
    pub name: Option<Vec<u8>>,
    pub rename: Option<RenameInfo>,
}

/// What a `RawFanotifyEvent` stands for.
pub struct FanEventModel {
    pub mask: FanMask,
    pub dir_fid: Option<FidModel>,
    pub target_fid: Option<FidModel>,
    pub name: Option<Seq<u8>>,
    pub rename: Option<RenameModel>,
}

impl View for RawFanotifyEvent {
    type V = FanEventModel;

    open spec fn view(&self) -> FanEventModel {
        FanEventModel {
            mask: self.mask,
            dir_fid: fid_view(self.dir_fid),
            target_fid: fid_view(self.target_fid),
            name: match self.name {
                Some(n) => Some(n@),
                None => None,
            },
            rename: match self.rename {
                Some(r) => Some(r@),
                None => None,
            },
        }
    }
}

/// The two ends of a rename, as paths.
#[derive(Clone, Debug, PartialEq, Eq)]
pub struct RenamePaths {
    pub old_path: Vec<u8>,
    pub new_path: Vec<u8>,
}

/// One event that crosses to the consumer: the path of the object it is about,
/// or the two paths of a rename, and its mask.
#[derive(Clone, Debug, PartialEq, Eq)]
pub struct AdmittedEvent {
    pub mask: FanMask,
    pub path: Option<Vec<u8>>,
    pub rename: Option<RenamePaths>,
}

/// What an `AdmittedEvent` stands for.
pub struct AdmittedModel {
    pub mask: FanMask,
    pub path: Option<Seq<u8>>,
    pub rename: Option<(Seq<u8>, Seq<u8>)>,
}

impl View for AdmittedEvent {
    type V = AdmittedModel;

    open spec fn view(&self) -> AdmittedModel {
        AdmittedModel {
            mask: self.mask,
            path: match self.path {
                Some(p) => Some(p@),
                None => None,
            },
            rename: match self.rename {
                Some(r) => Some((r.old_path@, r.new_path@)),
                None => None,
            },
        }
    }
}

/// What the mark asks for is every change of an entry, of an object's content and metadata,
/// and of the object itself, on directories too; and what the instance reports beside is the
/// directory, the name in it, and the target.
pub proof fn law_the_mark_asks_for_every_change()
    ensures
        FAN_MARK_MASK == 0x5000_0f06,
        FAN_INIT_FLAGS == 0x1e00,
{
    assert(0x100u64 | 0x200 | 0x2 | 0x4 | 0x1000_0000 | 0x400 | 0x800 | 0x4000_0000
        == 0x5000_0f06u64) by (bit_vector);
}

/// Each of the kernel's bits is read as what it says, whatever other bits are set with it.
pub proof fn law_each_bit_says_one_thing(mask: FanMask)
    ensures
        mask.has(FAN_MODIFY) <==> mask.0 & 0x2 != 0,
        mask.has(FAN_ATTRIB) <==> mask.0 & 0x4 != 0,
        mask.has(FAN_CREATE) <==> mask.0 & 0x100 != 0,
        mask.has(FAN_DELETE) <==> mask.0 & 0x200 != 0,
        mask.has(FAN_DELETE_SELF) <==> mask.0 & 0x400 != 0,
        mask.has(FAN_MOVE_SELF) <==> mask.0 & 0x800 != 0,
        mask.has(FAN_Q_OVERFLOW) <==> mask.0 & 0x4000 != 0,
        mask.has(FAN_RENAME) <==> mask.0 & 0x1000_0000 != 0,
        mask.has(FAN_ONDIR) <==> mask.0 & 0x4000_0000 != 0,
{
}

} // verus!
