//! The identity of a directory as fanotify reports it, and the entries of a
//! seed.

use vstd::prelude::*;

use crate::path::copy_bytes;

verus! {

/// The identity of a file system object: its filesystem, and the handle by
/// which that filesystem knows it.
#[derive(Clone, Debug, PartialEq, Eq)]
pub struct Fid {
    pub fsid: [u8; 8],
    pub handle: Vec<u8>,
}

/// What a `Fid` stands for.
pub struct FidModel {
    pub fsid: Seq<u8>,
    pub handle: Seq<u8>,
}

impl View for Fid {
    type V = FidModel;

    open spec fn view(&self) -> FidModel {
        FidModel { fsid: self.fsid@, handle: self.handle@ }
    }
}

/// What an optional `Fid` stands for.
pub open spec fn fid_view(fid: Option<Fid>) -> Option<FidModel> {
    match fid {
        Some(f) => Some(f@),
        None => None,
    }
}

impl Fid {
    /// The identity with this filesystem and handle.
    pub fn new(fsid: [u8; 8], handle: Vec<u8>) -> (r: Fid)
        ensures
            r@ == (FidModel { fsid: fsid@, handle: handle@ }),
    {
        Fid { fsid, handle }
    }

    /// The handle.
    pub fn handle(&self) -> (r: &[u8])
        ensures
            r@ == self@.handle,
    {
        self.handle.as_slice()
    }

    /// The same identity once more.
    pub fn copy(&self) -> (r: Fid)
        ensures
            r@ == self@,
    {
        Fid { fsid: self.fsid, handle: copy_bytes(self.handle.as_slice()) }
    }
}

/// One directory of a seed: its identity, and the place it hangs at. The root
/// hangs nowhere, and its name is its whole path.
#[derive(Debug, PartialEq, Eq)]
pub struct SeedEntry {
    pub fid: Fid,
    pub parent: Option<Fid>,
    pub name: Vec<u8>,
}

/// What a `SeedEntry` stands for.
pub struct EntryModel {
    pub fid: FidModel,
    pub parent: Option<FidModel>,
    pub name: Seq<u8>,
}

impl View for SeedEntry {
    type V = EntryModel;

    open spec fn view(&self) -> EntryModel {
        EntryModel { fid: self.fid@, parent: fid_view(self.parent), name: self.name@ }
    }
}

impl SeedEntry {
    /// The entry of the root at `path`.
    pub fn root(fid: Fid, path: &[u8]) -> (r: SeedEntry)
        ensures
            r@ == (EntryModel { fid: fid@, parent: None, name: path@ }),
    {
        SeedEntry { fid, parent: None, name: copy_bytes(path) }
    }

    /// The entry of the directory `name` in `parent`.
    pub fn child(fid: Fid, parent: Fid, name: Vec<u8>) -> (r: SeedEntry)
        ensures
            r@ == (EntryModel { fid: fid@, parent: Some(parent@), name: name@ }),
    {
        SeedEntry { fid, parent: Some(parent), name }
    }
}

/// Whether an object that was opened again is the expected one: it exports a
/// handle, and that handle is equal to the expected one.
pub fn handles_match(reopened: Option<&[u8]>, expected: &[u8]) -> (r: bool)
    ensures
        r == (reopened matches Some(handle) && handle@ == expected@),
{
    match reopened {
        Some(handle) => crate::path::same_bytes(handle, expected),
        None => false,
    }
}

} // verus!
