//! What belongs to a watched root: its device, its mount, and the parts of it
//! that the caller wants nothing of.

use vstd::prelude::*;

use crate::path::{at_or_under, starts_with, views};

verus! {

/// The bit of a `statx` result's mask that says its mount id is valid.
///
/// Reads `rustix::fs::StatxFlags::MNT_ID`, whose bits are those of the kernel's
/// `STATX_MNT_ID`.
#[verifier::external_body]
fn statx_mnt_id_bit() -> (r: u32)
    ensures
        r == 0x1000,
{
    rustix::fs::StatxFlags::MNT_ID.bits()
}

/// The bits of a file mode that hold the file's type.
///
/// Reads `libc::S_IFMT`.
#[verifier::external_body]
fn file_type_bits() -> (r: u32)
    ensures
        r == 0xf000,
{
    libc::S_IFMT
}

/// The file type of a directory.
///
/// Reads `libc::S_IFDIR`.
#[verifier::external_body]
fn directory_type() -> (r: u32)
    ensures
        r == 0x4000,
{
    libc::S_IFDIR
}

/// The mount id that a `statx` result holds: what its mask calls valid.
pub open spec fn mount_id(mask: u32, id: u64) -> Option<u64> {
    if mask & 0x1000 != 0 {
        Some(id)
    } else {
        None
    }
}

/// The mount id that a `statx` result holds, if its mask calls it valid.
pub fn mnt_id_from_mask(stx_mask: u32, stx_mnt_id: u64) -> (r: Option<u64>)
    ensures
        r == mount_id(stx_mask, stx_mnt_id),
{
    if stx_mask & statx_mnt_id_bit() != 0 {
        Some(stx_mnt_id)
    } else {
        None
    }
}

/// Whether the mode is a directory's.
pub open spec fn is_directory(mode: u32) -> bool {
    mode & 0xf000 == 0x4000
}

/// Whether the mode is a directory's.
pub fn mode_is_directory(mode: u32) -> (r: bool)
    ensures
        r == is_directory(mode),
{
    mode & file_type_bits() == directory_type()
}

/// Whether both are known and they differ.
pub open spec fn known_to_differ(a: Option<u64>, b: Option<u64>) -> bool {
    a is Some && b is Some && a != b
}

/// Whether both are known and they differ.
pub fn differ(a: Option<u64>, b: Option<u64>) -> (r: bool)
    ensures
        r == known_to_differ(a, b),
{
    match (a, b) {
        (Some(x), Some(y)) => x != y,
        _ => false,
    }
}

/// The device and mount of a watched root, as far as they are known.
#[derive(Clone, Copy, Debug, PartialEq, Eq, Structural)]
pub struct ScopeFrame {
    pub root_dev: Option<u64>,
    pub root_mnt_id: Option<u64>,
}

impl ScopeFrame {
    /// Whether an object of this device and mount lies across a boundary: what
    /// is not known crosses nothing.
    pub open spec fn crossed(self, dev: Option<u64>, mnt_id: Option<u64>) -> bool {
        known_to_differ(self.root_dev, dev) || known_to_differ(self.root_mnt_id, mnt_id)
    }

    /// Whether an object of this device and mount lies across a boundary.
    pub fn crossed_by(self, dev: Option<u64>, mnt_id: Option<u64>) -> (r: bool)
        ensures
            r == self.crossed(dev, mnt_id),
    {
        differ(self.root_dev, dev) || differ(self.root_mnt_id, mnt_id)
    }
}

/// Whether the path is one of the exclusions or lies beneath one.
pub open spec fn is_excluded(exclusions: Seq<Seq<u8>>, path: Seq<u8>) -> bool {
    exists|i: int| 0 <= i < exclusions.len() && at_or_under(path, #[trigger] exclusions[i])
}

/// Whether the path is one of the exclusions or lies beneath one.
pub fn excluded(exclusions: &Vec<Vec<u8>>, path: &[u8]) -> (r: bool)
    ensures
        r == is_excluded(views(exclusions@), path@),
{
    let mut i: usize = 0;
    while i < exclusions.len()
        invariant
            i <= exclusions@.len(),
            forall|j: int| 0 <= j < i ==> !at_or_under(path@, #[trigger] views(exclusions@)[j]),
        decreases exclusions@.len() - i,
    {
        if starts_with(path, exclusions[i].as_slice()) {
            assert(at_or_under(path@, views(exclusions@)[i as int]));
            return true;
        }
        i = i + 1;
    }
    false
}

} // verus!
