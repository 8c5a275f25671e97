//! The state that belongs to one inotify instance, and when to renew it.
//!
//! The kernel grants an instance's descriptors in increasing order until its
//! allocator wraps around, and only then would a descriptor be granted twice.
//! An attempt to add a watch can use up a descriptor even where it fails, so
//! the instance counts attempts, and is renewed long before the allocator
//! could wrap.

use vstd::prelude::*;

use crate::attribution::{
    MessageModel, SourceMessage, attribute_and_forward, buffer_forwarded, message_view,
    table_after_buffer,
};
use crate::error::{EMFILE, Errno, SourceError};
use crate::inotify::decode::{ByteOrder, decode_events_as, decoded};
use crate::inotify::table::{TableModel, WdTable};
use crate::lane::{Lane, passed};

verus! {

/// How far short of the allocator's wrap an instance is renewed.
pub const REBUILD_MARGIN: i32 = 0x1_0000;

/// The count of attempts at which an instance is renewed.
pub const REBUILD_THRESHOLD: i32 = 0x7fff_ffff - REBUILD_MARGIN;

/// The threshold to keep in force from here on: `threshold`, or 0 for the
/// built-in one where none is given or it is negative.
pub fn override_rebuild_threshold_for_tests(threshold: Option<i32>) -> (r: i32)
    ensures
        r == match threshold {
            Some(t) if t > 0 => t,
            _ => 0i32,
        },
{
    match threshold {
        Some(t) => if t > 0 {
            t
        } else {
            0
        },
        None => 0,
    }
}

/// The threshold of a new instance, where `over` is kept in force.
pub fn rebuild_threshold(over: i32) -> (r: i32)
    ensures
        r == if over > 0 {
            over
        } else {
            REBUILD_THRESHOLD
        },
{
    if over > 0 {
        over
    } else {
        REBUILD_THRESHOLD
    }
}

/// Why an instance could not be created.
pub fn create_error(err: Errno) -> (r: SourceError)
    ensures
        r == if err == EMFILE {
            SourceError::InstanceLimit
        } else {
            SourceError::CreateFailed
        },
{
    if err == EMFILE {
        SourceError::InstanceLimit
    } else {
        SourceError::CreateFailed
    }
}

/// One instance's state.
#[derive(Debug)]
pub struct Instance {
    pub table: WdTable,
    /// The attempts to add a watch so far.
    pub alloc_cursor: i32,
    /// The count of attempts at which the instance is renewed.
    pub threshold: i32,
    /// The byte order of the records it is read in.
    pub order: ByteOrder,
}

/// What an `Instance` stands for.
#[verifier::ext_equal]
pub struct InstanceModel {
    pub table: TableModel,
    pub alloc_cursor: i32,
    pub threshold: i32,
    pub order: ByteOrder,
}

impl View for Instance {
    type V = InstanceModel;

    open spec fn view(&self) -> InstanceModel {
        InstanceModel {
            table: self.table@,
            alloc_cursor: self.alloc_cursor,
            threshold: self.threshold,
            order: self.order,
        }
    }
}

impl InstanceModel {
    /// A fresh instance with the given threshold.
    pub open spec fn fresh(threshold: i32, order: ByteOrder) -> InstanceModel {
        InstanceModel { table: TableModel::empty(), alloc_cursor: 0, threshold, order }
    }

    /// The instance once its replacement is in place.
    pub open spec fn renewed(self) -> InstanceModel {
        InstanceModel::fresh(self.threshold, self.order)
    }

    /// The instance with one more attempt counted.
    pub open spec fn counted(self) -> InstanceModel {
        InstanceModel {
            alloc_cursor: if self.alloc_cursor == i32::MAX {
                i32::MAX
            } else {
                (self.alloc_cursor + 1) as i32
            },
            ..self
        }
    }

    /// Whether the instance must be renewed before the next attempt.
    pub open spec fn needs_rebuild(self) -> bool {
        self.alloc_cursor >= self.threshold
    }

    /// The instance with another table.
    pub open spec fn with_table(self, table: TableModel) -> InstanceModel {
        InstanceModel { table, ..self }
    }

    /// The instance after reading `bytes`.
    pub open spec fn after_read(self, bytes: Seq<u8>) -> InstanceModel {
        self.with_table(table_after_buffer(self.table, decoded(bytes, self.order)))
    }

    /// What `bytes` offer to the lane.
    pub open spec fn sends_for(self, bytes: Seq<u8>) -> Option<MessageModel> {
        buffer_forwarded(self.table, decoded(bytes, self.order))
    }
}

impl Instance {
    /// The invariant of its table.
    pub open spec fn wf(&self) -> bool {
        self.table.wf()
    }

    /// A fresh instance, where the threshold `over` is kept in force.
    pub fn new(over: i32, order: ByteOrder) -> (r: Instance)
        ensures
            r.wf(),
            r@ == InstanceModel::fresh(
                if over > 0 {
                    over
                } else {
                    REBUILD_THRESHOLD
                },
                order,
            ),
    {
        Instance::with_threshold(rebuild_threshold(over), order)
    }

    /// A fresh instance that is renewed at `threshold`.
    pub fn with_threshold(threshold: i32, order: ByteOrder) -> (r: Instance)
        ensures
            r.wf(),
            r@ == InstanceModel::fresh(threshold, order),
    {
        Instance { table: WdTable::new(), alloc_cursor: 0, threshold, order }
    }

    /// Counts one attempt to add a watch.
    pub fn count_add(&mut self)
        ensures
            final(self)@ == old(self)@.counted(),
            final(self).table == old(self).table,
    {
        if self.alloc_cursor < i32::MAX {
            self.alloc_cursor = self.alloc_cursor + 1;
        }
    }

    /// Whether the instance must be renewed before the next attempt.
    pub fn needs_rebuild(&self) -> (r: bool)
        ensures
            r == self@.needs_rebuild(),
    {
        self.alloc_cursor >= self.threshold
    }

    /// Forgets everything that belonged to the instance that was replaced.
    pub fn renew(&mut self)
        ensures
            final(self).wf(),
            final(self)@ == old(self)@.renewed(),
    {
        self.table = WdTable::new();
        self.alloc_cursor = 0;
    }

    /// Takes in bytes that were read: decodes them, attributes their records,
    /// and returns the message to put on the queue, if any.
    pub fn take_in(&mut self, lane: &mut Lane, bytes: &[u8]) -> (r: Option<SourceMessage>)
        requires
            old(self).wf(),
        ensures
            final(self).wf(),
            final(self)@ == old(self)@.after_read(bytes@),
            (*final(lane), message_view(r)) == passed(*old(lane), old(self)@.sends_for(bytes@)),
    {
        let outcome = decode_events_as(bytes, self.order);
        attribute_and_forward(lane, &mut self.table, outcome)
    }
}

} // verus!
