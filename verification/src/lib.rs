//! The decision core of a Linux file-system watcher.
//!
//! Everything here is a function from plain values to plain values: what the
//! kernel said goes in as integers, byte strings and small enums, and what the
//! watcher must do next comes out the same way. Opening, reading and waiting
//! belong to the caller.

pub mod attribution;
pub mod bytemap;
pub mod error;
pub mod fanotify;
pub mod inotify;
pub mod lane;
pub mod mountinfo;
pub mod path;
pub mod scope;
pub mod spawn;
pub mod watch;
