//! Starting a source on a root.

pub mod opening;
pub mod protocol;
pub mod source;
pub mod source_laws;
