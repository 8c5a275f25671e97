//! The fanotify backend.

pub mod admission;
pub mod admission_laws;
pub mod descent_laws;
pub mod event;
pub mod fid;
pub mod map;
pub mod revealed;
pub mod tree;
pub mod upkeep;
pub mod upkeep_laws;
pub mod verdict_laws;
pub mod walk;
pub mod walk_laws;
pub mod wire;
pub mod wire_laws;
