//! The inotify backend.

pub mod arm;
pub mod batch;
pub mod cut;
pub mod decode;
pub mod instance;
pub mod port;
pub mod protocol;
pub mod reader;
pub mod reader_laws;
pub mod renewal;
pub mod table;
pub mod watch_laws;
