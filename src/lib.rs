//! Interactive review of search-tool matches, and the replacement engine
//! that commits the selected ones back to their files.

pub mod cli;
pub mod encoding;
pub mod item;
pub mod message;
pub mod replace;
pub mod ui;

pub use message::{read_messages, Duration, Message, Stats, StreamError, SubMatch};
