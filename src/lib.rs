//! Table expression system: the content cache, filesystem-change handling,
//! table layout, and the help and error model.
pub mod cache;
pub mod watch;
pub mod layout;
pub mod error;
pub mod parse;
pub mod plan;
pub mod defs;
