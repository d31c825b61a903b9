//! A minimal peer-join protocol library: role resolution from a small
//! key-value configuration, a line-based JOIN authentication protocol, and a
//! registry of member addresses kept in an SQLite table.

pub mod bytes;
pub mod client;
pub mod config;
pub mod protocol;
pub mod registry;
pub mod server;
