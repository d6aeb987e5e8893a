//! Mesh sync for per-repo SQLite indexes: the verified core.

pub mod command;
pub mod config;
pub mod corpus;
pub mod merge;
pub mod peer;
pub mod state;
pub mod sync;
pub mod text;
