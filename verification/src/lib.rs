//! A region/tag-classified message archive.
//!
//! Free-text region and tag tokens are resolved against immutable alias
//! catalogs, forwarded chat messages are buffered per chat until a trailing
//! finalize line classifies them, and a retrieval engine serves incremental
//! per-user, per-region time windows from persisted watermarks.

pub mod catalog;
pub mod chat;
pub mod dispatch;
pub mod error;
pub mod grammar;
pub mod retrieval;
pub mod stat;
pub mod store;
pub mod tags;
pub mod text;
pub mod users;
