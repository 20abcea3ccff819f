//! The error taxonomy of the archive.

use crate::users::UserGroup;
use vstd::prelude::*;

verus! {

/// Everything a classification or retrieval call can fail with. Each
/// variant carries what a caller needs to render an actionable message.
#[derive(Debug, Clone, PartialEq, Eq)]
pub enum Error {
    /// A retrieval without any region clause.
    NoRegions,
    /// An unknown or ambiguous region token, with the sorted, duplicate-free
    /// candidate regions its prefix matches point at.
    BadRegion { region: String, matches: Vec<String> },
    /// An unknown tag token, raw.
    BadTag(String),
    /// A valid retrieval that matched nothing: the regions, window and tags
    /// attempted.
    NoMessages { regions: Vec<String>, period: Option<(i64, i64)>, tags: Vec<String> },
    /// An opaque persistence failure, passed through unmodified.
    StoreFailure(String),
    /// A role check failed: the group required and the group held.
    PrivilegeFailure { desired: UserGroup, current: UserGroup },
}

} // verus!
