//! Decision logic of a polling file mirror: source mounts whose transport has
//! no change notification are scanned, changed files are copied into a
//! writable target tree, and mounts that grow past the limits are handed over
//! to a direct bind mount.
//!
//! All filesystem and mount work is done by the caller; this crate decides
//! what is tracked, what is copied, what is deleted and when to fall back.

pub mod path;
pub mod storage;
pub mod sandbox;
pub mod laws;

use vstd::prelude::*;

verus! {

/// The maximum number of files tracked for one watched mount.
pub const MAX_ENTRIES_PER_STORAGE: usize = 16;

/// The maximum total size in bytes of one watched mount.
pub const MAX_SIZE_PER_WATCHABLE_MOUNT: u64 = 1048576;

/// Seconds between two polls of every registered container.
pub const WATCH_INTERVAL_SECS: u64 = 2;

} // verus!
