//! The opt-in, mtime-validated repository index.
//!
//! One file per root remembers what the last walk found. A directory entry
//! carries the mtime it had when it was read: an unchanged mtime means an
//! unchanged entry list, so its recorded children may be reused instead of
//! reading it. A repository entry carries no timestamp; it is there while its
//! `.git` is. The index is never allowed to fail a listing: whatever cannot
//! be used resolves to walking the tree.

pub mod assemble;
pub mod cache;
pub mod format;
pub mod laws;
pub mod model;
pub mod validate;
