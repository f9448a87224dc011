//! Line-level uncommitted-change index for a single file in a working tree.
//!
//! The library consumes the per-line records that a version-control diff
//! engine emits, classifies and groups them by file and by hunk, and
//! projects the entry for one requested file into an ordered sequence of
//! hunks, each carrying its lines in emission order.

pub mod index;
pub mod records;
pub mod text;
