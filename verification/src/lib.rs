//! Allocation of file paths under a sharded directory hierarchy.
//!
//! Slots are numbered by a monotonic counter; each counter value is rendered
//! as a 12-digit zero-padded decimal leaf filename placed under three levels
//! of 3-digit shard directories, so that no directory ever accumulates more
//! than 1,000 entries. [`FileTree`] hands out sequential slots, skipping
//! paths that already exist on disk; [`KeyedFileTree`] additionally maps
//! string keys to stable slots.

mod file_tree;
pub mod keyed_file_tree;
pub mod os;
pub mod shard;

pub use crate::file_tree::{fresh_unique_root, FileTree, IoError};
pub use crate::keyed_file_tree::KeyedFileTree;
