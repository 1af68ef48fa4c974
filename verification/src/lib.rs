//! Incremental deduplication of files by hardlinking.
//!
//! The crate holds the decisions of a deduplication run: how discovered
//! paths are grouped by inode, how candidate files are narrowed down by
//! metadata, byte prefix, digest and full content, and in which order the
//! links of a duplicate are replaced. It performs no file access itself; a
//! driver reads what the engine asks for and reports back what it found.
//!
//! Two limits follow from that. Paths are text, so a driver has to pass
//! over a file whose path is not valid UTF-8. And what is read of the
//! files of a group is handed over in one piece: prefixes are short, but
//! for digests and full comparison the files of one group are in memory
//! together.

pub mod progress;
pub mod grouping;
pub mod hashing;
pub mod cascade;
pub mod content;
pub mod discovery;
pub mod protocol;
pub mod naming;
pub mod machine;
pub mod runs;
pub mod engine;
pub mod report;

pub use crate::engine::dedup;
