//! Content-addressed file tracking and merging.
//!
//! The crate tracks the files of one or more source trees by a 64-bit
//! content hash and derives the minimal set of operations needed to keep a
//! destination tree in step with them: a change detector diffs a live tree
//! against a store of per-file records, a dedup scanner merges several
//! trees into one destination while telling true duplicates from hash
//! collisions, and an apply planner turns the resulting manifest into
//! copy or move operations.
//!
//! All tree walking, console work and file input/output live outside this
//! crate; every function here is a total function from plain values to
//! plain values, with a verified contract.

pub mod apply;
pub mod config;
pub mod detect;
pub mod hashing;
pub mod manifest;
pub mod numtext;
pub mod paths;
pub mod record;
pub mod scan;
pub mod textutil;
