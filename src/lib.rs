//! Batch renaming of files that never loses data: a set of source and
//! destination paths is checked for conflicts, ordered so that every rename
//! finds its destination free (cycles are broken through temporary paths),
//! and then applied or reverted one step at a time.
//!
//! - `path`: paths as text, their order, nesting, and temporary names.
//! - `conflict`: the checks on a batch, and its graph of distinct paths.
//! - `resolve`: the order of the renames of a checked batch.
//! - `queue`: the ordered renames with the cursor between done and to do.
//! - `execute`: applying and reverting a queue, one rename at a time.
//! - `laws`: what applying and reverting do to a model of the file system.
pub mod path;
pub mod error;
pub mod mapping;
pub mod conflict;
pub mod resolve;
pub mod queue;
pub mod execute;
pub mod laws;
