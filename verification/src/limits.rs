//! The bounds that keep a workspace finite, and the changes a watcher reports.

use vstd::prelude::*;

verus! {

/// The deepest syntax tree that the recursive pipelines are run on.
pub const MAX_TREE_DEPTH: usize = 256;

pub const DEFAULT_MAX_FILES: usize = 10_000;

pub const DEFAULT_MAX_FILE_BYTES: usize = 2 * 1024 * 1024;

pub const DEFAULT_MAX_TOTAL_BYTES: usize = 256 * 1024 * 1024;

pub const MAX_OPEN_DOCUMENTS: usize = DEFAULT_MAX_FILES;

pub const MAX_OPEN_DOCUMENT_URI_BYTES: usize = 4_096;

/// How many and how large sources a workspace keeps.
#[derive(Clone, Copy, Debug, PartialEq, Eq, Structural)]
pub struct ResourceLimits {
    pub max_files: usize,
    pub max_file_bytes: usize,
    pub max_total_bytes: usize,
}

impl Default for ResourceLimits {
    fn default() -> (r: Self)
        ensures
            r.max_files == DEFAULT_MAX_FILES,
            r.max_file_bytes == DEFAULT_MAX_FILE_BYTES,
            r.max_total_bytes == DEFAULT_MAX_TOTAL_BYTES,
    {
        ResourceLimits {
            max_files: DEFAULT_MAX_FILES,
            max_file_bytes: DEFAULT_MAX_FILE_BYTES,
            max_total_bytes: DEFAULT_MAX_TOTAL_BYTES,
        }
    }
}

/// What happened to a watched file.
#[derive(Clone, Copy, Debug, PartialEq, Eq, Structural)]
pub enum FileChange {
    Created,
    Changed,
    Deleted,
}

} // verus!
