//! Filesystem entry values as the scanner reports them. Paths are plain
//! strings; timestamps are seconds since the Unix epoch.

use vstd::prelude::*;

verus! {

/// The kind of a filesystem object the scanner accounts for.
#[derive(Debug, Clone, Copy, PartialEq, Eq, Structural)]
pub enum FileKind {
    File,
    Directory,
}

/// One filesystem object, as streamed to consumers.
#[derive(Debug, Clone)]
pub struct FileEntry {
    pub path: String,
    pub file_name: String,
    pub kind: FileKind,
    pub direct_size: u64,
    pub modified: Option<i64>,
    pub created: Option<i64>,
}

impl FileEntry {
    pub fn new(
        path: String,
        file_name: String,
        kind: FileKind,
        direct_size: u64,
        modified: Option<i64>,
        created: Option<i64>,
    ) -> (r: Self)
        ensures
            r.path == path,
            r.file_name == file_name,
            r.kind == kind,
            r.direct_size == direct_size,
            r.modified == modified,
            r.created == created,
    {
        Self { path, file_name, kind, direct_size, modified, created }
    }
}

} // verus!
