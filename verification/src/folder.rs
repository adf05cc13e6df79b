//! A scanned directory and its file entries.

use vstd::prelude::*;
use crate::file_entry::FileEntry;

verus! {

/// One opened directory: its path, its file entries, and its listing
/// flags. Folders marked for deletion are purged at the end of an
/// interaction cycle, never mid-cycle.
pub struct Folder {
    pub path: String,
    pub files: Vec<FileEntry>,
    pub expanded: bool,
    pub to_be_deleted: bool,
}

impl Folder {
    /// Every entry's series is well formed.
    pub open spec fn wf(&self) -> bool {
        forall|j: int| 0 <= j < self.files@.len() ==> (#[trigger] self.files@[j]).wf()
    }
}

} // verus!
