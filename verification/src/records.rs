use vstd::prelude::*;

verus! {

/// Plain filesystem facts about one entry, as observed by the walker at the
/// moment of a scan: timestamps are seconds since the Unix epoch.
#[derive(Clone, Copy, PartialEq, Eq, Structural, Debug)]
pub struct FileMeta {
    pub created: u64,
    pub modified: u64,
    pub accessed: u64,
    pub is_dir: bool,
    pub is_symlink: bool,
}

/// One live entry of the index, keyed in the table by its canonical path
/// relative to the served root (the root entry itself is keyed by the root's
/// absolute path).
#[derive(Clone, Debug)]
pub struct FileRecord {
    /// Canonical absolute path on disk; always inside the served root.
    pub full_path: String,
    pub meta: FileMeta,
    /// Name of the encoded thumbnail file in the thumbnail store, when one is
    /// known to exist for this entry.
    pub thumbnail_name: Option<String>,
    /// Number of entries transitively contained in subdirectories of this
    /// directory (excludes its direct children); 0 for files.
    pub items_in_subdirs: u64,
    /// Keys of the direct children, in the order the scan observed them;
    /// empty for files.
    pub child_items: Vec<String>,
}

/// Mathematical image of a `FileRecord`.
#[verifier::ext_equal]
pub struct RecordView {
    pub full_path: Seq<char>,
    pub meta: FileMeta,
    pub thumbnail_name: Option<Seq<char>>,
    pub items_in_subdirs: u64,
    pub child_items: Seq<Seq<char>>,
}

impl View for FileRecord {
    type V = RecordView;

    open spec fn view(&self) -> RecordView {
        RecordView {
            full_path: self.full_path@,
            meta: self.meta,
            thumbnail_name: match self.thumbnail_name {
                Some(n) => Some(n@),
                None => None,
            },
            items_in_subdirs: self.items_in_subdirs,
            child_items: self.child_items.deep_view(),
        }
    }
}

impl RecordView {
    /// Total number of entries transitively contained in this directory, as
    /// last computed by the indexer: direct children plus everything below
    /// them.
    pub open spec fn descendant_count(self) -> int {
        self.child_items.len() + self.items_in_subdirs
    }
}

impl FileRecord {
    /// Total number of entries transitively contained in this directory, as
    /// last computed by the indexer.
    pub fn descendant_count(&self) -> (r: u64)
        requires
            self@.child_items.len() + self@.items_in_subdirs <= u64::MAX,
        ensures
            r == self@.descendant_count(),
    {
        self.child_items.len() as u64 + self.items_in_subdirs
    }
}

} // verus!
