//! The list of the files that go into a torrent.

use crate::bytes::Bytes;
use crate::file_path::views;
use crate::file_path::FilePath;
use vstd::prelude::*;

verus! {

/// A file that goes into a torrent: where it lies below the root, and how
/// long it is.
#[derive(Debug, PartialEq, Eq)]
pub struct FileEntry {
    pub path: FilePath,
    pub length: Bytes,
}

/// What a `FileEntry` holds.
pub struct FileEntryView {
    pub path: Seq<Seq<u8>>,
    pub length: u64,
}

impl View for FileEntry {
    type V = FileEntryView;

    open spec fn view(&self) -> FileEntryView {
        FileEntryView { path: self.path@, length: self.length.0 }
    }
}

/// The sum of the lengths of `entries`.
pub open spec fn total_length(entries: Seq<FileEntryView>) -> nat
    decreases entries.len(),
{
    if entries.len() == 0 {
        0
    } else {
        total_length(entries.drop_last()) + entries.last().length as nat
    }
}

/// The files that go into a torrent, in the order in which they are hashed.
/// Where the root is a file, it is the one entry, and its path is empty.
#[derive(Debug, PartialEq, Eq)]
pub struct Files {
    pub single: bool,
    pub entries: Vec<FileEntry>,
    pub total_size: Bytes,
}

/// What a `Files` holds.
pub struct FilesView {
    pub single: bool,
    pub entries: Seq<FileEntryView>,
    pub total_size: u64,
}

impl View for Files {
    type V = FilesView;

    open spec fn view(&self) -> FilesView {
        FilesView {
            single: self.single,
            entries: views(self.entries@),
            total_size: self.total_size.0,
        }
    }
}

impl FilesView {
    /// The total size is the sum of the lengths, and a root that is a file
    /// is the one entry, under the empty path.
    pub open spec fn wf(self) -> bool {
        &&& self.total_size == total_length(self.entries)
        &&& self.single ==> self.entries.len() == 1 && self.entries[0].path.len() == 0
    }
}

impl Files {
    /// The list for a root that is a file of the given length.
    pub fn file(length: Bytes) -> (files: Files)
        ensures
            files@.wf(),
            files@.single,
            files@.entries == seq![FileEntryView { path: Seq::empty(), length: length.0 }],
            files@.total_size == length.0,
    {
        let mut entries: Vec<FileEntry> = Vec::new();
        entries.push(FileEntry { path: FilePath::empty(), length });
        let files = Files { single: true, entries, total_size: length };
        assert(files@.entries =~= seq![FileEntryView { path: Seq::empty(), length: length.0 }]);
        assert(files@.entries.drop_last() =~= Seq::empty());
        assert(total_length(files@.entries.drop_last()) == 0);
        files
    }

    /// The sum of the lengths of the files.
    pub fn total_size(&self) -> (size: Bytes)
        ensures
            size == self.total_size,
    {
        self.total_size
    }

    /// The number of files.
    pub fn len(&self) -> (n: usize)
        ensures
            n == self@.entries.len(),
    {
        self.entries.len()
    }
}

} // verus!
