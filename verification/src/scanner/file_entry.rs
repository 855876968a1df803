use vstd::prelude::*;

verus! {

/// Unique identifier of a file on disk: the device and the inode number.
#[derive(Debug, Clone, Copy, PartialEq, Eq, Hash, Structural)]
pub struct FileId {
    pub device: u64,
    pub inode: u64,
}

/// A scanned file.
///
/// `path` holds the raw bytes of the file's path, `modified` its modification
/// time in nanoseconds relative to the Unix epoch (negative before it).
#[derive(Debug, Clone)]
pub struct FileEntry {
    pub path: Vec<u8>,
    pub size: u64,
    pub file_id: FileId,
    pub modified: i128,
    pub partial_hash: Option<[u8; 32]>,
    pub full_hash: Option<[u8; 32]>,
}

impl FileEntry {
    /// A file entry with no digest computed yet.
    pub fn from_parts(path: Vec<u8>, size: u64, file_id: FileId, modified: i128) -> (r: FileEntry)
        ensures
            r.path@ == path@,
            r.size == size,
            r.file_id == file_id,
            r.modified == modified,
            r.partial_hash is None,
            r.full_hash is None,
    {
        FileEntry { path, size, file_id, modified, partial_hash: None, full_hash: None }
    }

    /// Whether both entries name the same physical file (a hard link); an
    /// inode number of zero identifies nothing.
    pub fn is_same_file(&self, other: &FileEntry) -> (r: bool)
        ensures
            r == (self.file_id == other.file_id && self.file_id.inode != 0),
    {
        self.file_id == other.file_id && self.file_id.inode != 0
    }
}

/// The sum of the sizes of `fs`.
pub open spec fn sizes_total(fs: Seq<FileEntry>) -> nat
    decreases fs.len(),
{
    if fs.len() == 0 {
        0
    } else {
        sizes_total(fs.drop_last()) + fs.last().size as nat
    }
}

pub proof fn lemma_sizes_prefix(fs: Seq<FileEntry>, i: int)
    requires
        0 <= i <= fs.len(),
    ensures
        sizes_total(fs.subrange(0, i)) <= sizes_total(fs),
    decreases fs.len() - i,
{
    if i < fs.len() {
        lemma_sizes_prefix(fs, i + 1);
        assert(fs.subrange(0, i + 1).drop_last() =~= fs.subrange(0, i));
    } else {
        assert(fs.subrange(0, i) =~= fs);
    }
}

} // verus!
