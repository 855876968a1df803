use std::collections::HashSet;
use vstd::prelude::*;

use crate::scanner::filter::{includes, FileFilter};
use crate::scanner::{FileEntry, FileId};

verus! {

broadcast use vstd::std_specs::hash::group_hash_axioms;

/// A file identity as one number: the device in the high half, the inode in
/// the low half.
pub open spec fn file_key(id: FileId) -> u128 {
    (id.device as int * 0x1_0000_0000_0000_0000 + id.inode as int) as u128
}

/// The identities of `files`.
pub open spec fn ids_of(files: Seq<FileEntry>) -> Set<u128> {
    Set::new(|k: u128| exists|i: int| 0 <= i < files.len() && file_key(files[i].file_id) == k)
}

/// No two entries of `files` are the same physical file.
pub open spec fn distinct_ids(files: Seq<FileEntry>) -> bool {
    forall|i: int, j: int|
        0 <= i < j < files.len() ==> (#[trigger] files[i]).file_id != (#[trigger] files[j]).file_id
}

/// `e` is a fresh entry made of the given parts.
pub open spec fn entry_of(e: FileEntry, path: Seq<u8>, size: u64, file_id: FileId, modified: i128) -> bool {
    &&& e.path@ == path
    &&& e.size == size
    &&& e.file_id == file_id
    &&& e.modified == modified
    &&& e.partial_hash is None
    &&& e.full_hash is None
}

/// The key under which a file's identity is recorded identifies the file:
/// equal keys come from the same device and inode.
pub proof fn law_file_key_identifies_file(a: FileId, b: FileId)
    ensures
        file_key(a) == file_key(b) ==> a == b,
{
}

fn key_of(id: FileId) -> (r: u128)
    ensures
        r == file_key(id),
{
    (id.device as u128) * 0x1_0000_0000_0000_0000u128 + (id.inode as u128)
}

/// Collects the files of a directory walk that pass a filter, each physical
/// file once.
pub struct Scanner {
    pub filter: FileFilter,
    pub follow_symlinks: bool,
    pub max_depth: Option<usize>,
    /// The files collected so far, in the order they were met.
    pub files: Vec<FileEntry>,
    /// The identities (`file_key`) of the collected files.
    pub seen: HashSet<u128>,
}

impl Scanner {
    pub open spec fn collected(&self) -> Seq<FileEntry> {
        self.files@
    }

    /// The recorded identities are those of the collected files, and no file
    /// is collected twice.
    pub open spec fn wf(&self) -> bool {
        &&& self.seen@ == ids_of(self.files@)
        &&& distinct_ids(self.files@)
    }

    pub fn new(filter: FileFilter, follow_symlinks: bool, max_depth: Option<usize>) -> (r: Self)
        ensures
            r.wf(),
            r.filter == filter,
            r.follow_symlinks == follow_symlinks,
            r.max_depth == max_depth,
            r.collected() == Seq::<FileEntry>::empty(),
    {
        let r = Scanner { filter, follow_symlinks, max_depth, files: Vec::new(), seen: HashSet::new() };
        assert(r.seen@ =~= ids_of(r.files@));
        r
    }

    /// Takes in one entry of the walk. It is collected when it is a regular
    /// file, passes the filter, and is not a file already collected under
    /// another path (a hard link); the result says whether it was.
    pub fn process_entry(
        &mut self,
        path: Vec<u8>,
        is_regular: bool,
        size: u64,
        file_id: FileId,
        modified: i128,
    ) -> (r: bool)
        requires
            old(self).wf(),
        ensures
            final(self).wf(),
            final(self).filter == old(self).filter,
            final(self).follow_symlinks == old(self).follow_symlinks,
            final(self).max_depth == old(self).max_depth,
            r == (is_regular && includes(old(self).filter, path@, size) && !ids_of(
                old(self).collected(),
            ).contains(file_key(file_id))),
            r ==> final(self).collected().len() == old(self).collected().len() + 1
                && final(self).collected().drop_last() == old(self).collected() && entry_of(
                final(self).collected().last(),
                path@,
                size,
                file_id,
                modified,
            ),
            !r ==> final(self).collected() == old(self).collected(),
            distinct_ids(final(self).collected()),
    {
        if !is_regular {
            return false;
        }
        if !self.filter.should_include(path.as_slice(), size) {
            return false;
        }
        let key = key_of(file_id);
        let ghost old_seen = self.seen@;
        if !self.seen.insert(key) {
            assert(self.seen@ =~= old_seen);
            return false;
        }
        let ghost old_files = self.files@;
        let entry = FileEntry::from_parts(path, size, file_id, modified);
        self.files.push(entry);
        proof {
            assert(self.files@.drop_last() =~= old_files);
            assert(self.seen@ =~= ids_of(self.files@)) by {
                assert forall|k: u128| self.seen@.contains(k) implies ids_of(self.files@).contains(
                    k,
                ) by {
                    if k != key {
                        let i = choose|i: int|
                            0 <= i < old_files.len() && file_key(old_files[i].file_id) == k;
                        assert(self.files@[i] == old_files[i]);
                    } else {
                        assert(self.files@[old_files.len() as int] == entry);
                    }
                }
                assert forall|k: u128| ids_of(self.files@).contains(k) implies self.seen@.contains(
                    k,
                ) by {
                    let i = choose|i: int|
                        0 <= i < self.files@.len() && file_key(self.files@[i].file_id) == k;
                    if i < old_files.len() {
                        assert(old_files[i] == self.files@[i]);
                        assert(ids_of(old_files).contains(k));
                    }
                }
            }
            assert forall|i: int, j: int| 0 <= i < j < self.files@.len() implies (
            #[trigger] self.files@[i]).file_id != (#[trigger] self.files@[j]).file_id by {
                if j == old_files.len() {
                    assert(self.files@[i] == old_files[i]);
                    if old_files[i].file_id == file_id {
                        assert(ids_of(old_files).contains(key));
                    }
                } else {
                    assert(self.files@[i] == old_files[i]);
                    assert(self.files@[j] == old_files[j]);
                }
            }
        }
        true
    }

    /// The files collected, in the order they were met.
    pub fn into_files(self) -> (r: Vec<FileEntry>)
        ensures
            r@ == self.collected(),
            self.wf() ==> distinct_ids(r@),
    {
        self.files
    }
}

} // verus!
