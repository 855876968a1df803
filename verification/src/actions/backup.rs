//! Backing up duplicates: where each copy goes, whether the backup directory
//! is safe to use, and the counts of a backup run.
use vstd::prelude::*;

use crate::error::ScanError;
use crate::paths::{
    collect_components, collect_path, comp_views, components, file_name, file_name_of, join, join_path,
    keep_piece, law_join_components, lead_component, lemma_components_are_pieces, path_components,
    path_starts_with, slash_free, starts_with,
};

verus! {

/// Counts of a backup run.
#[derive(Debug)]
pub struct BackupStats {
    pub files_backed_up: u64,
    pub bytes_backed_up: u64,
    pub files_failed: u64,
}

impl Default for BackupStats {
    fn default() -> (r: Self)
        ensures
            r.files_backed_up == 0,
            r.bytes_backed_up == 0,
            r.files_failed == 0,
    {
        BackupStats { files_backed_up: 0, bytes_backed_up: 0, files_failed: 0 }
    }
}

impl BackupStats {
    /// Counts one file of `size` bytes copied into the backup directory.
    pub fn record_backed_up(&mut self, size: u64)
        requires
            old(self).files_backed_up < u64::MAX,
            old(self).bytes_backed_up + size <= u64::MAX,
        ensures
            final(self).files_backed_up == old(self).files_backed_up + 1,
            final(self).bytes_backed_up == old(self).bytes_backed_up + size,
            final(self).files_failed == old(self).files_failed,
    {
        self.files_backed_up = self.files_backed_up + 1;
        self.bytes_backed_up = self.bytes_backed_up + size;
    }

    /// Counts one file that could not be copied.
    pub fn record_failed(&mut self)
        requires
            old(self).files_failed < u64::MAX,
        ensures
            final(self).files_failed == old(self).files_failed + 1,
            final(self).files_backed_up == old(self).files_backed_up,
            final(self).bytes_backed_up == old(self).bytes_backed_up,
    {
        self.files_failed = self.files_failed + 1;
    }
}

/// The components of `abs` after the first one (the root of an absolute path).
pub open spec fn below_root(abs: Seq<u8>) -> Seq<Seq<u8>> {
    let c = components(abs);
    if c.len() == 0 {
        c
    } else {
        c.drop_first()
    }
}

/// Where the copy of the file at `abs` goes: the backup directory extended
/// by the file's path with its first component dropped, so that
/// `/home/u/a.txt` backed up to `/b` lands at `/b/home/u/a.txt`.
pub open spec fn backup_location(abs: Seq<u8>, backup_dir: Seq<u8>) -> Seq<u8> {
    join_path(backup_dir, collect_path(below_root(abs)))
}

/// Backing up keeps the directory structure: the components of a copy's
/// destination are those of the backup directory followed by those of the
/// file's path after its first one; so every copy lies inside the backup
/// directory.
pub proof fn law_backup_keeps_structure(abs: Seq<u8>, backup_dir: Seq<u8>)
    ensures
        components(backup_location(abs, backup_dir)) == components(backup_dir) + below_root(abs),
        path_starts_with(backup_location(abs, backup_dir), backup_dir),
{
    lemma_components_are_pieces(abs);
    let c = components(abs);
    let b = below_root(abs);
    assert forall|i: int| 0 <= i < b.len() implies keep_piece(#[trigger] b[i]) && slash_free(b[i]) by {
        assert(b[i] == c[i + 1]);
        assert(lead_component(abs).len() <= i + 1);
    }
    law_join_components(backup_dir, b);
}

/// The backup destination keeps the whole path of the file below its first
/// component: its components are the backup directory's followed by every
/// component of the file's path but the first (the backup directory's alone
/// when the path has none).
pub proof fn law_backup_keeps_all_components(abs: Seq<u8>, backup_dir: Seq<u8>)
    ensures
        components(abs).len() > 0 ==> components(backup_location(abs, backup_dir)) == components(
            backup_dir,
        ) + components(abs).drop_first(),
        components(abs).len() == 0 ==> components(backup_location(abs, backup_dir)) == components(
            backup_dir,
        ),
        components(backup_location(abs, backup_dir)).len() == components(backup_dir).len() + (if components(
            abs,
        ).len() > 0 {
            components(abs).len() - 1
        } else {
            0
        }),
{
    law_backup_keeps_structure(abs, backup_dir);
    if components(abs).len() == 0 {
        assert(components(backup_dir) + below_root(abs) =~= components(backup_dir));
    }
}

/// The destination of the backup copy of `source`: `canonical` is the
/// canonical form of `source` when it could be had, else `source` itself is
/// used.
pub fn create_backup_path(source: &[u8], canonical: Option<Vec<u8>>, backup_dir: &[u8]) -> (r: Vec<u8>)
    ensures
        canonical matches Some(c) ==> r@ == backup_location(c@, backup_dir@),
        canonical is None ==> r@ == backup_location(source@, backup_dir@),
{
    let comps = match &canonical {
        Some(c) => path_components(c.as_slice()),
        None => path_components(source),
    };
    let from: usize = if comps.len() > 0 {
        1
    } else {
        0
    };
    let rel = collect_components(&comps, from);
    proof {
        let cv = comp_views(comps@);
        if cv.len() > 0 {
            assert(cv.subrange(1, cv.len() as int) =~= cv.drop_first());
        } else {
            assert(cv.subrange(0, 0) =~= cv);
        }
    }
    join(backup_dir, rel.as_slice())
}

/// Where the backup directory is taken to be when its own canonical form
/// cannot be had (it may not exist yet): the canonical form of its parent
/// joined with its file name (nothing when it has none), or the directory as
/// given when it has no parent.
pub open spec fn fallback_location(backup_dir: Seq<u8>, parent_canonical: Option<Seq<u8>>) -> Seq<u8> {
    match parent_canonical {
        Some(p) => join_path(
            p,
            match file_name_of(backup_dir) {
                Some(n) => n,
                None => Seq::empty(),
            },
        ),
        None => backup_dir,
    }
}

/// The canonical location of the backup directory: `canonical` when it was
/// had; otherwise, when the directory has a parent, the parent's canonical
/// form (`parent_canonical`, or the error met resolving it) joined with the
/// directory's file name; the directory as given when it has no parent
/// (`parent_canonical` is `None`).
pub fn resolve_backup_dir(
    backup_dir: &[u8],
    canonical: Result<Vec<u8>, std::io::Error>,
    parent_canonical: Option<Result<Vec<u8>, std::io::Error>>,
) -> (r: Result<Vec<u8>, std::io::Error>)
    ensures
        canonical is Ok ==> r == canonical,
        canonical is Err && parent_canonical is None ==> (r matches Ok(l) && l@ == backup_dir@),
        canonical is Err ==> (parent_canonical matches Some(Ok(p)) ==> (r matches Ok(l) && l@
            == fallback_location(backup_dir@, Some(p@)))),
        canonical is Err ==> (parent_canonical matches Some(Err(e)) ==> r == Err::<
            Vec<u8>,
            std::io::Error,
        >(e)),
{
    match canonical {
        Ok(c) => Ok(c),
        Err(_) => match parent_canonical {
            None => Ok(vstd::slice::slice_to_vec(backup_dir)),
            Some(Err(e)) => Err(e),
            Some(Ok(p)) => {
                let name = match file_name(backup_dir) {
                    Some(n) => n,
                    None => Vec::new(),
                };
                Ok(join(p.as_slice(), name.as_slice()))
            },
        },
    }
}

/// The scan directory at `c` (when its canonical form could be had) holds
/// the path `b`.
pub open spec fn encloses(c: Option<Vec<u8>>, b: Seq<u8>) -> bool {
    c matches Some(x) && path_starts_with(b, x@)
}

/// Checks that the backup directory does not lie inside a scanned directory.
///
/// `backup_canonical` is the canonical form of the backup directory (or the
/// error met resolving it); `scan_canonicals[i]` is that of `scan_paths[i]`,
/// `None` where it could not be resolved (such a directory is passed over).
/// The first scanned directory that holds the backup directory is reported.
pub fn validate_backup_dir(
    backup_dir: &[u8],
    backup_canonical: Result<Vec<u8>, std::io::Error>,
    scan_paths: &Vec<Vec<u8>>,
    scan_canonicals: &Vec<Option<Vec<u8>>>,
) -> (r: Result<(), ScanError>)
    requires
        scan_canonicals@.len() == scan_paths@.len(),
    ensures
        backup_canonical is Err ==> (r matches Err(ScanError::FileRead(p, e)) && p@ == backup_dir@
            && e == backup_canonical->Err_0),
        backup_canonical matches Ok(b) ==> {
            &&& r is Ok <==> forall|j: int|
                0 <= j < scan_paths@.len() ==> !encloses(#[trigger] scan_canonicals@[j], b@)
            &&& r is Err ==> (r matches Err(ScanError::BackupInsideScanned(d, s)) && d@
                == backup_dir@ && exists|i: int|
                0 <= i < scan_paths@.len() && encloses(#[trigger] scan_canonicals@[i], b@)
                    && s@ == scan_paths@[i]@ && forall|j: int|
                    0 <= j < i ==> !encloses(#[trigger] scan_canonicals@[j], b@))
        },
{
    let b = match backup_canonical {
        Ok(b) => b,
        Err(e) => return Err(ScanError::FileRead(vstd::slice::slice_to_vec(backup_dir), e)),
    };
    let mut i: usize = 0;
    while i < scan_paths.len()
        invariant
            scan_canonicals@.len() == scan_paths@.len(),
            backup_canonical == Ok::<Vec<u8>, std::io::Error>(b),
            i <= scan_paths@.len(),
            forall|j: int| 0 <= j < i ==> !encloses(#[trigger] scan_canonicals@[j], b@),
        decreases scan_paths@.len() - i,
    {
        match &scan_canonicals[i] {
            Some(c) => {
                if starts_with(b.as_slice(), c.as_slice()) {
                    let d = vstd::slice::slice_to_vec(backup_dir);
                    let s = scan_paths[i].clone();
                    assert(s@ =~= scan_paths@[i as int]@);
                    assert(encloses(scan_canonicals@[i as int], b@));
                    return Err(ScanError::BackupInsideScanned(d, s));
                }
            },
            None => {},
        }
        i += 1;
    }
    Ok(())
}

} // verus!
