use globset::GlobSet;
use vstd::prelude::*;
use vstd::string::StringSliceAdditionalSpecFns;
use vstd::utf8::{decode_utf8, encode_utf8_decode_utf8, valid_utf8};

use crate::glob::{
    build_glob_set, glob_set_is_match, glob_set_matches, glob_set_patterns, patterns_usable,
    string_views,
};
use crate::paths::{extension, extension_of, file_name, file_name_of, is_hidden, is_hidden_path};
use crate::text::{lowercase_of, to_lowercase, utf8_str};

verus! {

/// The extension of a path's file name, decoded, when it is valid UTF-8.
pub open spec fn extension_text(path: Seq<u8>) -> Option<Seq<char>> {
    match file_name_of(path) {
        Some(n) => match extension_of(n) {
            Some(e) => if valid_utf8(e) {
                Some(decode_utf8(e))
            } else {
                None
            },
            None => None,
        },
        None => None,
    }
}

/// Criteria that a scanned file must meet to be considered.
pub struct FileFilter {
    pub min_size: Option<u64>,
    pub max_size: Option<u64>,
    /// Accepted extensions, lower-cased; `None` accepts any file.
    pub extensions: Option<Vec<String>>,
    pub exclude_patterns: GlobSet,
    pub include_hidden: bool,
    pub skip_empty: bool,
}

/// `f` accepts a file with path `path` and size `size`: it is not skipped as
/// empty, its size lies within the bounds, it is not hidden (unless hidden
/// files are included), its lower-cased extension is accepted (when
/// extensions are restricted), and no exclude pattern matches its path.
pub open spec fn includes(f: FileFilter, path: Seq<u8>, size: u64) -> bool {
    &&& !(f.skip_empty && size == 0)
    &&& (f.min_size matches Some(m) ==> size >= m)
    &&& (f.max_size matches Some(m) ==> size <= m)
    &&& (f.include_hidden || !is_hidden_path(path))
    &&& (f.extensions matches Some(exts) ==> (extension_text(path) matches Some(e)
        && string_views(exts@).contains(lowercase_of(e))))
    &&& !glob_set_matches(glob_set_patterns(f.exclude_patterns), path)
}

/// What the filter lets through, told by the file's path and size: no file
/// whose whole path an exclude pattern matches; no file outside the size
/// bounds; no empty file when empty files are skipped; no hidden file unless
/// hidden files are included; and, when extensions are restricted, only
/// files with an extension.
pub proof fn law_filter_refuses(f: FileFilter, path: Seq<u8>, size: u64)
    ensures
        glob_set_matches(glob_set_patterns(f.exclude_patterns), path) ==> !includes(f, path, size),
        f.min_size matches Some(m) && size < m ==> !includes(f, path, size),
        f.max_size matches Some(m) && size > m ==> !includes(f, path, size),
        f.skip_empty && size == 0 ==> !includes(f, path, size),
        !f.include_hidden && is_hidden_path(path) ==> !includes(f, path, size),
        f.extensions is Some && extension_text(path) is None ==> !includes(f, path, size),
{
}

pub open spec fn lowercased(v: Seq<String>) -> Seq<Seq<char>> {
    v.map_values(|s: String| lowercase_of(s@))
}

fn contains_string(v: &Vec<String>, s: &String) -> (r: bool)
    ensures
        r == string_views(v@).contains(s@),
{
    let mut i: usize = 0;
    while i < v.len()
        invariant
            i <= v@.len(),
            forall|j: int| 0 <= j < i ==> v@[j]@ != s@,
        decreases v@.len() - i,
    {
        if v[i] == *s {
            assert(string_views(v@)[i as int] == s@);
            return true;
        }
        i += 1;
    }
    assert(!string_views(v@).contains(s@)) by {
        if string_views(v@).contains(s@) {
            let w = choose|w: int| 0 <= w < v@.len() && string_views(v@)[w] == s@;
            assert(v@[w]@ == s@);
        }
    }
    false
}

/// Each string of `v`, lower-cased.
pub fn lowercase_all(v: Vec<String>) -> (r: Vec<String>)
    ensures
        string_views(r@) == lowercased(v@),
{
    let mut out: Vec<String> = Vec::new();
    let mut i: usize = 0;
    while i < v.len()
        invariant
            i <= v@.len(),
            string_views(out@) == lowercased(v@).subrange(0, i as int),
        decreases v@.len() - i,
    {
        let lower = to_lowercase(v[i].as_str());
        let ghost old_out = out@;
        out.push(lower);
        proof {
            assert(lower@ == lowercased(v@)[i as int]);
            assert(out@ == old_out.push(lower));
            assert(string_views(old_out.push(lower)) =~= string_views(old_out).push(lower@));
            assert(lowercased(v@).subrange(0, i + 1) =~= lowercased(v@).subrange(0, i as int).push(
                lowercased(v@)[i as int],
            ));
        }
        i += 1;
    }
    assert(lowercased(v@).subrange(0, i as int) =~= lowercased(v@));
    out
}

impl FileFilter {
    /// A filter with the given bounds, the given extensions (lower-cased) and
    /// the glob set of the exclude patterns; fails when a pattern does not
    /// parse or the set does not build.
    pub fn new(
        min_size: Option<u64>,
        max_size: Option<u64>,
        extensions: Option<Vec<String>>,
        exclude: &[String],
        include_hidden: bool,
        skip_empty: bool,
    ) -> (r: Result<Self, globset::Error>)
        ensures
            r is Ok <==> patterns_usable(string_views(exclude@)),
            exclude@.len() == 0 ==> r is Ok,
            r matches Ok(f) ==> {
                &&& f.min_size == min_size
                &&& f.max_size == max_size
                &&& f.include_hidden == include_hidden
                &&& f.skip_empty == skip_empty
                &&& glob_set_patterns(f.exclude_patterns) == string_views(exclude@)
                &&& (extensions is None <==> f.extensions is None)
                &&& (extensions matches Some(e) ==> string_views(f.extensions->0@) == lowercased(
                    e@,
                ))
            },
    {
        let exclude_patterns = match build_glob_set(exclude) {
            Ok(s) => s,
            Err(e) => return Err(e),
        };
        let extensions = match extensions {
            Some(exts) => Some(lowercase_all(exts)),
            None => None,
        };
        Ok(FileFilter { min_size, max_size, extensions, exclude_patterns, include_hidden, skip_empty })
    }

    /// Whether a file with path `path` and size `size` passes the filter.
    pub fn should_include(&self, path: &[u8], size: u64) -> (r: bool)
        ensures
            r == includes(*self, path@, size),
    {
        if self.skip_empty && size == 0 {
            return false;
        }
        if let Some(min) = self.min_size {
            if size < min {
                return false;
            }
        }
        if let Some(max) = self.max_size {
            if size > max {
                return false;
            }
        }
        if !self.include_hidden {
            if is_hidden(path) {
                return false;
            }
        }
        if let Some(exts) = &self.extensions {
            let ext = match file_name(path) {
                Some(name) => extension(name.as_slice()),
                None => None,
            };
            let accepted = match ext {
                Some(e) => match utf8_str(e.as_slice()) {
                    Some(t) => {
                        proof {
                            encode_utf8_decode_utf8(t@);
                        }
                        let lower = to_lowercase(t);
                        contains_string(exts, &lower)
                    },
                    None => false,
                },
                None => false,
            };
            if !accepted {
                return false;
            }
        }
        !glob_set_is_match(&self.exclude_patterns, path)
    }
}

} // verus!
