//! Duplicate file detection: the verified core of a duplicate finder.
//!
//! Files are grouped by size, then by a digest of their first bytes, then by a
//! digest of their whole content; each group of duplicates then has one keeper
//! chosen by a strategy and the rest are candidates for removal.

pub mod actions;
pub mod cli;
pub mod error;
pub mod glob;
pub mod grouper;
pub mod hasher;
pub mod output;
pub mod paths;
pub mod pipeline;
pub mod scanner;
pub mod text;

use std::time::Duration;
use vstd::prelude::*;

use crate::grouper::duplicate_group::{spec_duplicate_count, spec_wasted_bytes};
use crate::grouper::DuplicateGroup;

verus! {

/// The duration of a whole number of seconds, as `Duration::from_secs`
/// makes it.
pub uninterp spec fn duration_of_secs(secs: u64) -> Duration;

/// Calls `Duration::from_secs`; the duration is named, not described.
#[verifier::external_body]
pub(crate) fn duration_from_secs(secs: u64) -> (r: Duration)
    ensures
        r == duration_of_secs(secs),
{
    Duration::from_secs(secs)
}

/// `Duration` is `Copy`: its `clone` returns the same duration.
pub assume_specification[ <Duration as Clone>::clone ](d: &Duration) -> (r: Duration)
    ensures
        r == *d,
;

/// Counts that describe a scan.
#[derive(Debug, Clone)]
pub struct ScanStats {
    pub total_files_scanned: u64,
    pub total_bytes_scanned: u64,
    pub files_with_unique_size: u64,
    pub duplicate_groups: u64,
    pub duplicate_files: u64,
    pub wasted_bytes: u64,
    pub scan_duration: Duration,
}

impl Default for ScanStats {
    fn default() -> (r: Self)
        ensures
            r.total_files_scanned == 0,
            r.total_bytes_scanned == 0,
            r.files_with_unique_size == 0,
            r.duplicate_groups == 0,
            r.duplicate_files == 0,
            r.wasted_bytes == 0,
            r.scan_duration == duration_of_secs(0),
    {
        ScanStats {
            total_files_scanned: 0,
            total_bytes_scanned: 0,
            files_with_unique_size: 0,
            duplicate_groups: 0,
            duplicate_files: 0,
            wasted_bytes: 0,
            scan_duration: duration_from_secs(0),
        }
    }
}

/// Number of removable copies across `gs`.
pub open spec fn total_duplicates(gs: Seq<DuplicateGroup>) -> nat
    decreases gs.len(),
{
    if gs.len() == 0 {
        0
    } else {
        total_duplicates(gs.drop_last()) + spec_duplicate_count(gs.last().files@.len())
    }
}

/// Bytes taken by removable copies across `gs`.
pub open spec fn total_wasted(gs: Seq<DuplicateGroup>) -> nat
    decreases gs.len(),
{
    if gs.len() == 0 {
        0
    } else {
        total_wasted(gs.drop_last()) + spec_wasted_bytes(gs.last().size, gs.last().files@.len()) as nat
    }
}

/// Both totals of `gs` fit in a `u64`.
pub open spec fn totals_fit(gs: Seq<DuplicateGroup>) -> bool {
    total_duplicates(gs) <= u64::MAX && total_wasted(gs) <= u64::MAX
}

proof fn lemma_totals_prefix(gs: Seq<DuplicateGroup>, i: int)
    requires
        0 <= i <= gs.len(),
    ensures
        total_duplicates(gs.subrange(0, i)) <= total_duplicates(gs),
        total_wasted(gs.subrange(0, i)) <= total_wasted(gs),
    decreases gs.len() - i,
{
    if i < gs.len() {
        lemma_totals_prefix(gs, i + 1);
        assert(gs.subrange(0, i + 1).drop_last() =~= gs.subrange(0, i));
    } else {
        assert(gs.subrange(0, i) =~= gs);
    }
}

/// The number of removable copies and the bytes they take, when both fit in
/// a `u64`.
pub fn group_totals(groups: &Vec<DuplicateGroup>) -> (r: Option<(u64, u64)>)
    ensures
        r is Some <==> totals_fit(groups@),
        r matches Some(t) ==> t.0 == total_duplicates(groups@) && t.1 == total_wasted(groups@),
{
    let mut dups: u64 = 0;
    let mut wasted: u64 = 0;
    let mut i: usize = 0;
    while i < groups.len()
        invariant
            i <= groups@.len(),
            dups == total_duplicates(groups@.subrange(0, i as int)),
            wasted == total_wasted(groups@.subrange(0, i as int)),
        decreases groups@.len() - i,
    {
        proof {
            assert(groups@.subrange(0, i + 1).drop_last() =~= groups@.subrange(0, i as int));
            lemma_totals_prefix(groups@, i + 1);
        }
        let d = groups[i].duplicate_count() as u64;
        let w = groups[i].wasted_bytes();
        match dups.checked_add(d) {
            Some(v) => {
                dups = v;
            },
            None => {
                return None;
            },
        }
        match wasted.checked_add(w) {
            Some(v) => {
                wasted = v;
            },
            None => {
                return None;
            },
        }
        i += 1;
    }
    assert(groups@.subrange(0, i as int) =~= groups@);
    Some((dups, wasted))
}

/// The outcome of a scan: the groups of duplicates and the counts.
#[derive(Debug, Clone)]
pub struct ScanResult {
    pub groups: Vec<DuplicateGroup>,
    pub stats: ScanStats,
}

impl ScanResult {
    /// A result holding `groups`, with the group, copy and byte counts taken
    /// from them and the other counts zero.
    pub fn new(groups: Vec<DuplicateGroup>) -> (r: Self)
        requires
            totals_fit(groups@),
        ensures
            r.groups@ == groups@,
            r.stats.duplicate_groups == groups@.len(),
            r.stats.duplicate_files == total_duplicates(groups@),
            r.stats.wasted_bytes == total_wasted(groups@),
            r.stats.total_files_scanned == 0,
            r.stats.total_bytes_scanned == 0,
            r.stats.files_with_unique_size == 0,
            r.stats.scan_duration == duration_of_secs(0),
    {
        let mut stats = ScanStats::default();
        match group_totals(&groups) {
            Some((dups, wasted)) => {
                stats.duplicate_files = dups;
                stats.wasted_bytes = wasted;
            },
            None => {},
        }
        stats.duplicate_groups = groups.len() as u64;
        ScanResult { groups, stats }
    }

    pub fn has_duplicates(&self) -> (r: bool)
        ensures
            r == (self.groups@.len() > 0),
    {
        self.groups.len() != 0
    }
}

} // verus!
