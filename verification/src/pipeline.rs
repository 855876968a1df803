//! The decisions of the duplicate-finding pipeline that follow the scan and
//! the hashing passes: ordering the groups and counting.
use std::time::Duration;
use vstd::prelude::*;

use crate::grouper::duplicate_group::spec_wasted_bytes;
use crate::cli::Config;
use crate::grouper::by_hash::{
    all_carry, digests_fit, group_view, group_views, hash_views, law_digest_groups_share_digest,
    lemma_split_together, match_views, matches_fit, regroup_view, tag, tagged_member, together,
    verify_view,
};
use crate::grouper::by_size::{
    kept_files, law_size_groups_share_size, lemma_size_together, size_groups, unique_size_count,
};
use crate::grouper::identity::{
    all_files, id_count, lemma_distinct_ids_count, lemma_id_count_concat, lemma_regroup_id_count,
    lemma_size_groups_id_count,
};
use crate::scanner::walker::distinct_ids;
use crate::grouper::{
    group_by_full_hash, group_by_partial_hash, group_by_size_with_stats, verify_with_byte_compare,
    DuplicateGroup,
};
use crate::scanner::file_entry::{lemma_sizes_prefix, sizes_total};
use crate::scanner::{FileEntry, FileId};
use crate::{group_totals, total_duplicates, total_wasted, totals_fit, ScanResult, ScanStats};

verus! {

/// Bytes that the removable copies of a group take.
pub open spec fn waste(g: DuplicateGroup) -> u64 {
    spec_wasted_bytes(g.size, g.files@.len())
}

/// Number of leading groups of `sorted` that waste at least `k` bytes.
pub open spec fn insert_pos(sorted: Seq<DuplicateGroup>, k: u64) -> nat
    decreases sorted.len(),
{
    if sorted.len() > 0 && waste(sorted[0]) >= k {
        1 + insert_pos(sorted.drop_first(), k)
    } else {
        0
    }
}

/// `g` placed after the leading groups that waste at least as much.
pub open spec fn insert_by_waste(sorted: Seq<DuplicateGroup>, g: DuplicateGroup) -> Seq<DuplicateGroup> {
    sorted.insert(insert_pos(sorted, waste(g)) as int, g)
}

/// `s` ordered by wasted bytes, most first, groups that waste the same
/// keeping their order (the order of a stable sort).
pub open spec fn sort_by_waste(s: Seq<DuplicateGroup>) -> Seq<DuplicateGroup>
    decreases s.len(),
{
    if s.len() == 0 {
        s
    } else {
        insert_by_waste(sort_by_waste(s.drop_last()), s.last())
    }
}

proof fn lemma_insert_pos_le(sorted: Seq<DuplicateGroup>, k: u64)
    ensures
        insert_pos(sorted, k) <= sorted.len(),
    decreases sorted.len(),
{
    if sorted.len() > 0 && waste(sorted[0]) >= k {
        lemma_insert_pos_le(sorted.drop_first(), k);
    }
}

/// Orders groups by wasted bytes, most first; groups that waste the same
/// keep their order.
pub fn sort_groups_by_waste(groups: Vec<DuplicateGroup>) -> (r: Vec<DuplicateGroup>)
    ensures
        r@ == sort_by_waste(groups@),
{
    let ghost s = groups@;
    let mut out: Vec<DuplicateGroup> = Vec::new();
    let mut i: usize = 0;
    let n = groups.len();
    assert(s.subrange(0, 0) =~= Seq::<DuplicateGroup>::empty());
    for g in it: groups
        invariant
            it.seq() == s,
            s.len() == n,
            i == it.index(),
            i <= n,
            out@ == sort_by_waste(s.subrange(0, i as int)),
    {
        proof {
            assert(g == s[i as int]);
            assert(i < n);
            assert(s.subrange(0, i + 1).drop_last() =~= s.subrange(0, i as int));
        }
        let k = g.wasted_bytes();
        let m = out.len();
        let mut j: usize = 0;
        assert(out@.subrange(0, m as int) =~= out@);
        while j < m && out[j].wasted_bytes() >= k
            invariant
                m == out@.len(),
                j <= m,
                k == waste(g),
                insert_pos(out@, k) == j + insert_pos(out@.subrange(j as int, m as int), k),
            decreases m - j,
        {
            proof {
                assert(out@.subrange(j as int, m as int).drop_first() =~= out@.subrange(
                    j + 1,
                    m as int,
                ));
                assert(out@.subrange(j as int, m as int)[0] == out@[j as int]);
            }
            j += 1;
        }
        proof {
            if j < m {
                assert(out@.subrange(j as int, m as int)[0] == out@[j as int]);
            }
            assert(insert_pos(out@, k) == j);
        }
        out.insert(j, g);
        i += 1;
    }
    assert(s.subrange(0, n as int) =~= s);
    out
}

/// The result of a scan that found no candidate group: the scan counts and
/// no duplicates.
pub fn empty_result(
    total_files: u64,
    total_bytes: u64,
    unique_sizes: u64,
    duration: Duration,
) -> (r: ScanResult)
    ensures
        r.groups@.len() == 0,
        r.stats.total_files_scanned == total_files,
        r.stats.total_bytes_scanned == total_bytes,
        r.stats.files_with_unique_size == unique_sizes,
        r.stats.duplicate_groups == 0,
        r.stats.duplicate_files == 0,
        r.stats.wasted_bytes == 0,
        r.stats.scan_duration == duration,
{
    let mut stats = ScanStats::default();
    stats.total_files_scanned = total_files;
    stats.total_bytes_scanned = total_bytes;
    stats.files_with_unique_size = unique_sizes;
    stats.scan_duration = duration;
    ScanResult { groups: Vec::new(), stats }
}

/// The result of a scan: the confirmed groups ordered by wasted bytes (most
/// first, stable) and all counts.
pub fn finish_scan(
    groups: Vec<DuplicateGroup>,
    total_files: u64,
    total_bytes: u64,
    unique_sizes: u64,
    duration: Duration,
) -> (r: ScanResult)
    requires
        totals_fit(groups@),
    ensures
        r.groups@ == sort_by_waste(groups@),
        r.stats.total_files_scanned == total_files,
        r.stats.total_bytes_scanned == total_bytes,
        r.stats.files_with_unique_size == unique_sizes,
        r.stats.duplicate_groups == groups@.len(),
        r.stats.duplicate_files == total_duplicates(sort_by_waste(groups@)),
        r.stats.wasted_bytes == total_wasted(sort_by_waste(groups@)),
        r.stats.scan_duration == duration,
{
    let ghost g0 = groups@;
    let sorted = sort_groups_by_waste(groups);
    proof {
        law_sort_keeps_totals(g0);
    }
    let mut stats = ScanStats::default();
    stats.total_files_scanned = total_files;
    stats.total_bytes_scanned = total_bytes;
    stats.files_with_unique_size = unique_sizes;
    stats.scan_duration = duration;
    stats.duplicate_groups = sorted.len() as u64;
    match group_totals(&sorted) {
        Some((dups, wasted)) => {
            stats.duplicate_files = dups;
            stats.wasted_bytes = wasted;
        },
        None => {},
    }
    ScanResult { groups: sorted, stats }
}

/// The number of scanned files and the sum of their sizes, when the sum fits
/// in a `u64`.
pub fn scan_totals(files: &Vec<FileEntry>) -> (r: Option<(u64, u64)>)
    ensures
        r is Some <==> sizes_total(files@) <= u64::MAX,
        r matches Some(t) ==> t.0 == files@.len() && t.1 == sizes_total(files@),
{
    let mut total: u64 = 0;
    let mut i: usize = 0;
    while i < files.len()
        invariant
            i <= files@.len(),
            total == sizes_total(files@.subrange(0, i as int)),
        decreases files@.len() - i,
    {
        proof {
            assert(files@.subrange(0, i + 1).drop_last() =~= files@.subrange(0, i as int));
            lemma_sizes_prefix(files@, i + 1);
        }
        match total.checked_add(files[i].size) {
            Some(t) => {
                total = t;
            },
            None => {
                return None;
            },
        }
        i += 1;
    }
    assert(files@.subrange(0, i as int) =~= files@);
    Some((files.len() as u64, total))
}

/// How duplicates are removed.
#[derive(Debug, Clone, Copy, PartialEq, Eq, Structural)]
pub enum DeleteMode {
    /// Only report what would be removed.
    DryRun,
    /// Remove every copy without asking.
    Remove,
}

/// What a run does once its result is reported.
#[derive(Debug)]
pub struct ActionPlan {
    /// Back duplicates up to this directory first (after checking it).
    pub backup_dir: Option<Vec<u8>>,
    /// Then remove them (or report what would be removed).
    pub delete: Option<DeleteMode>,
}

/// The actions that follow the report: none unless deletion was asked for
/// and duplicates were found; then a backup when a backup directory was
/// given, followed by a dry run, which is what deletion does by default, or,
/// with `--yes` (and without `--dry-run`), the removal of every copy. No plan
/// asks about each copy: deletion is a dry run unless `--yes` confirms it all,
/// so a `DeleteSession` is started with every copy confirmed.
pub fn plan_actions(config: &Config, has_duplicates: bool) -> (r: ActionPlan)
    ensures
        !(config.delete && has_duplicates) ==> r.backup_dir is None && r.delete is None,
        config.delete && has_duplicates ==> {
            &&& (r.backup_dir is None <==> config.backup_dir is None)
            &&& (config.backup_dir matches Some(d) ==> r.backup_dir->0@ == d@)
            &&& r.delete == Some(
                if config.dry_run || !config.yes {
                    DeleteMode::DryRun
                } else {
                    DeleteMode::Remove
                },
            )
        },
{
    if !(config.delete && has_duplicates) {
        return ActionPlan { backup_dir: None, delete: None };
    }
    let backup_dir = match &config.backup_dir {
        Some(d) => {
            let c = d.clone();
            assert(c@ =~= d@);
            Some(c)
        },
        None => None,
    };
    let mode = if config.dry_run || !config.yes {
        DeleteMode::DryRun
    } else {
        DeleteMode::Remove
    };
    ActionPlan { backup_dir, delete: Some(mode) }
}

/// One digest list per group, one digest per file (over views).
pub open spec fn digest_lists_fit(gs: Seq<DuplicateGroup>, hss: Seq<Seq<[u8; 32]>>) -> bool {
    &&& hss.len() == gs.len()
    &&& forall|g: int| 0 <= g < gs.len() ==> (#[trigger] hss[g]).len() == gs[g].files@.len()
}

/// The groups that the full-digest pass reports hold true duplicates as far
/// as sizes and digests tell: two or more files, all of the group's size,
/// all carrying the group's full digest.
pub proof fn law_reported_groups_share_size_and_digest(
    files: Seq<FileEntry>,
    include_empty: bool,
    sized: Seq<DuplicateGroup>,
    partial_hs: Seq<Seq<[u8; 32]>>,
    partial: Seq<DuplicateGroup>,
    full_hs: Seq<Seq<[u8; 32]>>,
    i: int,
)
    requires
        size_groups(sized, files, include_empty),
        digest_lists_fit(sized, partial_hs),
        group_views(partial) == regroup_view(sized, partial_hs, false),
        digest_lists_fit(partial, full_hs),
        0 <= i < regroup_view(partial, full_hs, true).len(),
    ensures
        regroup_view(partial, full_hs, true)[i].2.len() >= 2,
        regroup_view(partial, full_hs, true)[i].0 is Some,
        all_carry(
            regroup_view(partial, full_hs, true)[i].2,
            regroup_view(partial, full_hs, true)[i].0->0,
            true,
        ),
        forall|j: int|
            0 <= j < regroup_view(partial, full_hs, true)[i].2.len() ==> (#[trigger] regroup_view(
                partial,
                full_hs,
                true,
            )[i].2[j]).size == regroup_view(partial, full_hs, true)[i].1,
{
    let v = regroup_view(partial, full_hs, true)[i];
    law_digest_groups_share_digest(partial, full_hs, true, i);
    let g = choose|g: int|
        0 <= g < partial.len() && v.1 == (#[trigger] partial[g]).size && forall|j: int|
            0 <= j < v.2.len() ==> tagged_member(#[trigger] v.2[j], partial[g].files@, full_hs[g], true);
    assert(group_views(partial)[g] == group_view(partial[g]));
    let pv = regroup_view(sized, partial_hs, false)[g];
    assert(pv.1 == partial[g].size && pv.2 == partial[g].files@);
    law_digest_groups_share_digest(sized, partial_hs, false, g);
    let h = choose|h: int|
        0 <= h < sized.len() && pv.1 == (#[trigger] sized[h]).size && forall|j: int|
            0 <= j < pv.2.len() ==> tagged_member(#[trigger] pv.2[j], sized[h].files@, partial_hs[h], false);
    law_size_groups_share_size(sized, files, include_empty);
    assert forall|j: int| 0 <= j < v.2.len() implies (#[trigger] v.2[j]).size == v.1 by {
        assert(tagged_member(v.2[j], partial[g].files@, full_hs[g], true));
        let m = choose|m: int|
            0 <= m < partial[g].files@.len() && v.2[j] == #[trigger] tag(
                partial[g].files@[m],
                full_hs[g][m],
                true,
            );
        let pf = partial[g].files@[m];
        assert(pv.2[m] == pf);
        assert(tagged_member(pv.2[m], sized[h].files@, partial_hs[h], false));
        let n = choose|n: int|
            0 <= n < sized[h].files@.len() && pf == #[trigger] tag(
                sized[h].files@[n],
                partial_hs[h][n],
                false,
            );
        assert(sized[h].files@[n].size == sized[h].size);
    }
    let d = choose|d: [u8; 32]|
        #![trigger all_carry(v.2, d, true)]
        all_carry(v.2, d, true) && v.0 == Some(d);
}

/// The full-digest pass misses no pair of duplicates: two different files
/// taken into size grouping, of equal size, equal partial digest and equal
/// full digest, end in one reported group, each with both digests recorded.
/// The digests of a file are given as functions of its path (`partial_of`,
/// `full_of`), and the digest lists handed to the passes follow them.
pub proof fn law_matching_files_reported_together(
    files: Seq<FileEntry>,
    include_empty: bool,
    sized: Seq<DuplicateGroup>,
    partial_hs: Seq<Seq<[u8; 32]>>,
    partial: Seq<DuplicateGroup>,
    full_hs: Seq<Seq<[u8; 32]>>,
    partial_of: spec_fn(Seq<u8>) -> [u8; 32],
    full_of: spec_fn(Seq<u8>) -> [u8; 32],
    i1: int,
    i2: int,
)
    requires
        size_groups(sized, files, include_empty),
        digest_lists_fit(sized, partial_hs),
        forall|a: int, j: int|
            0 <= a < sized.len() && 0 <= j < sized[a].files@.len() ==> #[trigger] partial_hs[a][j]
                == partial_of(sized[a].files@[j].path@),
        group_views(partial) == regroup_view(sized, partial_hs, false),
        digest_lists_fit(partial, full_hs),
        forall|g: int, m: int|
            0 <= g < partial.len() && 0 <= m < partial[g].files@.len() ==> #[trigger] full_hs[g][m]
                == full_of(partial[g].files@[m].path@),
        0 <= i1 < kept_files(files, include_empty).len(),
        0 <= i2 < kept_files(files, include_empty).len(),
        i1 != i2,
        kept_files(files, include_empty)[i1].size == kept_files(files, include_empty)[i2].size,
        partial_of(kept_files(files, include_empty)[i1].path@) == partial_of(
            kept_files(files, include_empty)[i2].path@,
        ),
        full_of(kept_files(files, include_empty)[i1].path@) == full_of(
            kept_files(files, include_empty)[i2].path@,
        ),
    ensures
        together(
            regroup_view(partial, full_hs, true),
            tag(
                tag(
                    kept_files(files, include_empty)[i1],
                    partial_of(kept_files(files, include_empty)[i1].path@),
                    false,
                ),
                full_of(kept_files(files, include_empty)[i1].path@),
                true,
            ),
            tag(
                tag(
                    kept_files(files, include_empty)[i2],
                    partial_of(kept_files(files, include_empty)[i2].path@),
                    false,
                ),
                full_of(kept_files(files, include_empty)[i2].path@),
                true,
            ),
        ),
{
    let k = kept_files(files, include_empty);
    let f1 = k[i1];
    let f2 = k[i2];
    let (a, j1, j2) = lemma_size_together(sized, files, include_empty, i1, i2);
    assert(partial_hs[a][j1] == partial_of(f1.path@));
    assert(partial_hs[a][j2] == partial_of(f2.path@));
    let (g, m1, m2) = lemma_split_together(sized, partial_hs, false, a, j1, j2);
    let pv = regroup_view(sized, partial_hs, false);
    assert(group_views(partial).len() == partial.len());
    assert(group_views(partial)[g] == group_view(partial[g]));
    let p1 = tag(f1, partial_of(f1.path@), false);
    let p2 = tag(f2, partial_of(f2.path@), false);
    assert(partial[g].files@[m1] == p1 && partial[g].files@[m2] == p2);
    assert(p1.path@ == f1.path@ && p2.path@ == f2.path@);
    assert(full_hs[g][m1] == full_of(f1.path@));
    assert(full_hs[g][m2] == full_of(f2.path@));
    let (r, n1, n2) = lemma_split_together(partial, full_hs, true, g, m1, m2);
    let vs = regroup_view(partial, full_hs, true);
    assert(vs[r].2[n1] == tag(p1, full_of(f1.path@), true));
    assert(vs[r].2[n2] == tag(p2, full_of(f2.path@), true));
}

/// No physical file is reported twice: when the scanned files are distinct
/// physical files (as the scanner collects them), no two entries of the
/// groups that the full-digest pass reports, across all of them, share a
/// file identity.
pub proof fn law_no_file_reported_twice(
    files: Seq<FileEntry>,
    include_empty: bool,
    sized: Seq<DuplicateGroup>,
    partial_hs: Seq<Seq<[u8; 32]>>,
    partial: Seq<DuplicateGroup>,
    full_hs: Seq<Seq<[u8; 32]>>,
)
    requires
        distinct_ids(files),
        size_groups(sized, files, include_empty),
        digest_lists_fit(sized, partial_hs),
        group_views(partial) == regroup_view(sized, partial_hs, false),
        digest_lists_fit(partial, full_hs),
    ensures
        distinct_ids(all_files(regroup_view(partial, full_hs, true))),
{
    let out = all_files(regroup_view(partial, full_hs, true));
    lemma_distinct_ids_count(files);
    assert forall|v: FileId| #[trigger] id_count(out, v) <= 1 by {
        assert(id_count(files, v) <= 1);
        lemma_size_groups_id_count(sized, files, include_empty, v);
        lemma_regroup_id_count(sized, partial_hs, false, v);
        lemma_regroup_id_count(partial, full_hs, true, v);
    }
    lemma_distinct_ids_count(out);
}

/// What the duplicate-finding pipeline needs next.
#[derive(Debug, Clone, Copy, PartialEq, Eq, Structural)]
pub enum PipelineStep {
    /// The partial digest of each file of the candidate groups, group by
    /// group, file by file.
    PartialDigests,
    /// The full digest of each file of the candidate groups.
    FullDigests,
    /// For each candidate group of two or more files, whether each file after
    /// the first has the first one's bytes.
    ByteComparison,
    /// Nothing: the result can be had.
    Finished,
}

/// A run of the duplicate-finding pipeline between two passes over the
/// disk: the counts of the scan and the groups still standing.
#[derive(Debug)]
pub struct Pipeline {
    pub total_files: u64,
    pub total_bytes: u64,
    pub unique_sizes: u64,
    /// Byte-by-byte comparison follows the full digests.
    pub paranoid: bool,
    /// The candidate groups at this point.
    pub groups: Vec<DuplicateGroup>,
}

impl Pipeline {
    /// Starts from the scanned files: counts them, groups them by size
    /// (leaving empty files out when `skip_empty`), and asks for partial
    /// digests unless no group of candidates remains. `None` when the sizes
    /// of the files do not sum within a `u64`.
    pub fn after_scan(files: Vec<FileEntry>, skip_empty: bool, paranoid: bool) -> (r: Option<
        (Pipeline, PipelineStep),
    >)
        ensures
            r is Some <==> sizes_total(files@) <= u64::MAX,
            r matches Some((p, step)) ==> {
                &&& p.total_files == files@.len()
                &&& p.total_bytes == sizes_total(files@)
                &&& p.unique_sizes == unique_size_count(kept_files(files@, !skip_empty))
                &&& p.paranoid == paranoid
                &&& size_groups(p.groups@, files@, !skip_empty)
                &&& step == (if p.groups@.len() == 0 {
                    PipelineStep::Finished
                } else {
                    PipelineStep::PartialDigests
                })
            },
    {
        let (total_files, total_bytes) = match scan_totals(&files) {
            Some(t) => t,
            None => {
                return None;
            },
        };
        let (groups, stats) = group_by_size_with_stats(files, !skip_empty);
        let step = if groups.len() == 0 {
            PipelineStep::Finished
        } else {
            PipelineStep::PartialDigests
        };
        let p = Pipeline {
            total_files,
            total_bytes,
            unique_sizes: stats.unique_sizes as u64,
            paranoid,
            groups,
        };
        Some((p, step))
    }

    /// Splits the groups by the partial digests of their files, and asks for
    /// full digests unless no group remains.
    pub fn after_partial(self, hashes: &Vec<Vec<[u8; 32]>>) -> (r: (Pipeline, PipelineStep))
        requires
            digests_fit(self.groups@, hashes@),
        ensures
            group_views(r.0.groups@) == regroup_view(self.groups@, hash_views(hashes@), false),
            r.0.total_files == self.total_files,
            r.0.total_bytes == self.total_bytes,
            r.0.unique_sizes == self.unique_sizes,
            r.0.paranoid == self.paranoid,
            r.1 == (if r.0.groups@.len() == 0 {
                PipelineStep::Finished
            } else {
                PipelineStep::FullDigests
            }),
    {
        let groups = group_by_partial_hash(self.groups, hashes);
        let step = if groups.len() == 0 {
            PipelineStep::Finished
        } else {
            PipelineStep::FullDigests
        };
        (Pipeline { groups, ..self }, step)
    }

    /// Splits the groups by the full digests of their files, and asks for a
    /// byte-by-byte comparison when the run is paranoid.
    pub fn after_full(self, hashes: &Vec<Vec<[u8; 32]>>) -> (r: (Pipeline, PipelineStep))
        requires
            digests_fit(self.groups@, hashes@),
        ensures
            group_views(r.0.groups@) == regroup_view(self.groups@, hash_views(hashes@), true),
            r.0.total_files == self.total_files,
            r.0.total_bytes == self.total_bytes,
            r.0.unique_sizes == self.unique_sizes,
            r.0.paranoid == self.paranoid,
            r.1 == (if self.paranoid {
                PipelineStep::ByteComparison
            } else {
                PipelineStep::Finished
            }),
    {
        let groups = group_by_full_hash(self.groups, hashes);
        let step = if self.paranoid {
            PipelineStep::ByteComparison
        } else {
            PipelineStep::Finished
        };
        (Pipeline { groups, ..self }, step)
    }

    /// Keeps, in each group, the files that compared equal to its first one.
    pub fn after_comparison(self, matches: &Vec<Vec<bool>>) -> (r: Pipeline)
        requires
            matches_fit(self.groups@, matches@),
        ensures
            group_views(r.groups@) == verify_view(self.groups@, match_views(matches@)),
            r.total_files == self.total_files,
            r.total_bytes == self.total_bytes,
            r.unique_sizes == self.unique_sizes,
            r.paranoid == self.paranoid,
    {
        let groups = verify_with_byte_compare(self.groups, matches);
        Pipeline { groups, ..self }
    }

    /// The result of the run, `duration` after it started: the groups that
    /// remain ordered by wasted bytes, and the counts.
    pub fn finish(self, duration: Duration) -> (r: ScanResult)
        requires
            totals_fit(self.groups@),
        ensures
            r.groups@ == sort_by_waste(self.groups@),
            r.stats.total_files_scanned == self.total_files,
            r.stats.total_bytes_scanned == self.total_bytes,
            r.stats.files_with_unique_size == self.unique_sizes,
            r.stats.duplicate_groups == self.groups@.len(),
            r.stats.duplicate_files == total_duplicates(self.groups@),
            r.stats.wasted_bytes == total_wasted(self.groups@),
            r.stats.scan_duration == duration,
    {
        proof {
            law_sort_keeps_totals(self.groups@);
        }
        finish_scan(self.groups, self.total_files, self.total_bytes, self.unique_sizes, duration)
    }

    /// Whether the counts of the remaining groups fit in a `u64`, as
    /// `finish` needs.
    pub fn totals_fit(&self) -> (r: bool)
        ensures
            r == totals_fit(self.groups@),
    {
        group_totals(&self.groups).is_some()
    }
}

} // verus!

verus! {

proof fn lemma_totals_insert(a: Seq<DuplicateGroup>, p: int, x: DuplicateGroup)
    requires
        0 <= p <= a.len(),
    ensures
        total_duplicates(a.insert(p, x)) == total_duplicates(a) + crate::grouper::duplicate_group::spec_duplicate_count(
            x.files@.len(),
        ),
        total_wasted(a.insert(p, x)) == total_wasted(a) + waste(x),
    decreases a.len(),
{
    let b = a.insert(p, x);
    if p == a.len() {
        assert(b.drop_last() =~= a);
    } else {
        lemma_totals_insert(a.drop_last(), p, x);
        assert(b.drop_last() =~= a.drop_last().insert(p, x));
        assert(b.last() == a.last());
    }
}

/// Ordering groups by waste keeps every group: as many groups, and the same
/// copy and byte totals.
pub proof fn law_sort_keeps_totals(s: Seq<DuplicateGroup>)
    ensures
        sort_by_waste(s).len() == s.len(),
        total_duplicates(sort_by_waste(s)) == total_duplicates(s),
        total_wasted(sort_by_waste(s)) == total_wasted(s),
        sort_by_waste(s).to_multiset() == s.to_multiset(),
    decreases s.len(),
{
    if s.len() > 0 {
        let prev = sort_by_waste(s.drop_last());
        law_sort_keeps_totals(s.drop_last());
        lemma_insert_pos_le(prev, waste(s.last()));
        let p = insert_pos(prev, waste(s.last())) as int;
        lemma_totals_insert(prev, p, s.last());
        vstd::seq_lib::lemma_multiset_commutative(prev.subrange(0, p), prev.subrange(p, prev.len() as int));
        assert(prev =~= prev.subrange(0, p) + prev.subrange(p, prev.len() as int));
        assert(prev.insert(p, s.last()) =~= prev.subrange(0, p).push(s.last()) + prev.subrange(
            p,
            prev.len() as int,
        ));
        vstd::seq_lib::lemma_multiset_commutative(
            prev.subrange(0, p).push(s.last()),
            prev.subrange(p, prev.len() as int),
        );
        assert(s =~= s.drop_last().push(s.last()));
        broadcast use vstd::seq_lib::group_to_multiset_ensures;
    }
}

} // verus!

verus! {

/// `s` is ordered by wasted bytes, most first.
pub open spec fn waste_descending(s: Seq<DuplicateGroup>) -> bool {
    forall|i: int, j: int| 0 <= i < j < s.len() ==> waste(#[trigger] s[i]) >= waste(#[trigger] s[j])
}

pub open spec fn waste_pred(k: u64) -> spec_fn(DuplicateGroup) -> bool {
    |g: DuplicateGroup| waste(g) == k
}

proof fn lemma_insert_pos_split(sorted: Seq<DuplicateGroup>, k: u64)
    requires
        waste_descending(sorted),
    ensures
        insert_pos(sorted, k) <= sorted.len(),
        forall|i: int| 0 <= i < insert_pos(sorted, k) ==> waste(#[trigger] sorted[i]) >= k,
        forall|i: int| insert_pos(sorted, k) <= i < sorted.len() ==> waste(#[trigger] sorted[i]) < k,
    decreases sorted.len(),
{
    if sorted.len() > 0 && waste(sorted[0]) >= k {
        let t = sorted.drop_first();
        assert(waste_descending(t)) by {
            assert forall|i: int, j: int| 0 <= i < j < t.len() implies waste(#[trigger] t[i])
                >= waste(#[trigger] t[j]) by {
                assert(t[i] == sorted[i + 1] && t[j] == sorted[j + 1]);
            }
        }
        lemma_insert_pos_split(t, k);
        assert forall|i: int| 0 <= i < insert_pos(sorted, k) implies waste(#[trigger] sorted[i])
            >= k by {
            if i > 0 {
                assert(sorted[i] == t[i - 1]);
            }
        }
        assert forall|i: int| insert_pos(sorted, k) <= i < sorted.len() implies waste(
            #[trigger] sorted[i],
        ) < k by {
            assert(sorted[i] == t[i - 1]);
        }
    } else if sorted.len() > 0 {
        assert forall|i: int| 0 <= i < sorted.len() implies waste(#[trigger] sorted[i]) < k by {
            if i > 0 {
                assert(waste(sorted[0]) >= waste(sorted[i]));
            }
        }
    }
}

/// The order that `sort_by_waste` gives puts the groups that waste more
/// first.
pub proof fn law_sort_orders_by_waste(s: Seq<DuplicateGroup>)
    ensures
        waste_descending(sort_by_waste(s)),
    decreases s.len(),
{
    if s.len() > 0 {
        let prev = sort_by_waste(s.drop_last());
        law_sort_orders_by_waste(s.drop_last());
        let x = s.last();
        let k = waste(x);
        lemma_insert_pos_split(prev, k);
        let p = insert_pos(prev, k) as int;
        let r = prev.insert(p, x);
        assert forall|i: int, j: int| 0 <= i < j < r.len() implies waste(#[trigger] r[i]) >= waste(
            #[trigger] r[j],
        ) by {
            if j < p {
                assert(r[i] == prev[i] && r[j] == prev[j]);
            } else if j == p {
                assert(r[i] == prev[i]);
            } else if i < p {
                assert(r[i] == prev[i] && r[j] == prev[j - 1]);
            } else if i == p {
                assert(r[j] == prev[j - 1]);
            } else {
                assert(r[i] == prev[i - 1] && r[j] == prev[j - 1]);
            }
        }
    }
}

proof fn lemma_filter_none(b: Seq<DuplicateGroup>, k: u64)
    requires
        forall|i: int| 0 <= i < b.len() ==> waste(#[trigger] b[i]) != k,
    ensures
        b.filter(waste_pred(k)) == Seq::<DuplicateGroup>::empty(),
    decreases b.len(),
{
    reveal(Seq::filter);
    if b.len() > 0 {
        lemma_filter_none(b.drop_last(), k);
    }
    assert(b.filter(waste_pred(k)) =~= Seq::<DuplicateGroup>::empty());
}

/// Groups that waste the same number of bytes keep their relative order: for
/// every amount `k`, the groups wasting `k` come in the order of `s`.
pub proof fn law_sort_is_stable(s: Seq<DuplicateGroup>, k: u64)
    ensures
        sort_by_waste(s).filter(waste_pred(k)) == s.filter(waste_pred(k)),
    decreases s.len(),
{
    if s.len() == 0 {
        return;
    }
    let prev = sort_by_waste(s.drop_last());
    law_sort_is_stable(s.drop_last(), k);
    law_sort_orders_by_waste(s.drop_last());
    let x = s.last();
    let kx = waste(x);
    lemma_insert_pos_split(prev, kx);
    let p = insert_pos(prev, kx) as int;
    let a = prev.subrange(0, p);
    let b = prev.subrange(p, prev.len() as int);
    let pred = waste_pred(k);
    assert(prev =~= a + b);
    assert(prev.insert(p, x) =~= a + (seq![x] + b));
    Seq::filter_distributes_over_add(a, b, pred);
    Seq::filter_distributes_over_add(seq![x] + b, Seq::empty(), pred);
    Seq::filter_distributes_over_add(a, seq![x] + b, pred);
    Seq::filter_distributes_over_add(seq![x], b, pred);
    assert(seq![x] =~= Seq::<DuplicateGroup>::empty().push(x));
    Seq::<DuplicateGroup>::empty().lemma_filter_push(x, pred);
    assert(Seq::<DuplicateGroup>::empty().filter(pred) =~= Seq::<DuplicateGroup>::empty()) by {
        reveal(Seq::filter);
    }
    assert(s =~= s.drop_last().push(x));
    s.drop_last().lemma_filter_push(x, pred);
    if kx == k {
        assert forall|i: int| 0 <= i < b.len() implies waste(#[trigger] b[i]) != k by {
            assert(b[i] == prev[p + i]);
        }
        lemma_filter_none(b, k);
        assert(a.filter(pred) + b.filter(pred) =~= a.filter(pred));
        assert(sort_by_waste(s).filter(pred) =~= a.filter(pred).push(x));
    } else {
        assert(sort_by_waste(s).filter(pred) =~= a.filter(pred) + b.filter(pred));
    }
}

proof fn lemma_id_count_insert(a: Seq<DuplicateGroup>, p: int, x: DuplicateGroup, v: FileId)
    requires
        0 <= p <= a.len(),
    ensures
        id_count(all_files(group_views(a.insert(p, x))), v) == id_count(all_files(group_views(a)), v)
            + id_count(x.files@, v),
    decreases a.len(),
{
    let b = a.insert(p, x);
    assert(group_views(b).drop_last() =~= group_views(b.drop_last()));
    assert(group_views(b).last() == group_view(b.last()));
    if p == a.len() {
        assert(b.drop_last() =~= a);
        lemma_id_count_concat(all_files(group_views(a)), x.files@, v);
    } else {
        lemma_id_count_insert(a.drop_last(), p, x, v);
        assert(b.drop_last() =~= a.drop_last().insert(p, x));
        assert(b.last() == a.last());
        assert(group_views(a).drop_last() =~= group_views(a.drop_last()));
        assert(group_views(a).last() == group_view(a.last()));
        lemma_id_count_concat(all_files(group_views(b.drop_last())), a.last().files@, v);
        lemma_id_count_concat(all_files(group_views(a.drop_last())), a.last().files@, v);
    }
}

/// Ordering groups by waste holds every file identity as often as before.
proof fn lemma_sort_id_count(s: Seq<DuplicateGroup>, v: FileId)
    ensures
        id_count(all_files(group_views(sort_by_waste(s))), v) == id_count(all_files(group_views(s)), v),
    decreases s.len(),
{
    if s.len() > 0 {
        let prev = sort_by_waste(s.drop_last());
        lemma_sort_id_count(s.drop_last(), v);
        law_sort_keeps_totals(s.drop_last());
        lemma_insert_pos_le(prev, waste(s.last()));
        lemma_id_count_insert(prev, insert_pos(prev, waste(s.last())) as int, s.last(), v);
        assert(group_views(s).drop_last() =~= group_views(s.drop_last()));
        assert(group_views(s).last() == group_view(s.last()));
        lemma_id_count_concat(all_files(group_views(s.drop_last())), s.last().files@, v);
    }
}

/// A reported group holds two or more files, all of its size, all carrying
/// its full digest.
pub open spec fn true_duplicates(g: DuplicateGroup) -> bool {
    &&& g.files@.len() >= 2
    &&& g.hash is Some
    &&& all_carry(g.files@, g.hash->0, true)
    &&& forall|j: int| 0 <= j < g.files@.len() ==> (#[trigger] g.files@[j]).size == g.size
}

/// What a run that is not paranoid reports, from the scanned files on: the
/// groups that `finish` orders (those of the full-digest pass, after size
/// grouping and the partial-digest pass) each hold two or more files of the
/// group's size carrying the group's full digest, and no physical file
/// appears twice across them.
pub proof fn law_run_reports_duplicates(
    files: Seq<FileEntry>,
    include_empty: bool,
    sized: Seq<DuplicateGroup>,
    partial_hs: Seq<Seq<[u8; 32]>>,
    partial: Seq<DuplicateGroup>,
    full_hs: Seq<Seq<[u8; 32]>>,
    checked: Seq<DuplicateGroup>,
)
    requires
        distinct_ids(files),
        size_groups(sized, files, include_empty),
        digest_lists_fit(sized, partial_hs),
        group_views(partial) == regroup_view(sized, partial_hs, false),
        digest_lists_fit(partial, full_hs),
        group_views(checked) == regroup_view(partial, full_hs, true),
    ensures
        forall|i: int|
            0 <= i < sort_by_waste(checked).len() ==> true_duplicates(#[trigger] sort_by_waste(checked)[i]),
        distinct_ids(all_files(group_views(sort_by_waste(checked)))),
{
    broadcast use vstd::seq_lib::group_to_multiset_ensures;

    let sorted = sort_by_waste(checked);
    law_sort_keeps_totals(checked);
    assert forall|i: int| 0 <= i < sorted.len() implies true_duplicates(#[trigger] sorted[i]) by {
        let x = sorted[i];
        assert(sorted.contains(x));
        assert(sorted.to_multiset().count(x) > 0);
        assert(checked.contains(x));
        let j = choose|j: int| 0 <= j < checked.len() && checked[j] == x;
        assert(group_views(checked)[j] == group_view(checked[j]));
        law_reported_groups_share_size_and_digest(
            files,
            include_empty,
            sized,
            partial_hs,
            partial,
            full_hs,
            j,
        );
    }
    law_no_file_reported_twice(files, include_empty, sized, partial_hs, partial, full_hs);
    let before = all_files(group_views(checked));
    let after = all_files(group_views(sorted));
    lemma_distinct_ids_count(before);
    assert forall|v: FileId| #[trigger] id_count(after, v) <= 1 by {
        lemma_sort_id_count(checked, v);
        assert(id_count(before, v) <= 1);
    }
    lemma_distinct_ids_count(after);
}

} // verus!
