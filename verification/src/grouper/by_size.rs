use std::collections::HashMap;
use vstd::prelude::*;

use crate::grouper::DuplicateGroup;
use crate::scanner::FileEntry;

verus! {

broadcast use vstd::std_specs::hash::group_hash_axioms;

/// The files that take part in size grouping: all of them, or all but the
/// empty ones.
pub open spec fn kept_files(files: Seq<FileEntry>, include_empty: bool) -> Seq<FileEntry> {
    files.filter(keep_pred(include_empty))
}

pub open spec fn keep_pred(include_empty: bool) -> spec_fn(FileEntry) -> bool {
    |f: FileEntry| include_empty || f.size != 0
}

pub open spec fn size_pred(size: u64) -> spec_fn(FileEntry) -> bool {
    |f: FileEntry| f.size == size
}

/// The distinct sizes of `s`, in the order in which they first occur.
pub open spec fn first_seen_sizes(s: Seq<FileEntry>) -> Seq<u64>
    decreases s.len(),
{
    if s.len() == 0 {
        Seq::empty()
    } else {
        let prev = first_seen_sizes(s.drop_last());
        if prev.contains(s.last().size) {
            prev
        } else {
            prev.push(s.last().size)
        }
    }
}

/// The files of `s` that have size `size`, in their order in `s`.
pub open spec fn files_of_size(s: Seq<FileEntry>, size: u64) -> Seq<FileEntry> {
    s.filter(size_pred(size))
}

/// The sizes shared by two or more files, in order of first occurrence.
pub open spec fn candidate_sizes(s: Seq<FileEntry>) -> Seq<u64> {
    first_seen_sizes(s).filter(shared_pred(s))
}

/// How many sizes occur exactly once.
pub open spec fn unique_size_count(s: Seq<FileEntry>) -> nat {
    first_seen_sizes(s).filter(single_pred(s)).len()
}

pub open spec fn shared_pred(s: Seq<FileEntry>) -> spec_fn(u64) -> bool {
    |z: u64| files_of_size(s, z).len() >= 2
}

pub open spec fn single_pred(s: Seq<FileEntry>) -> spec_fn(u64) -> bool {
    |z: u64| files_of_size(s, z).len() == 1
}

/// `groups` holds, for each size in `sizes`, the unhashed group of the files
/// of `s` with that size.
pub open spec fn groups_for_sizes(groups: Seq<DuplicateGroup>, sizes: Seq<u64>, s: Seq<FileEntry>) -> bool {
    &&& groups.len() == sizes.len()
    &&& forall|i: int|
        0 <= i < groups.len() ==> {
            &&& (#[trigger] groups[i]).hash is None
            &&& groups[i].size == sizes[i]
            &&& groups[i].files@ == files_of_size(s, sizes[i])
        }
}

/// The groups that size grouping of `files` produces.
pub open spec fn size_groups(groups: Seq<DuplicateGroup>, files: Seq<FileEntry>, include_empty: bool) -> bool {
    let k = kept_files(files, include_empty);
    groups_for_sizes(groups, candidate_sizes(k), k)
}

/// Number of files across `groups`.
pub open spec fn group_file_total(groups: Seq<DuplicateGroup>) -> nat
    decreases groups.len(),
{
    if groups.len() == 0 {
        0
    } else {
        group_file_total(groups.drop_last()) + groups.last().files@.len()
    }
}

proof fn lemma_total_push(groups: Seq<DuplicateGroup>, g: DuplicateGroup)
    ensures
        group_file_total(groups.push(g)) == group_file_total(groups) + g.files@.len(),
{
    assert(groups.push(g).drop_last() =~= groups);
}

proof fn lemma_total_update(groups: Seq<DuplicateGroup>, j: int, g: DuplicateGroup)
    requires
        0 <= j < groups.len(),
    ensures
        group_file_total(groups.update(j, g)) == group_file_total(groups) - groups[j].files@.len()
            + g.files@.len(),
    decreases groups.len(),
{
    let u = groups.update(j, g);
    if j == groups.len() - 1 {
        assert(u.drop_last() =~= groups.drop_last());
    } else {
        lemma_total_update(groups.drop_last(), j, g);
        assert(u.drop_last() =~= groups.drop_last().update(j, g));
    }
}

proof fn lemma_total_prefix(groups: Seq<DuplicateGroup>, i: int)
    requires
        0 <= i <= groups.len(),
    ensures
        group_file_total(groups.subrange(0, i)) <= group_file_total(groups),
    decreases groups.len() - i,
{
    if i < groups.len() {
        lemma_total_prefix(groups, i + 1);
        assert(groups.subrange(0, i + 1).drop_last() =~= groups.subrange(0, i));
    } else {
        assert(groups.subrange(0, i) =~= groups);
    }
}

/// Counts that describe a size grouping.
#[derive(Debug)]
pub struct SizeGroupStats {
    pub total_files: usize,
    pub unique_sizes: usize,
    pub candidate_groups: usize,
    pub candidate_files: usize,
    pub empty_files_skipped: usize,
}

impl Default for SizeGroupStats {
    fn default() -> (r: Self)
        ensures
            r.total_files == 0,
            r.unique_sizes == 0,
            r.candidate_groups == 0,
            r.candidate_files == 0,
            r.empty_files_skipped == 0,
    {
        SizeGroupStats {
            total_files: 0,
            unique_sizes: 0,
            candidate_groups: 0,
            candidate_files: 0,
            empty_files_skipped: 0,
        }
    }
}

/// Groups files by size, dropping empty files unless `include_empty`, and
/// keeps the sizes that two or more files share, in order of first
/// occurrence; each group holds its files in their input order.
pub fn group_by_size(files: Vec<FileEntry>, include_empty: bool) -> (r: Vec<DuplicateGroup>)
    ensures
        size_groups(r@, files@, include_empty),
{
    let (groups, _stats) = group_by_size_with_stats(files, include_empty);
    groups
}

/// `group_by_size`, together with counts: all files, files skipped as empty,
/// sizes that occur once, candidate groups and the files in them.
pub fn group_by_size_with_stats(files: Vec<FileEntry>, include_empty: bool) -> (r: (
    Vec<DuplicateGroup>,
    SizeGroupStats,
))
    ensures
        size_groups(r.0@, files@, include_empty),
        r.1.total_files == files@.len(),
        r.1.empty_files_skipped == files@.len() - kept_files(files@, include_empty).len(),
        r.1.unique_sizes == unique_size_count(kept_files(files@, include_empty)),
        r.1.candidate_groups == r.0@.len(),
        r.1.candidate_files == group_file_total(r.0@),
        r.1.total_files == r.1.empty_files_skipped + r.1.unique_sizes + r.1.candidate_files,
{
    let total = files.len();
    let ghost all = files@;
    let ghost keep = keep_pred(include_empty);
    let mut index: HashMap<u64, usize> = HashMap::new();
    let mut buckets: Vec<DuplicateGroup> = Vec::new();
    let mut skipped: usize = 0;
    let mut pos: usize = 0;
    assert(all.subrange(0, 0).filter(keep) =~= Seq::<FileEntry>::empty()) by {
        reveal(Seq::filter);
    }
    for file in it: files
        invariant
            all == files@,
            total == all.len(),
            it.seq() == all,
            pos == it.index(),
            pos <= total,
            keep == keep_pred(include_empty),
            skipped == pos - kept_files(all.subrange(0, pos as int), include_empty).len(),
            first_seen_sizes(kept_files(all.subrange(0, pos as int), include_empty)).no_duplicates(),
            groups_for_sizes(
                buckets@,
                first_seen_sizes(kept_files(all.subrange(0, pos as int), include_empty)),
                kept_files(all.subrange(0, pos as int), include_empty),
            ),
            forall|z: u64| #[trigger]
                index@.contains_key(z) <==> first_seen_sizes(
                    kept_files(all.subrange(0, pos as int), include_empty),
                ).contains(z),
            forall|z: u64| #[trigger]
                index@.contains_key(z) ==> index@[z] < buckets@.len() && first_seen_sizes(
                    kept_files(all.subrange(0, pos as int), include_empty),
                )[index@[z] as int] == z,
            group_file_total(buckets@) == kept_files(all.subrange(0, pos as int), include_empty).len(),
    {
        let ghost p = all.subrange(0, pos as int).filter(keep);
        let ghost fs = first_seen_sizes(p);
        proof {
            assert(all.subrange(0, pos + 1) =~= all.subrange(0, pos as int).push(file));
            all.subrange(0, pos as int).lemma_filter_push(file, keep);
            p.lemma_filter_len(keep);
        }
        if !include_empty && file.size == 0 {
            skipped += 1;
        } else {
            let ghost p2 = p.push(file);
            proof {
                assert(p2.drop_last() =~= p);
                assert forall|z: u64| true implies files_of_size(p2, z) == (if file.size == z {
                    files_of_size(p, z).push(file)
                } else {
                    files_of_size(p, z)
                }) by {
                    p.lemma_filter_push(file, size_pred(z));
                }
            }
            let size = file.size;
            match index.get(&size) {
                Some(j_ref) => {
                    let j = *j_ref;
                    let ghost old_buckets = buckets@;
                    let mut g = buckets.remove(j);
                    let ghost g0 = g;
                    g.files.push(file);
                    buckets.insert(j, g);
                    proof {
                        assert(buckets@ =~= old_buckets.update(j as int, g));
                        lemma_total_update(old_buckets, j as int, g);
                        assert(first_seen_sizes(p2) == fs);
                        assert forall|i: int| 0 <= i < buckets@.len() implies {
                            &&& (#[trigger] buckets@[i]).hash is None
                            &&& buckets@[i].size == fs[i]
                            &&& buckets@[i].files@ == files_of_size(p2, fs[i])
                        } by {
                            if i != j {
                                assert(fs[i] != size);
                            }
                        }
                    }
                },
                None => {
                    let ghost old_buckets = buckets@;
                    let mut v: Vec<FileEntry> = Vec::new();
                    v.push(file);
                    let g = DuplicateGroup::new(size, v);
                    index.insert(size, buckets.len());
                    buckets.push(g);
                    proof {
                        lemma_total_push(old_buckets, g);
                        let fs2 = fs.push(size);
                        assert(first_seen_sizes(p2) == fs2);
                        assert(files_of_size(p, size) =~= Seq::<FileEntry>::empty()) by {
                            reveal(Seq::filter);
                            assert forall|i: int| 0 <= i < p.len() implies p[i].size != size by {
                                if p[i].size == size {
                                    lemma_size_seen(p, i);
                                }
                            }
                            lemma_filter_none(p, size);
                        }
                        assert(fs2.no_duplicates());
                        assert forall|i: int| 0 <= i < buckets@.len() implies {
                            &&& (#[trigger] buckets@[i]).hash is None
                            &&& buckets@[i].size == fs2[i]
                            &&& buckets@[i].files@ == files_of_size(p2, fs2[i])
                        } by {
                            if i < fs.len() {
                                assert(fs[i] != size);
                            } else {
                                assert(v@ =~= Seq::<FileEntry>::empty().push(file));
                            }
                        }
                        assert forall|z: u64| #[trigger] index@.contains_key(z) implies index@[z]
                            < buckets@.len() && fs2[index@[z] as int] == z by {
                            if z != size {
                                assert(fs.contains(z));
                            }
                        }
                        assert forall|z: u64| #[trigger] index@.contains_key(z) <==> fs2.contains(z) by {
                            if fs2.contains(z) && z != size {
                                let w = choose|w: int| 0 <= w < fs2.len() && fs2[w] == z;
                                assert(fs[w] == z);
                            }
                        }
                    }
                },
            }
        }
        pos += 1;
    }
    let ghost k = all.filter(keep);
    assert(all.subrange(0, total as int) =~= all);
    let ghost fs = first_seen_sizes(k);
    let ghost bs = buckets@;
    let ghost big = shared_pred(k);
    let ghost one = single_pred(k);
    let nb = buckets.len();
    let mut groups: Vec<DuplicateGroup> = Vec::new();
    let mut unique: usize = 0;
    let mut candidate_files: usize = 0;
    let mut i: usize = 0;
    assert(fs.subrange(0, 0).filter(big) =~= Seq::<u64>::empty()) by {
        reveal(Seq::filter);
    }
    assert(fs.subrange(0, 0).filter(one) =~= Seq::<u64>::empty()) by {
        reveal(Seq::filter);
    }
    for g in it2: buckets
        invariant
            it2.seq() == bs,
            bs.len() == nb,
            big == shared_pred(k),
            one == single_pred(k),
            i == it2.index(),
            i <= bs.len(),
            groups_for_sizes(bs, fs, k),
            group_file_total(bs) == k.len(),
            k.len() <= total,
            groups_for_sizes(groups@, fs.subrange(0, i as int).filter(big), k),
            unique == fs.subrange(0, i as int).filter(one).len(),
            unique <= i,
            candidate_files == group_file_total(groups@),
            candidate_files <= group_file_total(bs.subrange(0, i as int)),
    {
        proof {
            assert(fs.subrange(0, i + 1) =~= fs.subrange(0, i as int).push(fs[i as int]));
            fs.subrange(0, i as int).lemma_filter_push(fs[i as int], big);
            fs.subrange(0, i as int).lemma_filter_push(fs[i as int], one);
            fs.subrange(0, i as int).lemma_filter_len(one);
            assert(bs.subrange(0, i + 1).drop_last() =~= bs.subrange(0, i as int));
            lemma_total_prefix(bs, i + 1);
            assert(g == bs[i as int]);
            assert(i < bs.len());
            assert(bs[i as int].files@ == files_of_size(k, fs[i as int]));
        }
        let ghost c0 = fs.subrange(0, i as int).filter(big);
        let ghost c = fs.subrange(0, i + 1).filter(big);
        let n = g.files.len();
        proof {
            assert(big(fs[i as int]) <==> n >= 2);
            assert(one(fs[i as int]) <==> n == 1);
            assert(fs.subrange(0, i as int).push(fs[i as int]).filter(big) == if big(fs[i as int]) {
                c0.push(fs[i as int])
            } else {
                c0
            });
            assert(c == fs.subrange(0, i as int).push(fs[i as int]).filter(big));
        }
        if n == 1 {
            unique += 1;
        }
        if n >= 2 {
            let ghost old_groups = groups@;
            proof {
                lemma_total_push(old_groups, g);
                assert(c == c0.push(fs[i as int]));
            }
            candidate_files += n;
            groups.push(g);
            proof {
                assert forall|j: int| 0 <= j < groups@.len() implies {
                    &&& (#[trigger] groups@[j]).hash is None
                    &&& groups@[j].size == c[j]
                    &&& groups@[j].files@ == files_of_size(k, c[j])
                } by {
                    if j < old_groups.len() {
                        assert(groups@[j] == old_groups[j]);
                        assert(c[j] == c0[j]);
                    }
                }
            }
        } else {
            assert(c == c0);
        }
        i += 1;
    }
    assert(fs.subrange(0, bs.len() as int) =~= fs);
    let stats = SizeGroupStats {
        total_files: total,
        unique_sizes: unique,
        candidate_groups: groups.len(),
        candidate_files,
        empty_files_skipped: skipped,
    };
    proof {
        law_size_stats_add_up(groups@, all, include_empty);
    }
    (groups, stats)
}

/// A size recorded among the first-seen sizes occurs in the sequence, and the
/// other way round.
proof fn lemma_size_seen(s: Seq<FileEntry>, i: int)
    requires
        0 <= i < s.len(),
    ensures
        first_seen_sizes(s).contains(s[i].size),
    decreases s.len(),
{
    let prev = first_seen_sizes(s.drop_last());
    let x = s.last().size;
    if i < s.len() - 1 {
        lemma_size_seen(s.drop_last(), i);
        assert(s.drop_last()[i] == s[i]);
        if !prev.contains(x) {
            let w = choose|w: int| 0 <= w < prev.len() && prev[w] == s[i].size;
            assert(prev.push(x)[w] == s[i].size);
        }
    } else if !prev.contains(x) {
        assert(prev.push(x)[prev.len() as int] == x);
    }
}

proof fn lemma_filter_none(s: Seq<FileEntry>, size: u64)
    requires
        forall|i: int| 0 <= i < s.len() ==> s[i].size != size,
    ensures
        files_of_size(s, size).len() == 0,
    decreases s.len(),
{
    reveal(Seq::filter);
    if s.len() > 0 {
        lemma_filter_none(s.drop_last(), size);
    }
}

proof fn lemma_first_seen_sizes_distinct(s: Seq<FileEntry>)
    ensures
        first_seen_sizes(s).no_duplicates(),
    decreases s.len(),
{
    if s.len() > 0 {
        lemma_first_seen_sizes_distinct(s.drop_last());
    }
}

proof fn lemma_filter_keeps_distinct(s: Seq<u64>, p: spec_fn(u64) -> bool)
    requires
        s.no_duplicates(),
    ensures
        s.filter(p).no_duplicates(),
    decreases s.len(),
{
    reveal(Seq::filter);
    if s.len() > 0 {
        lemma_filter_keeps_distinct(s.drop_last(), p);
        let prev = s.drop_last().filter(p);
        if p(s.last()) {
            assert forall|i: int| 0 <= i < prev.len() implies prev[i] != s.last() by {
                s.drop_last().lemma_filter_contains_rev(p, prev[i]);
                assert(prev.contains(prev[i]));
            }
        }
    }
}

/// Size grouping only groups files that can be duplicates: each group holds
/// two or more of the files given (not empty ones unless those are
/// included), all of the group's size, and no two groups share a size.
pub proof fn law_size_groups_share_size(
    groups: Seq<DuplicateGroup>,
    files: Seq<FileEntry>,
    include_empty: bool,
)
    requires
        size_groups(groups, files, include_empty),
    ensures
        forall|i: int| 0 <= i < groups.len() ==> (#[trigger] groups[i]).files@.len() >= 2,
        forall|i: int, j: int|
            0 <= i < groups.len() && 0 <= j < groups[i].files@.len() ==> {
                &&& (#[trigger] groups[i].files@[j]).size == groups[i].size
                &&& files.contains(groups[i].files@[j])
                &&& (!include_empty ==> groups[i].files@[j].size != 0)
            },
        forall|i: int, j: int|
            0 <= i < groups.len() && 0 <= j < groups.len() && i != j ==> (#[trigger] groups[i]).size
                != (#[trigger] groups[j]).size,
{
    let k = kept_files(files, include_empty);
    let sizes = candidate_sizes(k);
    assert forall|i: int| 0 <= i < groups.len() implies (#[trigger] groups[i]).files@.len() >= 2 by {
        first_seen_sizes(k).lemma_filter_pred(shared_pred(k), i);
    }
    assert forall|i: int, j: int| 0 <= i < groups.len() && 0 <= j < groups[i].files@.len() implies {
        &&& (#[trigger] groups[i].files@[j]).size == groups[i].size
        &&& files.contains(groups[i].files@[j])
        &&& (!include_empty ==> groups[i].files@[j].size != 0)
    } by {
        let f = groups[i].files@[j];
        k.lemma_filter_pred(size_pred(sizes[i]), j);
        assert(files_of_size(k, sizes[i]).contains(f));
        k.lemma_filter_contains_rev(size_pred(sizes[i]), f);
        let w = choose|w: int| 0 <= w < k.len() && k[w] == f;
        files.lemma_filter_pred(keep_pred(include_empty), w);
        assert(k.contains(f));
        files.lemma_filter_contains_rev(keep_pred(include_empty), f);
    }
    lemma_first_seen_sizes_distinct(k);
    lemma_filter_keeps_distinct(first_seen_sizes(k), shared_pred(k));
}

/// Size grouping misses no candidate: every file given (unless it is an
/// empty one left out) whose size another such file shares lies in the group
/// of its size.
pub proof fn law_size_groups_complete(
    groups: Seq<DuplicateGroup>,
    files: Seq<FileEntry>,
    include_empty: bool,
    f: FileEntry,
)
    requires
        size_groups(groups, files, include_empty),
        kept_files(files, include_empty).contains(f),
        files_of_size(kept_files(files, include_empty), f.size).len() >= 2,
    ensures
        exists|i: int|
            0 <= i < groups.len() && (#[trigger] groups[i]).size == f.size && groups[i].files@.contains(
                f,
            ),
{
    let k = kept_files(files, include_empty);
    let w = choose|w: int| 0 <= w < k.len() && k[w] == f;
    lemma_size_seen(k, w);
    let seen = first_seen_sizes(k);
    let v = choose|v: int| 0 <= v < seen.len() && seen[v] == f.size;
    seen.lemma_filter_contains(shared_pred(k), v);
    let sizes = candidate_sizes(k);
    let i = choose|i: int| 0 <= i < sizes.len() && sizes[i] == f.size;
    k.lemma_filter_contains(size_pred(f.size), w);
    assert(groups[i].size == f.size && groups[i].files@.contains(f));
}

/// The number of files of `s` whose size is one of `zs`, counted size by
/// size.
pub open spec fn count_by_sizes(s: Seq<FileEntry>, zs: Seq<u64>) -> nat
    decreases zs.len(),
{
    if zs.len() == 0 {
        0
    } else {
        count_by_sizes(s, zs.drop_last()) + files_of_size(s, zs.last()).len()
    }
}

/// How many times `v` occurs in `zs`.
spec fn occurrences(zs: Seq<u64>, v: u64) -> nat
    decreases zs.len(),
{
    if zs.len() == 0 {
        0
    } else {
        occurrences(zs.drop_last(), v) + if zs.last() == v {
            1nat
        } else {
            0nat
        }
    }
}

proof fn lemma_count_push_file(s: Seq<FileEntry>, x: FileEntry, zs: Seq<u64>)
    ensures
        count_by_sizes(s.push(x), zs) == count_by_sizes(s, zs) + occurrences(zs, x.size),
    decreases zs.len(),
{
    if zs.len() > 0 {
        lemma_count_push_file(s, x, zs.drop_last());
        s.lemma_filter_push(x, size_pred(zs.last()));
    }
}

proof fn lemma_occurrences_distinct(zs: Seq<u64>, v: u64)
    requires
        zs.no_duplicates(),
    ensures
        occurrences(zs, v) == (if zs.contains(v) {
            1nat
        } else {
            0nat
        }),
    decreases zs.len(),
{
    if zs.len() > 0 {
        let p = zs.drop_last();
        assert(p.no_duplicates()) by {
            assert forall|i: int, j: int| 0 <= i < p.len() && 0 <= j < p.len() && i != j implies p[i]
                != p[j] by {
                assert(p[i] == zs[i] && p[j] == zs[j]);
            }
        }
        lemma_occurrences_distinct(p, v);
        if zs.last() == v {
            if p.contains(v) {
                let w = choose|w: int| 0 <= w < p.len() && p[w] == v;
                assert(zs[w] == zs[zs.len() - 1]);
            }
        } else {
            if zs.contains(v) {
                let w = choose|w: int| 0 <= w < zs.len() && zs[w] == v;
                assert(p[w] == v);
            }
            if p.contains(v) {
                let w = choose|w: int| 0 <= w < p.len() && p[w] == v;
                assert(zs[w] == v);
            }
        }
    } else {
        assert(!zs.contains(v));
    }
}

/// Every file is counted once under the distinct sizes of the sequence.
proof fn lemma_count_all_sizes(s: Seq<FileEntry>)
    ensures
        count_by_sizes(s, first_seen_sizes(s)) == s.len(),
    decreases s.len(),
{
    if s.len() > 0 {
        let p = s.drop_last();
        let x = s.last();
        let fp = first_seen_sizes(p);
        lemma_count_all_sizes(p);
        assert(p.push(x) =~= s);
        lemma_first_seen_sizes_distinct(p);
        lemma_first_seen_sizes_distinct(s);
        lemma_count_push_file(p, x, first_seen_sizes(s));
        lemma_occurrences_distinct(first_seen_sizes(s), x.size);
        lemma_size_seen(s, s.len() - 1);
        if !fp.contains(x.size) {
            assert(first_seen_sizes(s) == fp.push(x.size));
            assert(fp.push(x.size).drop_last() =~= fp);
            assert forall|i: int| 0 <= i < p.len() implies p[i].size != x.size by {
                lemma_size_seen(p, i);
            }
            lemma_filter_none(p, x.size);
            lemma_count_push_file(p, x, fp);
            lemma_occurrences_distinct(fp, x.size);
        }
    }
}

proof fn lemma_seen_sizes_occur(s: Seq<FileEntry>, i: int)
    requires
        0 <= i < first_seen_sizes(s).len(),
    ensures
        files_of_size(s, first_seen_sizes(s)[i]).len() >= 1,
    decreases s.len(),
{
    let p = s.drop_last();
    let fp = first_seen_sizes(p);
    let z = first_seen_sizes(s)[i];
    assert(p.push(s.last()) =~= s);
    p.lemma_filter_push(s.last(), size_pred(z));
    if i < fp.len() {
        assert(fp[i] == z);
        lemma_seen_sizes_occur(p, i);
    }
}

/// Counting the distinct sizes splits into the sizes held once (one file
/// each) and those held by two or more files.
proof fn lemma_count_split(s: Seq<FileEntry>, zs: Seq<u64>)
    requires
        forall|i: int| 0 <= i < zs.len() ==> files_of_size(s, #[trigger] zs[i]).len() >= 1,
    ensures
        count_by_sizes(s, zs) == zs.filter(single_pred(s)).len() + count_by_sizes(
            s,
            zs.filter(shared_pred(s)),
        ),
    decreases zs.len(),
{
    if zs.len() > 0 {
        let p = zs.drop_last();
        assert forall|i: int| 0 <= i < p.len() implies files_of_size(s, #[trigger] p[i]).len() >= 1 by {
            assert(p[i] == zs[i]);
        }
        lemma_count_split(s, p);
        assert(p.push(zs.last()) =~= zs);
        p.lemma_filter_push(zs.last(), single_pred(s));
        p.lemma_filter_push(zs.last(), shared_pred(s));
        let sh = p.filter(shared_pred(s));
        assert(sh.push(zs.last()).drop_last() =~= sh);
        assert(files_of_size(s, zs[zs.len() - 1]).len() >= 1);
    }
}

proof fn lemma_group_total_sizes(groups: Seq<DuplicateGroup>, sizes: Seq<u64>, s: Seq<FileEntry>)
    requires
        groups_for_sizes(groups, sizes, s),
    ensures
        group_file_total(groups) == count_by_sizes(s, sizes),
    decreases groups.len(),
{
    if groups.len() > 0 {
        let gp = groups.drop_last();
        let sp = sizes.drop_last();
        assert(groups_for_sizes(gp, sp, s)) by {
            assert forall|i: int| 0 <= i < gp.len() implies {
                &&& (#[trigger] gp[i]).hash is None
                &&& gp[i].size == sp[i]
                &&& gp[i].files@ == files_of_size(s, sp[i])
            } by {
                assert(gp[i] == groups[i] && sp[i] == sizes[i]);
            }
        }
        lemma_group_total_sizes(gp, sp, s);
        assert(groups[groups.len() - 1].files@ == files_of_size(s, sizes[sizes.len() - 1]));
    }
}

/// The counts of size grouping add up: every file given is either left out
/// as empty, the only one of its size, or in a candidate group.
pub proof fn law_size_stats_add_up(groups: Seq<DuplicateGroup>, files: Seq<FileEntry>, include_empty: bool)
    requires
        size_groups(groups, files, include_empty),
    ensures
        kept_files(files, include_empty).len() <= files.len(),
        files.len() == (files.len() - kept_files(files, include_empty).len()) + unique_size_count(
            kept_files(files, include_empty),
        ) + group_file_total(groups),
{
    let k = kept_files(files, include_empty);
    files.lemma_filter_len(keep_pred(include_empty));
    lemma_count_all_sizes(k);
    let fs = first_seen_sizes(k);
    assert forall|i: int| 0 <= i < fs.len() implies files_of_size(k, #[trigger] fs[i]).len() >= 1 by {
        lemma_seen_sizes_occur(k, i);
    }
    lemma_count_split(k, fs);
    lemma_group_total_sizes(groups, candidate_sizes(k), k);
}

/// Two different positions of `s` that pass `p` stay at two different
/// positions of `s.filter(p)`; the positions are returned.
pub proof fn lemma_filter_two<A>(s: Seq<A>, p: spec_fn(A) -> bool, i1: int, i2: int) -> (r: (int, int))
    requires
        0 <= i1 < s.len(),
        0 <= i2 < s.len(),
        i1 != i2,
        p(s[i1]),
        p(s[i2]),
    ensures
        0 <= r.0 < s.filter(p).len(),
        0 <= r.1 < s.filter(p).len(),
        r.0 != r.1,
        s.filter(p)[r.0] == s[i1],
        s.filter(p)[r.1] == s[i2],
    decreases s.len(),
{
    let q = s.drop_last();
    let last = s.len() - 1;
    assert(q.push(s.last()) =~= s);
    q.lemma_filter_push(s.last(), p);
    let fq = q.filter(p);
    if i1 < last && i2 < last {
        assert(q[i1] == s[i1] && q[i2] == s[i2]);
        let (a, b) = lemma_filter_two(q, p, i1, i2);
        if p(s.last()) {
            assert(fq.push(s.last())[a] == fq[a]);
            assert(fq.push(s.last())[b] == fq[b]);
        }
        (a, b)
    } else if i2 == last {
        assert(q[i1] == s[i1]);
        q.lemma_filter_contains(p, i1);
        let a = choose|a: int| 0 <= a < fq.len() && fq[a] == s[i1];
        assert(fq.push(s.last())[a] == fq[a]);
        (a, fq.len() as int)
    } else {
        assert(q[i2] == s[i2]);
        q.lemma_filter_contains(p, i2);
        let b = choose|b: int| 0 <= b < fq.len() && fq[b] == s[i2];
        assert(fq.push(s.last())[b] == fq[b]);
        (fq.len() as int, b)
    }
}

/// Two different kept files of one size lie, at different positions, in one
/// size group; the group and the positions are returned.
pub proof fn lemma_size_together(
    groups: Seq<DuplicateGroup>,
    files: Seq<FileEntry>,
    include_empty: bool,
    i1: int,
    i2: int,
) -> (r: (int, int, int))
    requires
        size_groups(groups, files, include_empty),
        0 <= i1 < kept_files(files, include_empty).len(),
        0 <= i2 < kept_files(files, include_empty).len(),
        i1 != i2,
        kept_files(files, include_empty)[i1].size == kept_files(files, include_empty)[i2].size,
    ensures
        0 <= r.0 < groups.len(),
        0 <= r.1 < groups[r.0].files@.len(),
        0 <= r.2 < groups[r.0].files@.len(),
        r.1 != r.2,
        groups[r.0].files@[r.1] == kept_files(files, include_empty)[i1],
        groups[r.0].files@[r.2] == kept_files(files, include_empty)[i2],
{
    let k = kept_files(files, include_empty);
    let z = k[i1].size;
    let (m1, m2) = lemma_filter_two(k, size_pred(z), i1, i2);
    lemma_size_seen(k, i1);
    let seen = first_seen_sizes(k);
    let w = choose|w: int| 0 <= w < seen.len() && seen[w] == z;
    seen.lemma_filter_contains(shared_pred(k), w);
    let sizes = candidate_sizes(k);
    let a = choose|a: int| 0 <= a < sizes.len() && sizes[a] == z;
    assert(groups[a].files@ == files_of_size(k, z));
    (a, m1, m2)
}

} // verus!
