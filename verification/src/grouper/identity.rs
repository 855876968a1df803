//! File identities through the grouping passes: the passes only split and
//! select, so no physical file is ever held twice.
use vstd::prelude::*;

use crate::grouper::by_hash::{
    digest_pred, first_seen_digests, group_view, group_views, regroup_view, shared_digest_pred,
    shared_digests, split_view, tag, tagged, with_digest, GroupView,
};
use crate::grouper::by_size::{
    candidate_sizes, files_of_size, first_seen_sizes, groups_for_sizes, keep_pred, kept_files,
    shared_pred, size_groups, size_pred,
};
use crate::grouper::DuplicateGroup;
use crate::scanner::walker::distinct_ids;
use crate::scanner::{FileEntry, FileId};

verus! {

/// How many entries of `fs` have identity `v`.
pub open spec fn id_count(fs: Seq<FileEntry>, v: FileId) -> nat
    decreases fs.len(),
{
    if fs.len() == 0 {
        0
    } else {
        id_count(fs.drop_last(), v) + if fs.last().file_id == v {
            1nat
        } else {
            0nat
        }
    }
}

/// The files of all groups of `vs`, group after group.
pub open spec fn all_files(vs: Seq<GroupView>) -> Seq<FileEntry>
    decreases vs.len(),
{
    if vs.len() == 0 {
        Seq::empty()
    } else {
        all_files(vs.drop_last()) + vs.last().2
    }
}

pub proof fn lemma_id_count_concat(a: Seq<FileEntry>, b: Seq<FileEntry>, v: FileId)
    ensures
        id_count(a + b, v) == id_count(a, v) + id_count(b, v),
    decreases b.len(),
{
    if b.len() > 0 {
        lemma_id_count_concat(a, b.drop_last(), v);
        assert((a + b).drop_last() =~= a + b.drop_last());
    } else {
        assert(a + b =~= a);
    }
}

proof fn lemma_id_count_positions(fs: Seq<FileEntry>, i: int, j: int)
    requires
        0 <= i < j < fs.len(),
        fs[i].file_id == fs[j].file_id,
    ensures
        id_count(fs, fs[i].file_id) >= 2,
    decreases fs.len(),
{
    let v = fs[i].file_id;
    let p = fs.drop_last();
    if j < fs.len() - 1 {
        assert(p[i] == fs[i] && p[j] == fs[j]);
        lemma_id_count_positions(p, i, j);
    } else {
        assert(p[i] == fs[i]);
        lemma_id_count_present(p, i);
    }
}

proof fn lemma_id_count_present(fs: Seq<FileEntry>, i: int)
    requires
        0 <= i < fs.len(),
    ensures
        id_count(fs, fs[i].file_id) >= 1,
    decreases fs.len(),
{
    let p = fs.drop_last();
    if i < fs.len() - 1 {
        assert(p[i] == fs[i]);
        lemma_id_count_present(p, i);
    }
}

proof fn lemma_id_count_witness(fs: Seq<FileEntry>, v: FileId) -> (i: int)
    requires
        id_count(fs, v) >= 1,
    ensures
        0 <= i < fs.len(),
        fs[i].file_id == v,
    decreases fs.len(),
{
    let p = fs.drop_last();
    if fs.last().file_id == v {
        fs.len() - 1
    } else {
        let i = lemma_id_count_witness(p, v);
        assert(fs[i] == p[i]);
        i
    }
}

/// Distinct identities means each identity is counted at most once.
pub proof fn lemma_distinct_ids_count(fs: Seq<FileEntry>)
    ensures
        distinct_ids(fs) <==> forall|v: FileId| #[trigger] id_count(fs, v) <= 1,
    decreases fs.len(),
{
    if fs.len() > 0 {
        let p = fs.drop_last();
        lemma_distinct_ids_count(p);
        if distinct_ids(fs) {
            assert(distinct_ids(p)) by {
                assert forall|i: int, j: int| 0 <= i < j < p.len() implies (#[trigger] p[i]).file_id
                    != (#[trigger] p[j]).file_id by {
                    assert(p[i] == fs[i] && p[j] == fs[j]);
                }
            }
            assert forall|v: FileId| #[trigger] id_count(fs, v) <= 1 by {
                assert(id_count(p, v) <= 1);
                if fs.last().file_id == v && id_count(p, v) >= 1 {
                    let i = lemma_id_count_witness(p, v);
                    assert(fs[i] == p[i]);
                    assert(fs[i].file_id == fs[fs.len() - 1].file_id);
                    assert(false);
                }
            }
        }
        if forall|v: FileId| #[trigger] id_count(fs, v) <= 1 {
            assert forall|i: int, j: int| 0 <= i < j < fs.len() implies (#[trigger] fs[i]).file_id
                != (#[trigger] fs[j]).file_id by {
                if fs[i].file_id == fs[j].file_id {
                    lemma_id_count_positions(fs, i, j);
                }
            }
        }
    }
}

proof fn lemma_id_count_same_ids(a: Seq<FileEntry>, b: Seq<FileEntry>, v: FileId)
    requires
        a.len() == b.len(),
        forall|i: int| 0 <= i < a.len() ==> (#[trigger] a[i]).file_id == b[i].file_id,
    ensures
        id_count(a, v) == id_count(b, v),
    decreases a.len(),
{
    if a.len() > 0 {
        assert forall|i: int| 0 <= i < a.drop_last().len() implies (
        #[trigger] a.drop_last()[i]).file_id == b.drop_last()[i].file_id by {
            assert(a.drop_last()[i] == a[i] && b.drop_last()[i] == b[i]);
        }
        lemma_id_count_same_ids(a.drop_last(), b.drop_last(), v);
        assert(a.last() == a[a.len() - 1]);
    }
}

proof fn lemma_id_count_filter(s: Seq<FileEntry>, p: spec_fn(FileEntry) -> bool, v: FileId)
    ensures
        id_count(s.filter(p), v) <= id_count(s, v),
    decreases s.len(),
{
    if s.len() > 0 {
        let q = s.drop_last();
        assert(q.push(s.last()) =~= s);
        q.lemma_filter_push(s.last(), p);
        lemma_id_count_filter(q, p, v);
        assert(q.filter(p).push(s.last()).drop_last() =~= q.filter(p));
    }
}

/// The keys of `zs` whose filter keeps `x`, counted.
spec fn matching<K>(zs: Seq<K>, pred_for: spec_fn(K) -> spec_fn(FileEntry) -> bool, x: FileEntry) -> nat
    decreases zs.len(),
{
    if zs.len() == 0 {
        0
    } else {
        matching(zs.drop_last(), pred_for, x) + if (pred_for(zs.last()))(x) {
            1nat
        } else {
            0nat
        }
    }
}

/// The identity `v` counted in the filters of `t` by each key of `zs`.
spec fn key_sum<K>(t: Seq<FileEntry>, pred_for: spec_fn(K) -> spec_fn(FileEntry) -> bool, zs: Seq<K>, v: FileId) -> nat
    decreases zs.len(),
{
    if zs.len() == 0 {
        0
    } else {
        key_sum(t, pred_for, zs.drop_last(), v) + id_count(t.filter(pred_for(zs.last())), v)
    }
}

proof fn lemma_key_sum_push<K>(
    t: Seq<FileEntry>,
    e: FileEntry,
    pred_for: spec_fn(K) -> spec_fn(FileEntry) -> bool,
    zs: Seq<K>,
    v: FileId,
)
    ensures
        key_sum(t.push(e), pred_for, zs, v) == key_sum(t, pred_for, zs, v) + if e.file_id == v {
            matching(zs, pred_for, e)
        } else {
            0nat
        },
    decreases zs.len(),
{
    if zs.len() > 0 {
        lemma_key_sum_push(t, e, pred_for, zs.drop_last(), v);
        let p = pred_for(zs.last());
        t.lemma_filter_push(e, p);
        assert(t.filter(p).push(e).drop_last() =~= t.filter(p));
    }
}

proof fn lemma_matching_at_most_one<K>(
    zs: Seq<K>,
    pred_for: spec_fn(K) -> spec_fn(FileEntry) -> bool,
    x: FileEntry,
)
    requires
        zs.no_duplicates(),
        forall|a: K, b: K| #[trigger] (pred_for(a))(x) && #[trigger] (pred_for(b))(x) ==> a == b,
    ensures
        matching(zs, pred_for, x) <= 1,
    decreases zs.len(),
{
    if zs.len() > 0 {
        let p = zs.drop_last();
        assert(p.no_duplicates()) by {
            assert forall|i: int, j: int| 0 <= i < p.len() && 0 <= j < p.len() && i != j implies p[i]
                != p[j] by {
                assert(p[i] == zs[i] && p[j] == zs[j]);
            }
        }
        lemma_matching_at_most_one(p, pred_for, x);
        if (pred_for(zs.last()))(x) && matching(p, pred_for, x) >= 1 {
            let i = lemma_matching_witness(p, pred_for, x);
            assert(p[i] == zs[i]);
            assert(zs[i] == zs[zs.len() - 1]);
        }
    }
}

proof fn lemma_matching_witness<K>(
    zs: Seq<K>,
    pred_for: spec_fn(K) -> spec_fn(FileEntry) -> bool,
    x: FileEntry,
) -> (i: int)
    requires
        matching(zs, pred_for, x) >= 1,
    ensures
        0 <= i < zs.len(),
        (pred_for(zs[i]))(x),
    decreases zs.len(),
{
    if (pred_for(zs.last()))(x) {
        zs.len() - 1
    } else {
        let i = lemma_matching_witness(zs.drop_last(), pred_for, x);
        assert(zs.drop_last()[i] == zs[i]);
        i
    }
}

/// Filtering by distinct keys, each file kept by at most one key, counts
/// no identity more often than the sequence holds it.
proof fn lemma_key_sum_bound<K>(
    t: Seq<FileEntry>,
    pred_for: spec_fn(K) -> spec_fn(FileEntry) -> bool,
    zs: Seq<K>,
    v: FileId,
)
    requires
        zs.no_duplicates(),
        forall|x: FileEntry, a: K, b: K| #[trigger] (pred_for(a))(x) && #[trigger] (pred_for(b))(x) ==> a
            == b,
    ensures
        key_sum(t, pred_for, zs, v) <= id_count(t, v),
    decreases t.len(),
{
    if t.len() == 0 {
        lemma_key_sum_empty(t, pred_for, zs, v);
    } else {
        let q = t.drop_last();
        let e = t.last();
        assert(q.push(e) =~= t);
        lemma_key_sum_bound(q, pred_for, zs, v);
        lemma_key_sum_push(q, e, pred_for, zs, v);
        lemma_matching_at_most_one(zs, pred_for, e);
    }
}

proof fn lemma_key_sum_empty<K>(
    t: Seq<FileEntry>,
    pred_for: spec_fn(K) -> spec_fn(FileEntry) -> bool,
    zs: Seq<K>,
    v: FileId,
)
    requires
        t.len() == 0,
    ensures
        key_sum(t, pred_for, zs, v) == 0,
    decreases zs.len(),
{
    if zs.len() > 0 {
        lemma_key_sum_empty(t, pred_for, zs.drop_last(), v);
        t.lemma_filter_len(pred_for(zs.last()));
    }
}

proof fn lemma_distinct_filter<A>(s: Seq<A>, p: spec_fn(A) -> bool)
    requires
        s.no_duplicates(),
    ensures
        s.filter(p).no_duplicates(),
    decreases s.len(),
{
    reveal(Seq::filter);
    if s.len() > 0 {
        lemma_distinct_filter(s.drop_last(), p);
        let prev = s.drop_last().filter(p);
        if p(s.last()) {
            assert forall|i: int| 0 <= i < prev.len() implies prev[i] != s.last() by {
                s.drop_last().lemma_filter_contains_rev(p, prev[i]);
                assert(prev.contains(prev[i]));
            }
        }
    }
}

proof fn lemma_first_seen_digests_distinct(hs: Seq<[u8; 32]>)
    ensures
        first_seen_digests(hs).no_duplicates(),
    decreases hs.len(),
{
    if hs.len() > 0 {
        lemma_first_seen_digests_distinct(hs.drop_last());
    }
}

proof fn lemma_first_seen_sizes_distinct(s: Seq<FileEntry>)
    ensures
        first_seen_sizes(s).no_duplicates(),
    decreases s.len(),
{
    if s.len() > 0 {
        lemma_first_seen_sizes_distinct(s.drop_last());
    }
}

pub open spec fn digest_preds(full: bool) -> spec_fn([u8; 32]) -> spec_fn(FileEntry) -> bool {
    |d: [u8; 32]| digest_pred(d, full)
}

pub open spec fn size_preds() -> spec_fn(u64) -> spec_fn(FileEntry) -> bool {
    |z: u64| size_pred(z)
}

/// The files of the groups made for the first `n` keys of `keys`.
proof fn lemma_split_count(
    files: Seq<FileEntry>,
    hs: Seq<[u8; 32]>,
    size: u64,
    full: bool,
    n: int,
    v: FileId,
)
    requires
        0 <= n <= shared_digests(files, hs, full).len(),
    ensures
        id_count(all_files(split_view(files, hs, size, full).subrange(0, n)), v) == key_sum(
            tagged(files, hs, full),
            digest_preds(full),
            shared_digests(files, hs, full).subrange(0, n),
            v,
        ),
    decreases n,
{
    let sv = split_view(files, hs, size, full);
    let keys = shared_digests(files, hs, full);
    let t = tagged(files, hs, full);
    if n == 0 {
        assert(sv.subrange(0, 0) =~= Seq::<GroupView>::empty());
        assert(keys.subrange(0, 0) =~= Seq::<[u8; 32]>::empty());
    } else {
        lemma_split_count(files, hs, size, full, n - 1, v);
        assert(sv.subrange(0, n).drop_last() =~= sv.subrange(0, n - 1));
        assert(keys.subrange(0, n).drop_last() =~= keys.subrange(0, n - 1));
        assert(sv.subrange(0, n).last() == sv[n - 1]);
        assert(sv[n - 1].2 == with_digest(t, keys[n - 1], full));
        assert((digest_preds(full))(keys[n - 1]) == digest_pred(keys[n - 1], full));
        lemma_id_count_concat(all_files(sv.subrange(0, n - 1)), sv[n - 1].2, v);
    }
}

/// A digest pass holds no identity more often than the groups given.
pub proof fn lemma_regroup_id_count(gs: Seq<DuplicateGroup>, hss: Seq<Seq<[u8; 32]>>, full: bool, v: FileId)
    requires
        hss.len() == gs.len(),
        forall|g: int| 0 <= g < gs.len() ==> (#[trigger] hss[g]).len() == gs[g].files@.len(),
    ensures
        id_count(all_files(regroup_view(gs, hss, full)), v) <= id_count(all_files(group_views(gs)), v),
    decreases gs.len(),
{
    if gs.len() > 0 {
        let gp = gs.drop_last();
        let hp = hss.drop_last();
        assert forall|g: int| 0 <= g < gp.len() implies (#[trigger] hp[g]).len() == gp[g].files@.len() by {
            assert(hp[g] == hss[g] && gp[g] == gs[g]);
        }
        lemma_regroup_id_count(gp, hp, full, v);
        let files = gs.last().files@;
        let hs = hss.last();
        let prev = regroup_view(gp, hp, full);
        let sv = split_view(files, hs, gs.last().size, full);
        lemma_all_files_concat(prev, sv);
        lemma_id_count_concat(all_files(prev), all_files(sv), v);
        let keys = shared_digests(files, hs, full);
        lemma_split_count(files, hs, gs.last().size, full, keys.len() as int, v);
        assert(sv.subrange(0, keys.len() as int) =~= sv);
        assert(keys.subrange(0, keys.len() as int) =~= keys);
        lemma_first_seen_digests_distinct(hs);
        lemma_distinct_filter(first_seen_digests(hs), shared_digest_pred(tagged(files, hs, full), full));
        lemma_key_sum_bound(tagged(files, hs, full), digest_preds(full), keys, v);
        assert(gs[gs.len() - 1] == gs.last());
        lemma_id_count_same_ids(tagged(files, hs, full), files, v);
        assert(group_views(gs).drop_last() =~= group_views(gp));
        assert(group_views(gs).last() == group_view(gs.last()));
        lemma_id_count_concat(all_files(group_views(gp)), files, v);
    }
}

proof fn lemma_all_files_concat(a: Seq<GroupView>, b: Seq<GroupView>)
    ensures
        all_files(a + b) == all_files(a) + all_files(b),
    decreases b.len(),
{
    if b.len() == 0 {
        assert(a + b =~= a);
        assert(all_files(a) + Seq::<FileEntry>::empty() =~= all_files(a));
    } else {
        lemma_all_files_concat(a, b.drop_last());
        assert((a + b).drop_last() =~= a + b.drop_last());
        assert(all_files(a) + all_files(b.drop_last()) + b.last().2 =~= all_files(a) + (all_files(
            b.drop_last(),
        ) + b.last().2));
    }
}

proof fn lemma_size_count(groups: Seq<DuplicateGroup>, sizes: Seq<u64>, s: Seq<FileEntry>, v: FileId)
    requires
        groups_for_sizes(groups, sizes, s),
    ensures
        id_count(all_files(group_views(groups)), v) == key_sum(s, size_preds(), sizes, v),
    decreases groups.len(),
{
    if groups.len() > 0 {
        let gp = groups.drop_last();
        let sp = sizes.drop_last();
        assert(groups_for_sizes(gp, sp, s)) by {
            assert forall|i: int| 0 <= i < gp.len() implies {
                &&& (#[trigger] gp[i]).hash is None
                &&& gp[i].size == sp[i]
                &&& gp[i].files@ == files_of_size(s, sp[i])
            } by {
                assert(gp[i] == groups[i] && sp[i] == sizes[i]);
            }
        }
        lemma_size_count(gp, sp, s, v);
        assert(group_views(groups).drop_last() =~= group_views(gp));
        assert(group_views(groups).last() == group_view(groups[groups.len() - 1]));
        assert((size_preds())(sizes.last()) == size_pred(sizes.last()));
        lemma_id_count_concat(all_files(group_views(gp)), groups[groups.len() - 1].files@, v);
    }
}

/// Size grouping holds no identity more often than the files given.
pub proof fn lemma_size_groups_id_count(
    groups: Seq<DuplicateGroup>,
    files: Seq<FileEntry>,
    include_empty: bool,
    v: FileId,
)
    requires
        size_groups(groups, files, include_empty),
    ensures
        id_count(all_files(group_views(groups)), v) <= id_count(files, v),
{
    let k = kept_files(files, include_empty);
    lemma_size_count(groups, candidate_sizes(k), k, v);
    lemma_first_seen_sizes_distinct(k);
    lemma_distinct_filter(first_seen_sizes(k), shared_pred(k));
    lemma_key_sum_bound(k, size_preds(), candidate_sizes(k), v);
    lemma_id_count_filter(files, keep_pred(include_empty), v);
}

} // verus!
