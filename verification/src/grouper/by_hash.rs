use vstd::prelude::*;

use crate::grouper::DuplicateGroup;
use crate::scanner::FileEntry;

verus! {

/// What a result group is made of: its digest, its size and its files.
pub type GroupView = (Option<[u8; 32]>, u64, Seq<FileEntry>);

pub open spec fn group_view(g: DuplicateGroup) -> GroupView {
    (g.hash, g.size, g.files@)
}

pub open spec fn group_views(gs: Seq<DuplicateGroup>) -> Seq<GroupView> {
    gs.map_values(|g: DuplicateGroup| group_view(g))
}

/// The digest that a grouping pass reads: the full one or the partial one.
pub open spec fn digest_of(f: FileEntry, full: bool) -> Option<[u8; 32]> {
    if full {
        f.full_hash
    } else {
        f.partial_hash
    }
}

/// `f` with its (full or partial) digest recorded.
pub open spec fn tag(f: FileEntry, h: [u8; 32], full: bool) -> FileEntry {
    if full {
        FileEntry { full_hash: Some(h), ..f }
    } else {
        FileEntry { partial_hash: Some(h), ..f }
    }
}

/// The files of a group, each with its digest recorded.
pub open spec fn tagged(files: Seq<FileEntry>, hs: Seq<[u8; 32]>, full: bool) -> Seq<FileEntry> {
    Seq::new(files.len(), |j: int| tag(files[j], hs[j], full))
}

/// The distinct digests of `hs`, in the order in which they first occur.
pub open spec fn first_seen_digests(hs: Seq<[u8; 32]>) -> Seq<[u8; 32]>
    decreases hs.len(),
{
    if hs.len() == 0 {
        Seq::empty()
    } else {
        let prev = first_seen_digests(hs.drop_last());
        if prev.contains(hs.last()) {
            prev
        } else {
            prev.push(hs.last())
        }
    }
}

pub open spec fn digest_pred(d: [u8; 32], full: bool) -> spec_fn(FileEntry) -> bool {
    |f: FileEntry| digest_of(f, full) == Some(d)
}

/// The files of `t` that carry digest `d`, in their order in `t`.
pub open spec fn with_digest(t: Seq<FileEntry>, d: [u8; 32], full: bool) -> Seq<FileEntry> {
    t.filter(digest_pred(d, full))
}

pub open spec fn shared_digest_pred(t: Seq<FileEntry>, full: bool) -> spec_fn([u8; 32]) -> bool {
    |d: [u8; 32]| with_digest(t, d, full).len() >= 2
}

/// The digests that two or more files of a group share, in order of first
/// occurrence.
pub open spec fn shared_digests(files: Seq<FileEntry>, hs: Seq<[u8; 32]>, full: bool) -> Seq<[u8; 32]> {
    first_seen_digests(hs).filter(shared_digest_pred(tagged(files, hs, full), full))
}

/// The groups into which one group splits by digest: one per shared digest,
/// holding the files with that digest; full-digest groups carry the digest.
pub open spec fn split_view(files: Seq<FileEntry>, hs: Seq<[u8; 32]>, size: u64, full: bool) -> Seq<GroupView> {
    let keys = shared_digests(files, hs, full);
    Seq::new(
        keys.len(),
        |i: int|
            (
                if full {
                    Some(keys[i])
                } else {
                    None
                },
                size,
                with_digest(tagged(files, hs, full), keys[i], full),
            ),
    )
}

/// The groups that a digest pass makes of `gs`, group after group.
pub open spec fn regroup_view(gs: Seq<DuplicateGroup>, hss: Seq<Seq<[u8; 32]>>, full: bool) -> Seq<GroupView>
    decreases gs.len(),
{
    if gs.len() == 0 || hss.len() == 0 {
        Seq::empty()
    } else {
        regroup_view(gs.drop_last(), hss.drop_last(), full) + split_view(
            gs.last().files@,
            hss.last(),
            gs.last().size,
            full,
        )
    }
}

pub open spec fn hash_views(hashes: Seq<Vec<[u8; 32]>>) -> Seq<Seq<[u8; 32]>> {
    hashes.map_values(|v: Vec<[u8; 32]>| v@)
}

/// One digest list per group, one digest per file.
pub open spec fn digests_fit(groups: Seq<DuplicateGroup>, hashes: Seq<Vec<[u8; 32]>>) -> bool {
    &&& hashes.len() == groups.len()
    &&& forall|i: int| 0 <= i < groups.len() ==> (#[trigger] hashes[i])@.len() == groups[i].files@.len()
}

fn same_digest(a: &[u8; 32], b: &[u8; 32]) -> (r: bool)
    ensures
        r == (*a == *b),
{
    let mut i: usize = 0;
    while i < 32
        invariant
            i <= 32,
            forall|j: int| 0 <= j < i ==> a[j] == b[j],
        decreases 32 - i,
    {
        if a[i] != b[i] {
            assert(a@[i as int] != b@[i as int]);
            return false;
        }
        i += 1;
    }
    assert(*a =~= *b);
    true
}

fn find_bucket(buckets: &Vec<DuplicateGroup>, h: &[u8; 32]) -> (r: Option<usize>)
    ensures
        r matches Some(j) ==> j < buckets@.len() && buckets@[j as int].hash == Some(*h),
        r is None ==> forall|j: int| 0 <= j < buckets@.len() ==> buckets@[j].hash != Some(*h),
{
    let mut j: usize = 0;
    while j < buckets.len()
        invariant
            j <= buckets@.len(),
            forall|k: int| 0 <= k < j ==> buckets@[k].hash != Some(*h),
        decreases buckets@.len() - j,
    {
        let found = match &buckets[j].hash {
            Some(k) => same_digest(k, h),
            None => false,
        };
        if found {
            return Some(j);
        }
        j += 1;
    }
    None
}

/// `buckets` holds, for each digest in `keys`, the files of `t` with it.
pub open spec fn buckets_for(buckets: Seq<DuplicateGroup>, keys: Seq<[u8; 32]>, t: Seq<FileEntry>, size: u64, full: bool) -> bool {
    &&& buckets.len() == keys.len()
    &&& forall|i: int|
        0 <= i < buckets.len() ==> {
            &&& (#[trigger] buckets[i]).hash == Some(keys[i])
            &&& buckets[i].size == size
            &&& buckets[i].files@ == with_digest(t, keys[i], full)
        }
}

proof fn lemma_digest_seen(hs: Seq<[u8; 32]>, i: int)
    requires
        0 <= i < hs.len(),
    ensures
        first_seen_digests(hs).contains(hs[i]),
    decreases hs.len(),
{
    let prev = first_seen_digests(hs.drop_last());
    let x = hs.last();
    if i < hs.len() - 1 {
        lemma_digest_seen(hs.drop_last(), i);
        assert(hs.drop_last()[i] == hs[i]);
        if !prev.contains(x) {
            let w = choose|w: int| 0 <= w < prev.len() && prev[w] == hs[i];
            assert(prev.push(x)[w] == hs[i]);
        }
    } else if !prev.contains(x) {
        assert(prev.push(x)[prev.len() as int] == x);
    }
}

proof fn lemma_none_with_digest(t: Seq<FileEntry>, d: [u8; 32], full: bool)
    requires
        forall|i: int| 0 <= i < t.len() ==> digest_of(t[i], full) != Some(d),
    ensures
        with_digest(t, d, full).len() == 0,
    decreases t.len(),
{
    reveal(Seq::filter);
    if t.len() > 0 {
        lemma_none_with_digest(t.drop_last(), d, full);
    }
}

/// Every file of `fs` carries digest `d`.
pub open spec fn all_carry(fs: Seq<FileEntry>, d: [u8; 32], full: bool) -> bool {
    forall|j: int| 0 <= j < fs.len() ==> digest_of(#[trigger] fs[j], full) == Some(d)
}

/// `f` is one of `files` with its digest from `hs` recorded.
pub open spec fn tagged_member(f: FileEntry, files: Seq<FileEntry>, hs: Seq<[u8; 32]>, full: bool) -> bool {
    exists|m: int| 0 <= m < files.len() && f == #[trigger] tag(files[m], hs[m], full)
}

/// Digest grouping only groups files that share a digest: each group it
/// makes holds two or more files, all carrying one digest (which a full pass
/// also records as the group's digest), and they are files of one of the
/// groups given, with that group's size.
pub proof fn law_digest_groups_share_digest(
    gs: Seq<DuplicateGroup>,
    hss: Seq<Seq<[u8; 32]>>,
    full: bool,
    i: int,
)
    requires
        hss.len() == gs.len(),
        forall|g: int| 0 <= g < gs.len() ==> (#[trigger] hss[g]).len() == gs[g].files@.len(),
        0 <= i < regroup_view(gs, hss, full).len(),
    ensures
        regroup_view(gs, hss, full)[i].2.len() >= 2,
        exists|d: [u8; 32]|
            #![trigger all_carry(regroup_view(gs, hss, full)[i].2, d, full)]
            all_carry(regroup_view(gs, hss, full)[i].2, d, full) && (full ==> regroup_view(
                gs,
                hss,
                full,
            )[i].0 == Some(d)) && (!full ==> regroup_view(gs, hss, full)[i].0 is None),
        exists|g: int|
            0 <= g < gs.len() && regroup_view(gs, hss, full)[i].1 == (#[trigger] gs[g]).size && forall|
                j: int,
            |
                0 <= j < regroup_view(gs, hss, full)[i].2.len() ==> tagged_member(
                    #[trigger] regroup_view(gs, hss, full)[i].2[j],
                    gs[g].files@,
                    hss[g],
                    full,
                ),
    decreases gs.len(),
{
    let n = gs.len();
    let prev = regroup_view(gs.drop_last(), hss.drop_last(), full);
    let files = gs.last().files@;
    let hs = hss.last();
    let size = gs.last().size;
    let v = regroup_view(gs, hss, full)[i];
    if i < prev.len() {
        assert forall|g: int| 0 <= g < gs.drop_last().len() implies (
        #[trigger] hss.drop_last()[g]).len() == gs.drop_last()[g].files@.len() by {
            assert(hss.drop_last()[g] == hss[g]);
            assert(gs.drop_last()[g] == gs[g]);
        }
        law_digest_groups_share_digest(gs.drop_last(), hss.drop_last(), full, i);
        assert(v == prev[i]);
        let g = choose|g: int|
            0 <= g < gs.drop_last().len() && prev[i].1 == (#[trigger] gs.drop_last()[g]).size
                && forall|j: int|
                0 <= j < prev[i].2.len() ==> tagged_member(
                    #[trigger] prev[i].2[j],
                    gs.drop_last()[g].files@,
                    hss.drop_last()[g],
                    full,
                );
        assert(gs.drop_last()[g] == gs[g]);
        assert(hss.drop_last()[g] == hss[g]);
        assert forall|j: int| 0 <= j < v.2.len() implies tagged_member(
            #[trigger] v.2[j],
            gs[g].files@,
            hss[g],
            full,
        ) by {
            assert(v.2[j] == prev[i].2[j]);
        }
    } else {
        let k = i - prev.len();
        let t = tagged(files, hs, full);
        let keys = shared_digests(files, hs, full);
        let sv = split_view(files, hs, size, full);
        assert(v == sv[k]);
        first_seen_digests(hs).lemma_filter_pred(shared_digest_pred(t, full), k);
        let d = keys[k];
        let members = with_digest(t, d, full);
        assert(v.2 == members);
        assert forall|j: int| 0 <= j < members.len() implies digest_of(#[trigger] members[j], full)
            == Some(d) by {
            t.lemma_filter_pred(digest_pred(d, full), j);
        }
        assert(all_carry(v.2, d, full));
        assert forall|j: int| 0 <= j < v.2.len() implies tagged_member(
            #[trigger] v.2[j],
            gs[n - 1].files@,
            hss[n - 1],
            full,
        ) by {
            let f = members[j];
            assert(members.contains(f));
            t.lemma_filter_contains_rev(digest_pred(d, full), f);
            let m = choose|m: int| 0 <= m < t.len() && t[m] == f;
            assert(f == tag(files[m], hs[m], full));
        }
        assert(gs[n - 1].size == v.1);
    }
}

/// Files `x` and `y` lie, at two different positions, in one group of `vs`.
pub open spec fn together(vs: Seq<GroupView>, x: FileEntry, y: FileEntry) -> bool {
    exists|r: int, m1: int, m2: int|
        #![trigger vs[r].2[m1], vs[r].2[m2]]
        0 <= r < vs.len() && 0 <= m1 < vs[r].2.len() && 0 <= m2 < vs[r].2.len() && m1 != m2
            && vs[r].2[m1] == x && vs[r].2[m2] == y
}

/// Two different files of one group with equal digests end, at different
/// positions, in one group of the digest pass; the group and the positions
/// are returned.
pub proof fn lemma_split_together(
    gs: Seq<DuplicateGroup>,
    hss: Seq<Seq<[u8; 32]>>,
    full: bool,
    a: int,
    j1: int,
    j2: int,
) -> (r: (int, int, int))
    requires
        hss.len() == gs.len(),
        forall|g: int| 0 <= g < gs.len() ==> (#[trigger] hss[g]).len() == gs[g].files@.len(),
        0 <= a < gs.len(),
        0 <= j1 < gs[a].files@.len(),
        0 <= j2 < gs[a].files@.len(),
        j1 != j2,
        hss[a][j1] == hss[a][j2],
    ensures
        0 <= r.0 < regroup_view(gs, hss, full).len(),
        0 <= r.1 < regroup_view(gs, hss, full)[r.0].2.len(),
        0 <= r.2 < regroup_view(gs, hss, full)[r.0].2.len(),
        r.1 != r.2,
        regroup_view(gs, hss, full)[r.0].2[r.1] == tag(gs[a].files@[j1], hss[a][j1], full),
        regroup_view(gs, hss, full)[r.0].2[r.2] == tag(gs[a].files@[j2], hss[a][j2], full),
    decreases gs.len(),
{
    let n = gs.len();
    let prev = regroup_view(gs.drop_last(), hss.drop_last(), full);
    let files = gs.last().files@;
    let hs = hss.last();
    let whole = regroup_view(gs, hss, full);
    if a < n - 1 {
        assert forall|g: int| 0 <= g < gs.drop_last().len() implies (
        #[trigger] hss.drop_last()[g]).len() == gs.drop_last()[g].files@.len() by {
            assert(hss.drop_last()[g] == hss[g]);
            assert(gs.drop_last()[g] == gs[g]);
        }
        assert(gs.drop_last()[a] == gs[a] && hss.drop_last()[a] == hss[a]);
        let (i, m1, m2) = lemma_split_together(gs.drop_last(), hss.drop_last(), full, a, j1, j2);
        assert(whole[i] == prev[i]);
        (i, m1, m2)
    } else {
        assert(gs[a] == gs.last() && hss[a] == hs);
        let t = tagged(files, hs, full);
        let d = hs[j1];
        assert(t[j1] == tag(files[j1], hs[j1], full));
        assert(t[j2] == tag(files[j2], hs[j2], full));
        let (m1, m2) = crate::grouper::by_size::lemma_filter_two(t, digest_pred(d, full), j1, j2);
        lemma_digest_seen(hs, j1);
        let seen = first_seen_digests(hs);
        let w = choose|w: int| 0 <= w < seen.len() && seen[w] == d;
        assert((shared_digest_pred(t, full))(d));
        seen.lemma_filter_contains(shared_digest_pred(t, full), w);
        let keys = shared_digests(files, hs, full);
        let k = choose|k: int| 0 <= k < keys.len() && keys[k] == d;
        let sv = split_view(files, hs, gs.last().size, full);
        assert(whole[prev.len() + k] == sv[k]);
        (prev.len() + k, m1, m2)
    }
}

/// A digest pass misses no pair: two different files of one group with
/// equal digests end in one group of the pass, with their digests recorded.
pub proof fn law_digest_groups_complete(
    gs: Seq<DuplicateGroup>,
    hss: Seq<Seq<[u8; 32]>>,
    full: bool,
    a: int,
    j1: int,
    j2: int,
)
    requires
        hss.len() == gs.len(),
        forall|g: int| 0 <= g < gs.len() ==> (#[trigger] hss[g]).len() == gs[g].files@.len(),
        0 <= a < gs.len(),
        0 <= j1 < gs[a].files@.len(),
        0 <= j2 < gs[a].files@.len(),
        j1 != j2,
        hss[a][j1] == hss[a][j2],
    ensures
        together(
            regroup_view(gs, hss, full),
            tag(gs[a].files@[j1], hss[a][j1], full),
            tag(gs[a].files@[j2], hss[a][j2], full),
        ),
{
    let vs = regroup_view(gs, hss, full);
    let (r, m1, m2) = lemma_split_together(gs, hss, full, a, j1, j2);
    assert(vs[r].2[m1] == tag(gs[a].files@[j1], hss[a][j1], full));
    assert(vs[r].2[m2] == tag(gs[a].files@[j2], hss[a][j2], full));
}

/// Splits one group by the digests of its files (one digest per file, in
/// order), keeping the digests that two or more files share.
fn split_by_digest(files: Vec<FileEntry>, hs: &Vec<[u8; 32]>, size: u64, full: bool) -> (r: Vec<
    DuplicateGroup,
>)
    requires
        hs@.len() == files@.len(),
    ensures
        group_views(r@) == split_view(files@, hs@, size, full),
{
    let ghost all = files@;
    let ghost t = tagged(files@, hs@, full);
    let n = files.len();
    let mut buckets: Vec<DuplicateGroup> = Vec::new();
    let mut pos: usize = 0;
    assert(t.subrange(0, 0).filter(digest_pred(hs@[0], full)) =~= Seq::<FileEntry>::empty()) by {
        reveal(Seq::filter);
    }
    assert(first_seen_digests(hs@.subrange(0, 0)) =~= Seq::<[u8; 32]>::empty());
    for file in it: files
        invariant
            all == files@,
            n == all.len() == hs@.len(),
            t == tagged(all, hs@, full),
            it.seq() == all,
            pos == it.index(),
            pos <= n,
            first_seen_digests(hs@.subrange(0, pos as int)).no_duplicates(),
            buckets_for(
                buckets@,
                first_seen_digests(hs@.subrange(0, pos as int)),
                t.subrange(0, pos as int),
                size,
                full,
            ),
    {
        let ghost p = t.subrange(0, pos as int);
        let ghost keys = first_seen_digests(hs@.subrange(0, pos as int));
        let h = hs[pos];
        let mut f = file;
        if full {
            f.full_hash = Some(h);
        } else {
            f.partial_hash = Some(h);
        }
        let ghost p2 = t.subrange(0, pos + 1);
        proof {
            assert(f == t[pos as int]);
            assert(p2 =~= p.push(f));
            assert(hs@.subrange(0, pos + 1).drop_last() =~= hs@.subrange(0, pos as int));
            assert forall|d: [u8; 32]| true implies with_digest(p2, d, full) == (if h == d {
                with_digest(p, d, full).push(f)
            } else {
                with_digest(p, d, full)
            }) by {
                p.lemma_filter_push(f, digest_pred(d, full));
            }
        }
        match find_bucket(&buckets, &h) {
            Some(j) => {
                let ghost old_buckets = buckets@;
                let mut g = buckets.remove(j);
                g.files.push(f);
                buckets.insert(j, g);
                proof {
                    assert(keys[j as int] == h);
                    assert(keys.contains(h));
                    assert(first_seen_digests(hs@.subrange(0, pos + 1)) == keys);
                    assert(buckets@ =~= old_buckets.update(j as int, g));
                    assert forall|i: int| 0 <= i < buckets@.len() implies {
                        &&& (#[trigger] buckets@[i]).hash == Some(keys[i])
                        &&& buckets@[i].size == size
                        &&& buckets@[i].files@ == with_digest(p2, keys[i], full)
                    } by {
                        if i != j {
                            assert(keys[i] != h);
                        }
                    }
                }
            },
            None => {
                let ghost old_buckets = buckets@;
                let mut v: Vec<FileEntry> = Vec::new();
                v.push(f);
                let g = DuplicateGroup::with_hash(h, size, v);
                buckets.push(g);
                proof {
                    let keys2 = keys.push(h);
                    assert(!keys.contains(h)) by {
                        if keys.contains(h) {
                            let w = choose|w: int| 0 <= w < keys.len() && keys[w] == h;
                            assert(old_buckets[w].hash == Some(h));
                        }
                    }
                    assert(first_seen_digests(hs@.subrange(0, pos + 1)) == keys2);
                    assert(with_digest(p, h, full).len() == 0) by {
                        assert forall|i: int| 0 <= i < p.len() implies digest_of(p[i], full) != Some(
                            h,
                        ) by {
                            assert(p[i] == t[i]);
                            assert(hs@.subrange(0, pos as int)[i] == hs@[i]);
                            if hs@[i] == h {
                                lemma_digest_seen(hs@.subrange(0, pos as int), i);
                            }
                        }
                        lemma_none_with_digest(p, h, full);
                    }
                    assert(with_digest(p, h, full) =~= Seq::<FileEntry>::empty());
                    assert(v@ =~= Seq::<FileEntry>::empty().push(f));
                    assert(keys2.no_duplicates());
                    assert forall|i: int| 0 <= i < buckets@.len() implies {
                        &&& (#[trigger] buckets@[i]).hash == Some(keys2[i])
                        &&& buckets@[i].size == size
                        &&& buckets@[i].files@ == with_digest(p2, keys2[i], full)
                    } by {
                        if i < keys.len() {
                            assert(keys[i] != h);
                            assert(buckets@[i] == old_buckets[i]);
                        }
                    }
                }
            },
        }
        pos += 1;
    }
    assert(t.subrange(0, n as int) =~= t);
    assert(hs@.subrange(0, n as int) =~= hs@);
    let ghost keys = first_seen_digests(hs@);
    let ghost bs = buckets@;
    let ghost big = shared_digest_pred(t, full);
    let ghost shared = keys.filter(big);
    let nb = buckets.len();
    let mut out: Vec<DuplicateGroup> = Vec::new();
    let mut i: usize = 0;
    assert(keys.subrange(0, 0).filter(big) =~= Seq::<[u8; 32]>::empty()) by {
        reveal(Seq::filter);
    }
    for g in it2: buckets
        invariant
            it2.seq() == bs,
            bs.len() == nb,
            i == it2.index(),
            i <= bs.len(),
            big == shared_digest_pred(t, full),
            buckets_for(bs, keys, t, size, full),
            ({
                let c = keys.subrange(0, i as int).filter(big);
                &&& out@.len() == c.len()
                &&& forall|j: int|
                    0 <= j < out@.len() ==> {
                        &&& (#[trigger] out@[j]).hash == (if full {
                            Some(c[j])
                        } else {
                            None
                        })
                        &&& out@[j].size == size
                        &&& out@[j].files@ == with_digest(t, c[j], full)
                    }
            }),
    {
        let ghost c0 = keys.subrange(0, i as int).filter(big);
        let ghost c = keys.subrange(0, i + 1).filter(big);
        proof {
            assert(keys.subrange(0, i + 1) =~= keys.subrange(0, i as int).push(keys[i as int]));
            keys.subrange(0, i as int).lemma_filter_push(keys[i as int], big);
            assert(g == bs[i as int]);
            assert(i < bs.len());
            assert(bs[i as int].files@ == with_digest(t, keys[i as int], full));
            assert(big(keys[i as int]) <==> g.files@.len() >= 2);
        }
        if g.files.len() >= 2 {
            let ghost old_out = out@;
            let mut g2 = g;
            if !full {
                g2.hash = None;
            }
            out.push(g2);
            proof {
                assert(c == c0.push(keys[i as int]));
                assert forall|j: int| 0 <= j < out@.len() implies {
                    &&& (#[trigger] out@[j]).hash == (if full {
                        Some(c[j])
                    } else {
                        None
                    })
                    &&& out@[j].size == size
                    &&& out@[j].files@ == with_digest(t, c[j], full)
                } by {
                    if j < old_out.len() {
                        assert(out@[j] == old_out[j]);
                        assert(c[j] == c0[j]);
                    }
                }
            }
        } else {
            assert(c == c0);
        }
        i += 1;
    }
    assert(keys.subrange(0, nb as int) =~= keys);
    assert(group_views(out@) =~= split_view(all, hs@, size, full));
    out
}

/// Splits every group by digests given for its files, one list of digests
/// per group, and keeps the digests that two or more files of a group share.
/// Each file gets its digest recorded (`full_hash` when `full`, otherwise
/// `partial_hash`); groups made from full digests carry their digest.
fn regroup_by_digest(groups: Vec<DuplicateGroup>, hashes: &Vec<Vec<[u8; 32]>>, full: bool) -> (r: Vec<
    DuplicateGroup,
>)
    requires
        digests_fit(groups@, hashes@),
    ensures
        group_views(r@) == regroup_view(groups@, hash_views(hashes@), full),
{
    let ghost gs = groups@;
    let ghost hss = hash_views(hashes@);
    let ng = groups.len();
    let mut out: Vec<DuplicateGroup> = Vec::new();
    let mut i: usize = 0;
    assert(group_views(out@) =~= regroup_view(gs.subrange(0, 0), hss.subrange(0, 0), full));
    for g in it: groups
        invariant
            it.seq() == gs,
            gs.len() == ng,
            i == it.index(),
            i <= gs.len(),
            digests_fit(gs, hashes@),
            hss == hash_views(hashes@),
            group_views(out@) == regroup_view(gs.subrange(0, i as int), hss.subrange(0, i as int), full),
    {
        proof {
            assert(g == gs[i as int]);
            assert(i < gs.len());
            assert(hashes@[i as int]@.len() == g.files@.len());
        }
        let size = g.size;
        let mut part = split_by_digest(g.files, &hashes[i], size, full);
        let ghost old_out = out@;
        let ghost part_v = part@;
        out.append(&mut part);
        proof {
            assert(out@ =~= old_out + part_v);
            assert(group_views(out@) =~= group_views(old_out) + group_views(part_v));
            assert(gs.subrange(0, i + 1).drop_last() =~= gs.subrange(0, i as int));
            assert(hss.subrange(0, i + 1).drop_last() =~= hss.subrange(0, i as int));
            assert(hss[i as int] == hashes@[i as int]@);
        }
        i += 1;
    }
    assert(gs.subrange(0, gs.len() as int) =~= gs);
    assert(hss.subrange(0, gs.len() as int) =~= hss);
    out
}

/// Splits size groups by the partial digests of their files (given per group,
/// one per file, in order) and keeps the digests that two or more files of a
/// group share; every file gets its partial digest recorded.
pub fn group_by_partial_hash(groups: Vec<DuplicateGroup>, hashes: &Vec<Vec<[u8; 32]>>) -> (r: Vec<
    DuplicateGroup,
>)
    requires
        digests_fit(groups@, hashes@),
    ensures
        group_views(r@) == regroup_view(groups@, hash_views(hashes@), false),
{
    regroup_by_digest(groups, hashes, false)
}

/// Splits groups by the full digests of their files (given per group, one per
/// file, in order) and keeps the digests that two or more files of a group
/// share; every file gets its full digest recorded and every group its digest.
pub fn group_by_full_hash(groups: Vec<DuplicateGroup>, hashes: &Vec<Vec<[u8; 32]>>) -> (r: Vec<
    DuplicateGroup,
>)
    requires
        digests_fit(groups@, hashes@),
    ensures
        group_views(r@) == regroup_view(groups@, hash_views(hashes@), true),
{
    regroup_by_digest(groups, hashes, true)
}

} // verus!

verus! {

/// The files of `files` whose flag in `m` is set, in order.
pub open spec fn select_matching(files: Seq<FileEntry>, m: Seq<bool>) -> Seq<FileEntry>
    decreases files.len(),
{
    if files.len() == 0 || m.len() == 0 {
        Seq::empty()
    } else {
        let prev = select_matching(files.drop_last(), m.drop_last());
        if m.last() {
            prev.push(files.last())
        } else {
            prev
        }
    }
}

/// The first file of a group and those of the others that matched it.
pub open spec fn verified_files(files: Seq<FileEntry>, m: Seq<bool>) -> Seq<FileEntry> {
    seq![files[0]] + select_matching(files.drop_first(), m)
}

/// What byte-by-byte verification makes of `gs`: groups of fewer than two
/// files are dropped; in the others, the files that did not match the first
/// one are dropped, and the group is kept while two or more files remain.
pub open spec fn verify_view(gs: Seq<DuplicateGroup>, ms: Seq<Seq<bool>>) -> Seq<GroupView>
    decreases gs.len(),
{
    if gs.len() == 0 || ms.len() == 0 {
        Seq::empty()
    } else {
        let prev = verify_view(gs.drop_last(), ms.drop_last());
        let g = gs.last();
        if g.files@.len() < 2 {
            prev
        } else {
            let v = verified_files(g.files@, ms.last());
            if v.len() >= 2 {
                prev.push((g.hash, g.size, v))
            } else {
                prev
            }
        }
    }
}

proof fn lemma_select_matching_from(files: Seq<FileEntry>, m: Seq<bool>)
    ensures
        select_matching(files, m).len() <= files.len(),
        forall|j: int|
            0 <= j < select_matching(files, m).len() ==> files.contains(
                #[trigger] select_matching(files, m)[j],
            ),
    decreases files.len(),
{
    if files.len() > 0 && m.len() > 0 {
        let prev = select_matching(files.drop_last(), m.drop_last());
        lemma_select_matching_from(files.drop_last(), m.drop_last());
        assert forall|j: int| 0 <= j < select_matching(files, m).len() implies files.contains(
            #[trigger] select_matching(files, m)[j],
        ) by {
            if j < prev.len() {
                let x = prev[j];
                assert(files.drop_last().contains(x));
                let w = choose|w: int| 0 <= w < files.drop_last().len() && files.drop_last()[w] == x;
                assert(files[w] == x);
            } else {
                assert(files[files.len() - 1] == files.last());
            }
        }
    }
}

/// Byte comparison only keeps true groups: each group it keeps holds two or
/// more files, opens with the first file of one of the groups given, and
/// otherwise holds files of that group; it keeps that group's digest and
/// size.
pub proof fn law_verified_groups_from_input(gs: Seq<DuplicateGroup>, ms: Seq<Seq<bool>>, i: int)
    requires
        0 <= i < verify_view(gs, ms).len(),
    ensures
        verify_view(gs, ms)[i].2.len() >= 2,
        exists|g: int|
            0 <= g < gs.len() && verify_view(gs, ms)[i].0 == (#[trigger] gs[g]).hash && verify_view(
                gs,
                ms,
            )[i].1 == gs[g].size && verify_view(gs, ms)[i].2[0] == gs[g].files@[0] && forall|j: int|
                0 <= j < verify_view(gs, ms)[i].2.len() ==> gs[g].files@.contains(
                    #[trigger] verify_view(gs, ms)[i].2[j],
                ),
    decreases gs.len(),
{
    let prev = verify_view(gs.drop_last(), ms.drop_last());
    let g = gs.last();
    let n = gs.len();
    if i < prev.len() {
        law_verified_groups_from_input(gs.drop_last(), ms.drop_last(), i);
        assert(verify_view(gs, ms)[i] == prev[i]);
        let w = choose|w: int|
            0 <= w < gs.drop_last().len() && prev[i].0 == (#[trigger] gs.drop_last()[w]).hash
                && prev[i].1 == gs.drop_last()[w].size && prev[i].2[0] == gs.drop_last()[w].files@[0]
                && forall|j: int|
                0 <= j < prev[i].2.len() ==> gs.drop_last()[w].files@.contains(#[trigger] prev[i].2[j]);
        assert(gs.drop_last()[w] == gs[w]);
    } else {
        let v = verified_files(g.files@, ms.last());
        assert(verify_view(gs, ms)[i] == (g.hash, g.size, v));
        lemma_select_matching_from(g.files@.drop_first(), ms.last());
        assert forall|j: int| 0 <= j < v.len() implies g.files@.contains(#[trigger] v[j]) by {
            if j == 0 {
                assert(g.files@[0] == v[0]);
            } else {
                let x = select_matching(g.files@.drop_first(), ms.last())[j - 1];
                assert(v[j] == x);
                assert(g.files@.drop_first().contains(x));
                let w = choose|w: int|
                    0 <= w < g.files@.drop_first().len() && g.files@.drop_first()[w] == x;
                assert(g.files@[w + 1] == x);
            }
        }
        assert(gs[n - 1] == g);
    }
}

proof fn lemma_select_matching_keeps(files: Seq<FileEntry>, m: Seq<bool>, k: int)
    requires
        files.len() == m.len(),
        0 <= k < files.len(),
        m[k],
    ensures
        select_matching(files, m).contains(files[k]),
    decreases files.len(),
{
    let prev = select_matching(files.drop_last(), m.drop_last());
    if k == files.len() - 1 {
        assert(prev.push(files.last())[prev.len() as int] == files[k]);
    } else {
        assert(files.drop_last()[k] == files[k] && m.drop_last()[k] == m[k]);
        lemma_select_matching_keeps(files.drop_last(), m.drop_last(), k);
        if m.last() {
            let w = choose|w: int| 0 <= w < prev.len() && prev[w] == files[k];
            assert(prev.push(files.last())[w] == files[k]);
        }
    }
}

/// Each file that byte selection keeps is a file whose flag is set.
proof fn lemma_select_matching_flagged(files: Seq<FileEntry>, m: Seq<bool>, j: int)
    requires
        files.len() == m.len(),
        0 <= j < select_matching(files, m).len(),
    ensures
        exists|k: int| 0 <= k < files.len() && m[k] && #[trigger] files[k] == select_matching(files, m)[j],
    decreases files.len(),
{
    let prev = select_matching(files.drop_last(), m.drop_last());
    if j < prev.len() {
        lemma_select_matching_flagged(files.drop_last(), m.drop_last(), j);
        let k = choose|k: int|
            0 <= k < files.drop_last().len() && m.drop_last()[k] && #[trigger] files.drop_last()[k]
                == prev[j];
        assert(files[k] == files.drop_last()[k] && m[k] == m.drop_last()[k]);
        if m.last() {
            assert(prev.push(files.last())[j] == prev[j]);
        }
    } else {
        assert(m.last() && select_matching(files, m) == prev.push(files.last()));
        assert(files[files.len() - 1] == select_matching(files, m)[j]);
    }
}

/// `x` is a file after the first of `files` whose flag in `m` (one flag per
/// file after the first) is set.
pub open spec fn flagged_file(x: FileEntry, files: Seq<FileEntry>, m: Seq<bool>) -> bool {
    exists|k: int| 1 <= k < files.len() && m[k - 1] && #[trigger] files[k] == x
}

/// `v` opens with the first of `files`, holds every file after the first
/// whose flag is set, and otherwise only such files.
pub open spec fn first_and_flagged(v: Seq<FileEntry>, files: Seq<FileEntry>, m: Seq<bool>) -> bool {
    &&& v.len() >= 1
    &&& v[0] == files[0]
    &&& forall|k: int| 1 <= k < files.len() && m[k - 1] ==> v.contains(#[trigger] files[k])
    &&& forall|j: int| 1 <= j < v.len() ==> flagged_file(#[trigger] v[j], files, m)
}

/// Byte comparison keeps exactly the right files: for a group of two or
/// more files, some of which matched its first, a kept group with the
/// group's digest and size opens with the first file, holds every file after
/// the first whose flag is set, and holds no other file but such ones.
pub proof fn law_verified_groups_complete(gs: Seq<DuplicateGroup>, ms: Seq<Seq<bool>>, g: int)
    requires
        ms.len() == gs.len(),
        0 <= g < gs.len(),
        gs[g].files@.len() >= 2,
        ms[g].len() == gs[g].files@.len() - 1,
        exists|k: int| 1 <= k < gs[g].files@.len() && #[trigger] ms[g][k - 1],
    ensures
        exists|i: int|
            #![trigger verify_view(gs, ms)[i]]
            0 <= i < verify_view(gs, ms).len() && verify_view(gs, ms)[i].0 == gs[g].hash
                && verify_view(gs, ms)[i].1 == gs[g].size && first_and_flagged(
                verify_view(gs, ms)[i].2,
                gs[g].files@,
                ms[g],
            ),
    decreases gs.len(),
{
    let prev = verify_view(gs.drop_last(), ms.drop_last());
    let n = gs.len();
    let out = verify_view(gs, ms);
    if g < n - 1 {
        assert(gs.drop_last()[g] == gs[g] && ms.drop_last()[g] == ms[g]);
        law_verified_groups_complete(gs.drop_last(), ms.drop_last(), g);
        let i = choose|i: int|
            #![trigger prev[i]]
            0 <= i < prev.len() && prev[i].0 == gs[g].hash && prev[i].1 == gs[g].size
                && first_and_flagged(prev[i].2, gs[g].files@, ms[g]);
        if out != prev {
            assert(out == prev.push(out.last()));
        }
        assert(out[i] == prev[i]);
    } else {
        let grp = gs.last();
        let files = grp.files@;
        let m = ms.last();
        let rest = files.drop_first();
        assert(grp == gs[g] && m == ms[g]);
        let w = choose|k: int| 1 <= k < files.len() && #[trigger] ms[g][k - 1];
        assert(rest[w - 1] == files[w]);
        lemma_select_matching_keeps(rest, m, w - 1);
        let sel = select_matching(rest, m);
        let v = verified_files(files, m);
        assert(sel.len() >= 1);
        assert(v.len() >= 2);
        assert(out == prev.push((grp.hash, grp.size, v)));
        assert(out[prev.len() as int] == (grp.hash, grp.size, v));
        assert forall|k: int| 1 <= k < files.len() && m[k - 1] implies v.contains(
            #[trigger] files[k],
        ) by {
            assert(rest[k - 1] == files[k]);
            lemma_select_matching_keeps(rest, m, k - 1);
            let x = choose|x: int| 0 <= x < sel.len() && sel[x] == files[k];
            assert(v[x + 1] == files[k]);
        }
        assert forall|j: int| 1 <= j < v.len() implies flagged_file(#[trigger] v[j], files, m) by {
            assert(v[j] == sel[j - 1]);
            lemma_select_matching_flagged(rest, m, j - 1);
            let k = choose|k: int| 0 <= k < rest.len() && m[k] && #[trigger] rest[k] == sel[j - 1];
            assert(files[k + 1] == rest[k]);
        }
        assert(first_and_flagged(v, files, m));
    }
}

pub open spec fn match_views(matches: Seq<Vec<bool>>) -> Seq<Seq<bool>> {
    matches.map_values(|v: Vec<bool>| v@)
}

/// One flag per file after the first, for each group of two or more files.
pub open spec fn matches_fit(groups: Seq<DuplicateGroup>, matches: Seq<Vec<bool>>) -> bool {
    &&& matches.len() == groups.len()
    &&& forall|i: int|
        0 <= i < groups.len() && groups[i].files@.len() >= 2 ==> (#[trigger] matches[i])@.len()
            == groups[i].files@.len() - 1
}

/// Keeps, in each group of two or more files, the first file and the files
/// that `matches` (one flag per file after the first) says are byte-for-byte
/// equal to it; groups left with fewer than two files are dropped, the others
/// keep their digest and size, and their order.
pub fn verify_with_byte_compare(groups: Vec<DuplicateGroup>, matches: &Vec<Vec<bool>>) -> (r: Vec<
    DuplicateGroup,
>)
    requires
        matches_fit(groups@, matches@),
    ensures
        group_views(r@) == verify_view(groups@, match_views(matches@)),
{
    let ghost gs = groups@;
    let ghost ms = match_views(matches@);
    let ng = groups.len();
    let mut out: Vec<DuplicateGroup> = Vec::new();
    let mut i: usize = 0;
    assert(group_views(out@) =~= verify_view(gs.subrange(0, 0), ms.subrange(0, 0)));
    for g in it: groups
        invariant
            it.seq() == gs,
            gs.len() == ng,
            i == it.index(),
            i <= gs.len(),
            matches_fit(gs, matches@),
            ms == match_views(matches@),
            group_views(out@) == verify_view(gs.subrange(0, i as int), ms.subrange(0, i as int)),
    {
        proof {
            assert(g == gs[i as int]);
            assert(i < gs.len());
            assert(gs.subrange(0, i + 1).drop_last() =~= gs.subrange(0, i as int));
            assert(ms.subrange(0, i + 1).drop_last() =~= ms.subrange(0, i as int));
            assert(ms[i as int] == matches@[i as int]@);
        }
        let DuplicateGroup { hash, size, files } = g;
        let n = files.len();
        if n >= 2 {
            let m = &matches[i];
            let ghost fs = files@;
            let mut kept: Vec<FileEntry> = Vec::new();
            let mut k: usize = 0;
            for f in it3: files
                invariant
                    it3.seq() == fs,
                    fs.len() == n,
                    n >= 2,
                    m@.len() == n - 1,
                    k == it3.index(),
                    k <= n,
                    k == 0 ==> kept@.len() == 0,
                    k > 0 ==> kept@ == seq![fs[0]] + select_matching(
                        fs.subrange(1, k as int),
                        m@.subrange(0, k - 1),
                    ),
            {
                proof {
                    assert(f == fs[k as int]);
                    assert(k < n);
                }
                let ghost old_kept = kept@;
                if k == 0 || m[k - 1] {
                    kept.push(f);
                }
                proof {
                    if k == 0 {
                        assert(fs.subrange(1, 1).len() == 0);
                        assert(kept@ =~= seq![fs[0]] + select_matching(
                            fs.subrange(1, 1),
                            m@.subrange(0, 0),
                        ));
                    } else {
                        let a = fs.subrange(1, k + 1);
                        let b = m@.subrange(0, k as int);
                        assert(a.drop_last() =~= fs.subrange(1, k as int));
                        assert(b.drop_last() =~= m@.subrange(0, k - 1));
                        assert(a.last() == fs[k as int]);
                        assert(b.last() == m@[k - 1]);
                        assert(kept@ =~= seq![fs[0]] + select_matching(a, b));
                    }
                }
                k += 1;
            }
            proof {
                assert(fs.subrange(1, n as int) =~= fs.drop_first());
                assert(m@.subrange(0, n - 1) =~= m@);
            }
            if kept.len() >= 2 {
                let ghost old_out = out@;
                let ng2 = DuplicateGroup { hash, size, files: kept };
                out.push(ng2);
                proof {
                    assert(group_views(out@) =~= group_views(old_out).push(group_view(ng2)));
                }
            }
        }
        i += 1;
    }
    assert(gs.subrange(0, gs.len() as int) =~= gs);
    assert(ms.subrange(0, gs.len() as int) =~= ms);
    out
}

} // verus!
