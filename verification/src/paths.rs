//! Unix path logic on raw path bytes: components, file name, extension,
//! prefix test and joining, as `std::path` defines them on Unix.
use vstd::prelude::*;
use vstd::slice::slice_to_vec;
use vstd::utf8::valid_utf8;

use crate::text::utf8_str;

verus! {

/// The text of the root component, `/`.
pub open spec fn root_comp() -> Seq<u8> {
    seq![47u8]
}

/// The text of the current-directory component, `.`.
pub open spec fn cur_comp() -> Seq<u8> {
    seq![46u8]
}

/// The text of the parent-directory component, `..`.
pub open spec fn parent_comp() -> Seq<u8> {
    seq![46u8, 46u8]
}

/// The pieces of `p` between slashes (an empty piece around each doubled,
/// leading or trailing slash).
pub open spec fn split_slash(p: Seq<u8>) -> Seq<Seq<u8>>
    decreases p.len(),
{
    if p.len() == 0 {
        seq![Seq::empty()]
    } else {
        let prev = split_slash(p.drop_last());
        if p.last() == 47 {
            prev.push(Seq::empty())
        } else {
            prev.update(prev.len() - 1, prev.last().push(p.last()))
        }
    }
}

/// A piece that names a component: neither empty nor `.`.
pub open spec fn keep_piece(s: Seq<u8>) -> bool {
    s.len() > 0 && s != cur_comp()
}

pub open spec fn piece_pred() -> spec_fn(Seq<u8>) -> bool {
    |s: Seq<u8>| keep_piece(s)
}

/// The component that the start of a path contributes: the root for an
/// absolute path, `.` for a path that is `.` or starts with `./`.
pub open spec fn lead_component(p: Seq<u8>) -> Seq<Seq<u8>> {
    if p.len() > 0 && p[0] == 47 {
        seq![root_comp()]
    } else if p.len() > 0 && p[0] == 46 && (p.len() == 1 || p[1] == 47) {
        seq![cur_comp()]
    } else {
        Seq::empty()
    }
}

/// The components of a path, each given by its text (`/` for the root, `.`,
/// `..`, or a name), as `Path::components` yields them on Unix.
pub open spec fn components(p: Seq<u8>) -> Seq<Seq<u8>> {
    lead_component(p) + split_slash(p).filter(piece_pred())
}

pub open spec fn is_normal_comp(c: Seq<u8>) -> bool {
    c != root_comp() && c != cur_comp() && c != parent_comp()
}

/// The last component of a path when it is a name, as `Path::file_name`
/// returns it.
pub open spec fn file_name_of(p: Seq<u8>) -> Option<Seq<u8>> {
    let c = components(p);
    if c.len() > 0 && is_normal_comp(c.last()) {
        Some(c.last())
    } else {
        None
    }
}

/// Position of the last `.` in `name`, or -1.
pub open spec fn last_dot(name: Seq<u8>) -> int
    decreases name.len(),
{
    if name.len() == 0 {
        -1
    } else if name.last() == 46 {
        name.len() - 1
    } else {
        last_dot(name.drop_last())
    }
}

/// What follows the last `.` of a file name, unless that `.` opens the name,
/// as `Path::extension` returns it.
pub open spec fn extension_of(name: Seq<u8>) -> Option<Seq<u8>> {
    let i = last_dot(name);
    if name == parent_comp() || i <= 0 {
        None
    } else {
        Some(name.subrange(i + 1, name.len() as int))
    }
}

/// A file counts as hidden when its name is valid UTF-8 and starts with `.`.
pub open spec fn is_hidden_path(p: Seq<u8>) -> bool {
    match file_name_of(p) {
        Some(n) => valid_utf8(n) && n.len() > 0 && n[0] == 46,
        None => false,
    }
}

/// `base`'s components open `p`'s, as `Path::starts_with` tests it.
pub open spec fn path_starts_with(p: Seq<u8>, base: Seq<u8>) -> bool {
    let a = components(p);
    let b = components(base);
    b.len() <= a.len() && a.subrange(0, b.len() as int) == b
}

/// `base` extended by `rel` as `PathBuf::push` does on Unix: an absolute
/// `rel` replaces `base`; otherwise a slash separates them unless `base` is
/// empty or already ends with one.
pub open spec fn join_path(base: Seq<u8>, rel: Seq<u8>) -> Seq<u8> {
    if rel.len() > 0 && rel[0] == 47 {
        rel
    } else if base.len() > 0 && base.last() != 47 {
        base + seq![47u8] + rel
    } else {
        base + rel
    }
}

/// The path that pushing `comps` one after the other onto an empty path gives.
pub open spec fn collect_path(comps: Seq<Seq<u8>>) -> Seq<u8>
    decreases comps.len(),
{
    if comps.len() == 0 {
        Seq::empty()
    } else {
        join_path(collect_path(comps.drop_last()), comps.last())
    }
}

pub open spec fn comp_views(v: Seq<Vec<u8>>) -> Seq<Seq<u8>> {
    v.map_values(|x: Vec<u8>| x@)
}

proof fn lemma_split_nonempty(p: Seq<u8>)
    ensures
        split_slash(p).len() >= 1,
    decreases p.len(),
{
    if p.len() > 0 {
        lemma_split_nonempty(p.drop_last());
    }
}

proof fn lemma_filter_empty_piece()
    ensures
        seq![Seq::<u8>::empty()].filter(piece_pred()) == Seq::<Seq<u8>>::empty(),
{
    let s = seq![Seq::<u8>::empty()];
    reveal(Seq::filter);
    assert(s.drop_last() =~= Seq::<Seq<u8>>::empty());
    assert(Seq::<Seq<u8>>::empty().filter(piece_pred()) =~= Seq::<Seq<u8>>::empty());
    assert(!keep_piece(s.last()));
    assert(!(piece_pred())(s.last()));
    assert(s.filter(piece_pred()) =~= Seq::<Seq<u8>>::empty());
}

/// A piece of text with no slash in it.
pub open spec fn slash_free(c: Seq<u8>) -> bool {
    forall|k: int| 0 <= k < c.len() ==> c[k] != 47
}

proof fn lemma_split_slash_free(p: Seq<u8>)
    ensures
        forall|i: int| 0 <= i < split_slash(p).len() ==> slash_free(#[trigger] split_slash(p)[i]),
    decreases p.len(),
{
    if p.len() > 0 {
        lemma_split_slash_free(p.drop_last());
        lemma_split_nonempty(p.drop_last());
        let prev = split_slash(p.drop_last());
        if p.last() != 47 {
            let u = prev.update(prev.len() - 1, prev.last().push(p.last()));
            assert forall|i: int| 0 <= i < u.len() implies slash_free(#[trigger] u[i]) by {
                if i == prev.len() - 1 {
                    assert(slash_free(prev[i]));
                    assert forall|k: int| 0 <= k < u[i].len() implies u[i][k] != 47 by {
                        if k < prev[i].len() {
                            assert(u[i][k] == prev[i][k]);
                        }
                    }
                }
            }
        } else {
            let u = prev.push(Seq::<u8>::empty());
            assert forall|i: int| 0 <= i < u.len() implies slash_free(#[trigger] u[i]) by {
                if i < prev.len() {
                    assert(u[i] == prev[i]);
                }
            }
        }
    }
}

proof fn lemma_split_of_slash_free(c: Seq<u8>)
    requires
        slash_free(c),
    ensures
        split_slash(c) == seq![c],
    decreases c.len(),
{
    if c.len() > 0 {
        lemma_split_of_slash_free(c.drop_last());
        assert(c.drop_last().push(c.last()) =~= c);
        assert(seq![c.drop_last()].update(0, c.drop_last().push(c.last())) =~= seq![c]);
    } else {
        assert(c =~= Seq::<u8>::empty());
    }
}

/// Text joined by a slash splits into the pieces of each side.
proof fn lemma_split_concat(a: Seq<u8>, b: Seq<u8>)
    ensures
        split_slash(a + seq![47u8] + b) == split_slash(a) + split_slash(b),
    decreases b.len(),
{
    let p = a + seq![47u8] + b;
    if b.len() == 0 {
        assert(p.drop_last() =~= a);
        assert(split_slash(p) =~= split_slash(a) + split_slash(b));
    } else {
        lemma_split_concat(a, b.drop_last());
        assert(p.drop_last() =~= a + seq![47u8] + b.drop_last());
        assert(p.last() == b.last());
        let sa = split_slash(a);
        let sb = split_slash(b.drop_last());
        lemma_split_nonempty(b.drop_last());
        if b.last() == 47 {
            assert((sa + sb).push(Seq::<u8>::empty()) =~= sa + sb.push(Seq::<u8>::empty()));
        } else {
            let prev = sa + sb;
            assert(prev.last() == sb.last());
            assert(prev.update(prev.len() - 1, prev.last().push(b.last())) =~= sa + sb.update(
                sb.len() - 1,
                sb.last().push(b.last()),
            ));
        }
    }
}

/// The path made by pushing components that are names (or `..`) starts with
/// the first of them and goes on with a slash, if at all.
proof fn lemma_collect_head(cs: Seq<Seq<u8>>)
    requires
        cs.len() > 0,
        forall|i: int| 0 <= i < cs.len() ==> keep_piece(#[trigger] cs[i]) && slash_free(cs[i]),
    ensures
        collect_path(cs).len() >= cs[0].len(),
        collect_path(cs).subrange(0, cs[0].len() as int) == cs[0],
        collect_path(cs).len() > cs[0].len() ==> collect_path(cs)[cs[0].len() as int] == 47,
        collect_path(cs).len() > 0,
        collect_path(cs).last() != 47,
        split_slash(collect_path(cs)).filter(piece_pred()) == cs,
    decreases cs.len(),
{
    let c = cs.last();
    assert(keep_piece(c) && slash_free(c));
    lemma_split_of_slash_free(c);
    if cs.len() == 1 {
        assert(cs.drop_last() =~= Seq::<Seq<u8>>::empty());
        assert(collect_path(cs.drop_last()) == Seq::<u8>::empty());
        assert(c.len() > 0 && c[0] != 47);
        assert(collect_path(cs) =~= c);
        assert(c.last() == c[c.len() - 1]);
        assert(c.subrange(0, c.len() as int) =~= c);
        reveal(Seq::filter);
        assert(seq![c].drop_last() =~= Seq::<Seq<u8>>::empty());
        assert(seq![c].filter(piece_pred()) =~= seq![c]);
        assert(cs =~= seq![c]);
    } else {
        let prefix = cs.drop_last();
        assert forall|i: int| 0 <= i < prefix.len() implies keep_piece(#[trigger] prefix[i])
            && slash_free(prefix[i]) by {
            assert(prefix[i] == cs[i]);
        }
        lemma_collect_head(prefix);
        let base = collect_path(prefix);
        assert(c.len() > 0 && c[0] != 47);
        assert(collect_path(cs) == base + seq![47u8] + c);
        lemma_split_concat(base, c);
        let sb = split_slash(base);
        Seq::filter_distributes_over_add(sb, seq![c], piece_pred());
        reveal(Seq::filter);
        assert(seq![c].drop_last() =~= Seq::<Seq<u8>>::empty());
        assert(seq![c].filter(piece_pred()) =~= seq![c]);
        assert(prefix + seq![c] =~= cs);
        let full = base + seq![47u8] + c;
        assert(full.last() == c.last());
        assert(c.last() == c[c.len() - 1]);
        assert(prefix[0] == cs[0]);
        assert(full.subrange(0, cs[0].len() as int) =~= base.subrange(0, cs[0].len() as int));
        if base.len() > cs[0].len() {
            assert(full[cs[0].len() as int] == base[cs[0].len() as int]);
        } else {
            assert(full[cs[0].len() as int] == 47);
        }
    }
}

/// A path built from components that are names (or `..`) has no leading
/// component and does not start with a slash.
proof fn lemma_collect_no_lead(cs: Seq<Seq<u8>>)
    requires
        forall|i: int| 0 <= i < cs.len() ==> keep_piece(#[trigger] cs[i]) && slash_free(cs[i]),
    ensures
        lead_component(collect_path(cs)) == Seq::<Seq<u8>>::empty(),
        collect_path(cs).len() > 0 ==> collect_path(cs)[0] != 47,
        split_slash(collect_path(cs)).filter(piece_pred()) == cs,
{
    if cs.len() == 0 {
        assert(collect_path(cs) == Seq::<u8>::empty());
        reveal(Seq::filter);
        assert(split_slash(Seq::<u8>::empty()) =~= seq![Seq::<u8>::empty()]);
        lemma_filter_empty_piece();
        assert(seq![Seq::<u8>::empty()].filter(piece_pred()) =~= cs);
    } else {
        lemma_collect_head(cs);
        let p = collect_path(cs);
        let h = cs[0];
        assert(keep_piece(h) && slash_free(h));
        assert(p[0] == h[0]) by {
            assert(p.subrange(0, h.len() as int)[0] == p[0]);
        }
        if h.len() >= 2 {
            assert(p[1] == h[1]) by {
                assert(p.subrange(0, h.len() as int)[1] == p[1]);
            }
        } else {
            if p[0] == 46 {
                assert(h =~= cur_comp());
            }
        }
    }
}

/// Joining text that has no leading component and does not start with a
/// slash onto `base` adds its pieces to `base`'s components.
proof fn lemma_components_join(base: Seq<u8>, rel: Seq<u8>)
    requires
        lead_component(rel) == Seq::<Seq<u8>>::empty(),
        rel.len() > 0 ==> rel[0] != 47,
    ensures
        components(join_path(base, rel)) == components(base) + split_slash(rel).filter(piece_pred()),
{
    let pp = piece_pred();
    if base.len() == 0 {
        assert(join_path(base, rel) == rel);
        reveal(Seq::filter);
        assert(split_slash(base) =~= seq![Seq::<u8>::empty()]);
        lemma_filter_empty_piece();
        assert(components(base) =~= Seq::<Seq<u8>>::empty());
        assert(components(rel) =~= Seq::<Seq<u8>>::empty() + split_slash(rel).filter(pp));
    } else if base.last() != 47 {
        let p = base + seq![47u8] + rel;
        assert(join_path(base, rel) == p);
        lemma_split_concat(base, rel);
        Seq::filter_distributes_over_add(split_slash(base), split_slash(rel), pp);
        assert(lead_component(p) == lead_component(base)) by {
            assert(p[0] == base[0]);
            if base.len() >= 2 {
                assert(p[1] == base[1]);
            } else {
                assert(p[1] == 47);
            }
        }
        assert(components(p) =~= components(base) + split_slash(rel).filter(pp));
    } else {
        let d = base.drop_last();
        let p = base + rel;
        assert(join_path(base, rel) == p);
        assert(p =~= d + seq![47u8] + rel);
        assert(base =~= d + seq![47u8] + Seq::<u8>::empty());
        lemma_split_concat(d, rel);
        lemma_split_concat(d, Seq::<u8>::empty());
        assert(split_slash(Seq::<u8>::empty()) =~= seq![Seq::<u8>::empty()]);
        Seq::filter_distributes_over_add(split_slash(d), split_slash(rel), pp);
        Seq::filter_distributes_over_add(
            split_slash(d),
            seq![Seq::<u8>::empty()],
            pp,
        );
        reveal(Seq::filter);
        lemma_filter_empty_piece();
        assert(lead_component(p) == lead_component(base)) by {
            assert(p[0] == base[0]);
            if base.len() >= 2 {
                assert(p[1] == base[1]);
            }
        }
        assert(split_slash(base).filter(pp) =~= split_slash(d).filter(pp));
        assert(components(p) =~= components(base) + split_slash(rel).filter(pp));
    }
}

/// Every component of a path but the leading one (root or `.`) is a name or
/// `..`: not empty, not `.`, and free of slashes.
pub proof fn lemma_components_are_pieces(p: Seq<u8>)
    ensures
        forall|i: int|
            lead_component(p).len() <= i < components(p).len() ==> keep_piece(
                #[trigger] components(p)[i],
            ) && slash_free(components(p)[i]),
        lead_component(p).len() <= 1,
{
    let s = split_slash(p);
    let f = s.filter(piece_pred());
    let l = lead_component(p);
    lemma_split_slash_free(p);
    assert forall|i: int| l.len() <= i < components(p).len() implies keep_piece(
        #[trigger] components(p)[i],
    ) && slash_free(components(p)[i]) by {
        let j = i - l.len();
        assert(components(p)[i] == f[j]);
        s.lemma_filter_pred(piece_pred(), j);
        assert(f.contains(f[j]));
        s.lemma_filter_contains_rev(piece_pred(), f[j]);
        let w = choose|w: int| 0 <= w < s.len() && s[w] == f[j];
        assert(slash_free(s[w]));
    }
}

/// Pushing components that are names (or `..`) one after the other onto
/// `base` gives a path whose components are `base`'s followed by them.
pub proof fn law_join_components(base: Seq<u8>, cs: Seq<Seq<u8>>)
    requires
        forall|i: int| 0 <= i < cs.len() ==> keep_piece(#[trigger] cs[i]) && slash_free(cs[i]),
    ensures
        components(join_path(base, collect_path(cs))) == components(base) + cs,
        path_starts_with(join_path(base, collect_path(cs)), base),
{
    lemma_collect_no_lead(cs);
    lemma_components_join(base, collect_path(cs));
    let a = components(join_path(base, collect_path(cs)));
    let b = components(base);
    assert(a.subrange(0, b.len() as int) =~= b);
}

pub fn bytes_equal(a: &[u8], b: &[u8]) -> (r: bool)
    ensures
        r == (a@ == b@),
{
    if a.len() != b.len() {
        return false;
    }
    let n = a.len();
    let mut i: usize = 0;
    while i < n
        invariant
            n == a@.len() == b@.len(),
            i <= n,
            forall|j: int| 0 <= j < i ==> a@[j] == b@[j],
        decreases n - i,
    {
        if a[i] != b[i] {
            return false;
        }
        i += 1;
    }
    assert(a@ =~= b@);
    true
}

fn push_bytes(v: &mut Vec<u8>, s: &[u8])
    ensures
        final(v)@ == old(v)@ + s@,
{
    let mut i: usize = 0;
    while i < s.len()
        invariant
            i <= s@.len(),
            v@ == old(v)@ + s@.subrange(0, i as int),
        decreases s@.len() - i,
    {
        v.push(s[i]);
        i += 1;
        assert(v@ =~= old(v)@ + s@.subrange(0, i as int));
    }
    assert(s@.subrange(0, s@.len() as int) =~= s@);
}

fn keeps_piece(s: &[u8]) -> (r: bool)
    ensures
        r == keep_piece(s@),
{
    let r = s.len() > 0 && !(s.len() == 1 && s[0] == 46);
    assert(r == keep_piece(s@)) by {
        if s@.len() == 1 && s@[0] == 46 {
            assert(s@ =~= cur_comp());
        }
    }
    r
}

/// The components of a path, each as its text.
pub fn path_components(p: &[u8]) -> (r: Vec<Vec<u8>>)
    ensures
        comp_views(r@) == components(p@),
{
    let n = p.len();
    let mut out: Vec<Vec<u8>> = Vec::new();
    if n > 0 && p[0] == 47 {
        let mut c = Vec::new();
        c.push(47u8);
        out.push(c);
        assert(comp_views(out@) =~= lead_component(p@));
    } else if n > 0 && p[0] == 46 && (n == 1 || p[1] == 47) {
        let mut c = Vec::new();
        c.push(46u8);
        out.push(c);
        assert(comp_views(out@) =~= lead_component(p@));
    } else {
        assert(comp_views(out@) =~= lead_component(p@));
    }
    let ghost lead = lead_component(p@);
    let mut start: usize = 0;
    let mut i: usize = 0;
    assert(split_slash(p@.subrange(0, 0)) =~= seq![Seq::<u8>::empty()]);
    assert(split_slash(p@.subrange(0, 0)).drop_last().filter(piece_pred()) =~= Seq::<Seq<u8>>::empty())
        by {
        reveal(Seq::filter);
    }
    while i < n
        invariant
            n == p@.len(),
            start <= i <= n,
            lead == lead_component(p@),
            split_slash(p@.subrange(0, i as int)).len() >= 1,
            split_slash(p@.subrange(0, i as int)).last() == p@.subrange(start as int, i as int),
            comp_views(out@) == lead + split_slash(p@.subrange(0, i as int)).drop_last().filter(
                piece_pred(),
            ),
        decreases n - i,
    {
        let ghost old_split = split_slash(p@.subrange(0, i as int));
        let ghost q = p@.subrange(0, i + 1);
        proof {
            assert(q.drop_last() =~= p@.subrange(0, i as int));
            assert(q.last() == p@[i as int]);
        }
        if p[i] == 47 {
            let seg = vstd::slice::slice_subrange(p, start, i);
            let ghost old_out = comp_views(out@);
            proof {
                assert(split_slash(q) == old_split.push(Seq::empty()));
                assert(split_slash(q).drop_last() =~= old_split.drop_last().push(old_split.last()));
                old_split.drop_last().lemma_filter_push(old_split.last(), piece_pred());
            }
            if keeps_piece(seg) {
                out.push(slice_to_vec(seg));
                assert(comp_views(out@) =~= old_out.push(seg@));
            }
            start = i + 1;
            proof {
                assert(split_slash(q).last() =~= p@.subrange(start as int, i + 1));
            }
        } else {
            proof {
                let u = old_split.update(old_split.len() - 1, old_split.last().push(p@[i as int]));
                assert(split_slash(q) == u);
                assert(u.drop_last() =~= old_split.drop_last());
                assert(u.last() =~= p@.subrange(start as int, i + 1));
            }
        }
        i += 1;
    }
    assert(p@.subrange(0, n as int) =~= p@);
    let seg = vstd::slice::slice_subrange(p, start, n);
    let ghost sp = split_slash(p@);
    let ghost old_out = comp_views(out@);
    proof {
        assert(sp =~= sp.drop_last().push(sp.last()));
        sp.drop_last().lemma_filter_push(sp.last(), piece_pred());
    }
    if keeps_piece(seg) {
        out.push(slice_to_vec(seg));
        assert(comp_views(out@) =~= old_out.push(seg@));
    }
    proof {
        assert(lead + sp.drop_last().filter(piece_pred()) + (if keep_piece(sp.last()) {
            seq![sp.last()]
        } else {
            Seq::empty()
        }) =~= components(p@));
    }
    out
}

/// The file name of a path: its last component when that is a name.
pub fn file_name(p: &[u8]) -> (r: Option<Vec<u8>>)
    ensures
        r matches Some(n) ==> file_name_of(p@) == Some(n@),
        r is None ==> file_name_of(p@) is None,
{
    let mut comps = path_components(p);
    let ghost cv = comp_views(comps@);
    match comps.pop() {
        None => None,
        Some(last) => {
            proof {
                assert(cv.last() == last@);
            }
            let normal = !bytes_equal(last.as_slice(), &[47u8]) && !bytes_equal(
                last.as_slice(),
                &[46u8],
            ) && !bytes_equal(last.as_slice(), &[46u8, 46u8]);
            proof {
                assert(seq![47u8] =~= root_comp());
                assert(seq![46u8] =~= cur_comp());
                assert(seq![46u8, 46u8] =~= parent_comp());
                assert([47u8]@ =~= root_comp());
                assert([46u8]@ =~= cur_comp());
                assert([46u8, 46u8]@ =~= parent_comp());
            }
            if normal {
                Some(last)
            } else {
                None
            }
        },
    }
}

proof fn lemma_last_dot_range(name: Seq<u8>)
    ensures
        -1 <= last_dot(name) < name.len(),
        last_dot(name) >= 0 ==> name[last_dot(name)] == 46,
        forall|j: int| last_dot(name) < j < name.len() ==> name[j] != 46,
    decreases name.len(),
{
    if name.len() > 0 && name.last() != 46 {
        lemma_last_dot_range(name.drop_last());
        assert forall|j: int| last_dot(name) < j < name.len() implies name[j] != 46 by {
            if j < name.len() - 1 {
                assert(name.drop_last()[j] == name[j]);
            }
        }
    }
}

proof fn lemma_last_dot_suffix(s: Seq<u8>, e: Seq<u8>)
    requires
        forall|k: int| 0 <= k < e.len() ==> e[k] != 46,
    ensures
        last_dot(s + seq![46u8] + e) == s.len(),
    decreases e.len(),
{
    let n = s + seq![46u8] + e;
    if e.len() == 0 {
        assert(n.last() == 46u8);
    } else {
        assert(n.drop_last() =~= s + seq![46u8] + e.drop_last());
        assert(n.last() == e.last());
        lemma_last_dot_suffix(s, e.drop_last());
    }
}

proof fn lemma_last_dot_none(e: Seq<u8>)
    requires
        forall|k: int| 0 <= k < e.len() ==> e[k] != 46,
    ensures
        last_dot(e) == -1,
    decreases e.len(),
{
    if e.len() > 0 {
        lemma_last_dot_none(e.drop_last());
    }
}

/// The extension of a file name is everything after its last dot, however
/// long, when that dot does not open the name and the name is not `..`; a
/// name without a dot, or whose only dot opens it, has no extension.
pub proof fn law_extension_after_last_dot(s: Seq<u8>, e: Seq<u8>)
    requires
        forall|k: int| 0 <= k < e.len() ==> e[k] != 46,
    ensures
        s.len() > 0 && s + seq![46u8] + e != parent_comp() ==> extension_of(s + seq![46u8] + e) == Some(
            e,
        ),
        extension_of(e) is None,
        extension_of(seq![46u8] + e) is None,
{
    lemma_last_dot_suffix(s, e);
    lemma_last_dot_suffix(Seq::<u8>::empty(), e);
    assert(Seq::<u8>::empty() + seq![46u8] + e =~= seq![46u8] + e);
    lemma_last_dot_none(e);
    let n = s + seq![46u8] + e;
    assert(n.subrange(s.len() as int + 1, n.len() as int) =~= e);
}

/// The extension of a file name (what follows its last `.`, unless that `.`
/// opens the name).
pub fn extension(name: &[u8]) -> (r: Option<Vec<u8>>)
    ensures
        r matches Some(e) ==> extension_of(name@) == Some(e@),
        r is None ==> extension_of(name@) is None,
{
    let n = name.len();
    let mut i: usize = n;
    while i > 0 && name[i - 1] != 46
        invariant
            n == name@.len(),
            i <= n,
            forall|j: int| i <= j < n ==> name@[j] != 46,
        decreases i,
    {
        i -= 1;
    }
    proof {
        lemma_last_dot_range(name@);
        let d = last_dot(name@);
        if i > 0 {
            assert(d == i - 1) by {
                if d < i - 1 {
                    assert(name@[i - 1] == 46);
                }
            }
        } else {
            assert(d == -1) by {
                if d >= 0 {
                    assert(name@[d] == 46);
                }
            }
        }
    }
    if bytes_equal(name, &[46u8, 46u8]) {
        assert([46u8, 46u8]@ =~= parent_comp());
        return None;
    }
    assert([46u8, 46u8]@ =~= parent_comp());
    if i <= 1 {
        None
    } else {
        let e = slice_to_vec(vstd::slice::slice_subrange(name, i, n));
        Some(e)
    }
}

/// Whether a path names a hidden file: its file name is valid UTF-8 and
/// starts with `.`.
pub fn is_hidden(p: &[u8]) -> (r: bool)
    ensures
        r == is_hidden_path(p@),
{
    match file_name(p) {
        None => false,
        Some(name) => match utf8_str(name.as_slice()) {
            None => false,
            Some(_) => name.len() > 0 && name[0] == 46,
        },
    }
}

fn comps_equal(a: &Vec<Vec<u8>>, b: &Vec<Vec<u8>>, n: usize) -> (r: bool)
    requires
        n <= a@.len(),
        n <= b@.len(),
    ensures
        r == (comp_views(a@).subrange(0, n as int) == comp_views(b@).subrange(0, n as int)),
{
    let mut i: usize = 0;
    while i < n
        invariant
            n <= a@.len(),
            n <= b@.len(),
            i <= n,
            forall|j: int| 0 <= j < i ==> a@[j]@ == b@[j]@,
        decreases n - i,
    {
        if !bytes_equal(a[i].as_slice(), b[i].as_slice()) {
            assert(comp_views(a@).subrange(0, n as int)[i as int] != comp_views(b@).subrange(
                0,
                n as int,
            )[i as int]);
            return false;
        }
        i += 1;
    }
    assert(comp_views(a@).subrange(0, n as int) =~= comp_views(b@).subrange(0, n as int));
    true
}

/// Whether `base`'s components open `p`'s.
pub fn starts_with(p: &[u8], base: &[u8]) -> (r: bool)
    ensures
        r == path_starts_with(p@, base@),
{
    let a = path_components(p);
    let b = path_components(base);
    if b.len() > a.len() {
        return false;
    }
    let nb = b.len();
    let r = comps_equal(&a, &b, nb);
    assert(comp_views(b@).subrange(0, nb as int) =~= comp_views(b@));
    r
}

/// Whether two paths are equal as `Path` values compare: component by
/// component.
pub fn same_path(a: &[u8], b: &[u8]) -> (r: bool)
    ensures
        r == (components(a@) == components(b@)),
{
    let ca = path_components(a);
    let cb = path_components(b);
    if ca.len() != cb.len() {
        assert(comp_views(ca@).len() == ca@.len());
        return false;
    }
    let n = ca.len();
    let r = comps_equal(&ca, &cb, n);
    assert(comp_views(ca@).subrange(0, n as int) =~= comp_views(ca@));
    assert(comp_views(cb@).subrange(0, n as int) =~= comp_views(cb@));
    r
}

/// `base` extended by `rel`, as `PathBuf::push` extends it.
pub fn join(base: &[u8], rel: &[u8]) -> (r: Vec<u8>)
    ensures
        r@ == join_path(base@, rel@),
{
    if rel.len() > 0 && rel[0] == 47 {
        return slice_to_vec(rel);
    }
    let mut out = slice_to_vec(base);
    if base.len() > 0 && base[base.len() - 1] != 47 {
        out.push(47u8);
    }
    push_bytes(&mut out, rel);
    out
}

/// The path built by pushing each of `comps[from..]` onto an empty path.
pub fn collect_components(comps: &Vec<Vec<u8>>, from: usize) -> (r: Vec<u8>)
    requires
        from <= comps@.len(),
    ensures
        r@ == collect_path(comp_views(comps@).subrange(from as int, comps@.len() as int)),
{
    let mut out: Vec<u8> = Vec::new();
    let mut i = from;
    let ghost cv = comp_views(comps@);
    assert(cv.subrange(from as int, from as int) =~= Seq::<Seq<u8>>::empty());
    while i < comps.len()
        invariant
            from <= i <= comps@.len(),
            cv == comp_views(comps@),
            out@ == collect_path(cv.subrange(from as int, i as int)),
        decreases comps@.len() - i,
    {
        let next = join(out.as_slice(), comps[i].as_slice());
        proof {
            assert(cv.subrange(from as int, i + 1).drop_last() =~= cv.subrange(from as int, i as int));
        }
        out = next;
        i += 1;
    }
    out
}

} // verus!
