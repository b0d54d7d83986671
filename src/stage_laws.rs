use vstd::prelude::*;

use crate::object::{FileObject, FileState, Object};
use crate::stage::{
    apply, apply_built, base, child_of, clen, comp, group, holds_built, leaf, level, level_built, maxlen, names,
    registered, resets, all_paths, StagePath, WorkNode,
};
use crate::tree::{
    all_above, del, lemma_lookup_below, lemma_lookup_put, lemma_put_sorted,
    lemma_sorted_tail, lemma_sorted_unique, lookup, put, sorted, tree_digest, DirObject, EntryV,
};

verus! {

/// Every cached listing is in canonical order.
pub open spec fn store_sorted(s: Map<[u8; 20], DirObject>) -> bool {
    forall|k: [u8; 20]| #[trigger] s.contains_key(k) ==> sorted(s[k]@)
}

/// No two different listings are cached under one digest: what is cached
/// under the digest of `t` is `t`.
pub open spec fn collision_free(s: Map<[u8; 20], DirObject>) -> bool {
    forall|t: Seq<EntryV>| #[trigger] s.contains_key(tree_digest(t).0) ==> s[tree_digest(t).0]@ == t
}

/// What staging name `names[j]` of a level sets that entry to.
pub open spec fn step_value(
    s: Map<[u8; 20], DirObject>,
    paths: Seq<StagePath>,
    idx: Seq<usize>,
    d: int,
    b: Seq<EntryV>,
    j: int,
) -> Option<Object> {
    let c = names(paths, idx, d)[j];
    let g = group(paths, idx, d, c);
    match leaf(paths, g, d) {
        Some(i) => match paths[i as int].node {
            WorkNode::File(h, _) => Some(Object::File(h)),
            _ => None,
        },
        None => Some(Object::Dir(tree_digest(level(s, paths, child_of(b, c), g, d + 1)->0))),
    }
}

proof fn lemma_names_distinct(paths: Seq<StagePath>, idx: Seq<usize>, d: int)
    ensures
        forall|i: int, j: int|
            0 <= i < j < names(paths, idx, d).len() ==> #[trigger] names(paths, idx, d)[i] != #[trigger] names(
                paths,
                idx,
                d,
            )[j],
    decreases idx.len(),
{
    if idx.len() > 0 {
        lemma_names_distinct(paths, idx.drop_last(), d);
        let rest = names(paths, idx.drop_last(), d);
        let ns = names(paths, idx, d);
        assert forall|i: int, j: int| 0 <= i < j < ns.len() implies #[trigger] ns[i] != #[trigger] ns[j] by {
            if j < rest.len() {
                assert(ns[i] == rest[i] && ns[j] == rest[j]);
            } else {
                assert(ns[i] == rest[i]);
                assert(rest.contains(rest[i]));
            }
        }
    }
}

proof fn lemma_lookup_del_other(s: Seq<EntryV>, k: Seq<u8>, j: Seq<u8>)
    requires
        j != k,
    ensures
        lookup(del(s, k), j) == lookup(s, j),
    decreases s.len(),
{
    if s.len() > 0 && s[0].0 != k {
        lemma_lookup_del_other(s.drop_first(), k, j);
        let t = del(s, k);
        assert(t.drop_first() =~= del(s.drop_first(), k));
        assert(t[0] == s[0]);
    }
}

proof fn lemma_lookup_del_self(s: Seq<EntryV>, k: Seq<u8>)
    requires
        sorted(s),
    ensures
        lookup(del(s, k), k) is None,
    decreases s.len(),
{
    if s.len() > 0 {
        lemma_sorted_tail(s);
        if s[0].0 == k {
            lemma_lookup_below(s.drop_first(), k);
        } else {
            lemma_lookup_del_self(s.drop_first(), k);
            let t = del(s, k);
            assert(t.drop_first() =~= del(s.drop_first(), k));
            assert(t[0] == s[0]);
        }
    }
}

proof fn lemma_del_above(s: Seq<EntryV>, k: Seq<u8>, b: Seq<u8>)
    requires
        all_above(s, b),
    ensures
        all_above(del(s, k), b),
    decreases s.len(),
{
    if s.len() > 0 {
        let r = s.drop_first();
        assert forall|i: int| 0 <= i < r.len() implies crate::tree::lex_lt(b, #[trigger] r[i].0) by {
            assert(r[i] == s[i + 1]);
        }
        lemma_del_above(r, k, b);
        if s[0].0 != k {
            let t = del(s, k);
            assert forall|i: int| 0 <= i < t.len() implies crate::tree::lex_lt(b, #[trigger] t[i].0) by {
                if i > 0 {
                    assert(t[i] == del(r, k)[i - 1]);
                }
            }
        }
    }
}

proof fn lemma_del_sorted(s: Seq<EntryV>, k: Seq<u8>)
    requires
        sorted(s),
    ensures
        sorted(del(s, k)),
    decreases s.len(),
{
    if s.len() > 0 {
        lemma_sorted_tail(s);
        if s[0].0 != k {
            let r = s.drop_first();
            lemma_del_sorted(r, k);
            lemma_del_above(r, k, s[0].0);
            let t = del(s, k);
            let dr = del(r, k);
            assert forall|i: int, j: int| 0 <= i < j < t.len() implies crate::tree::lex_lt(
                #[trigger] t[i].0,
                #[trigger] t[j].0,
            ) by {
                assert(t[j] == dr[j - 1]);
                if i > 0 {
                    assert(t[i] == dr[i - 1]);
                }
            }
        }
    }
}

proof fn lemma_put_noop(t: Seq<EntryV>, c: Seq<u8>, v: Object)
    requires
        sorted(t),
        lookup(t, c) == Some(v),
    ensures
        put(t, c, v) == t,
{
    lemma_put_sorted(t, c, v);
    assert forall|k: Seq<u8>| lookup(put(t, c, v), k) == lookup(t, k) by {
        lemma_lookup_put(t, c, v, k);
    }
    lemma_sorted_unique(put(t, c, v), t);
}

proof fn lemma_del_noop(t: Seq<EntryV>, c: Seq<u8>)
    requires
        lookup(t, c) is None,
    ensures
        del(t, c) == t,
    decreases t.len(),
{
    if t.len() > 0 {
        lemma_del_noop(t.drop_first(), c);
        assert(seq![t[0]] + t.drop_first() =~= t);
    }
}

proof fn lemma_apply_sorted(
    s: Map<[u8; 20], DirObject>,
    paths: Seq<StagePath>,
    idx: Seq<usize>,
    d: int,
    b: Seq<EntryV>,
    m: int,
)
    requires
        sorted(b),
        apply(s, paths, idx, d, b, m) is Some,
    ensures
        sorted(apply(s, paths, idx, d, b, m)->0),
    decreases m,
{
    if 0 < m <= names(paths, idx, d).len() {
        lemma_apply_sorted(s, paths, idx, d, b, m - 1);
        let t = apply(s, paths, idx, d, b, m - 1)->0;
        let c = names(paths, idx, d)[m - 1];
        lemma_del_sorted(t, c);
        match leaf(paths, group(paths, idx, d, c), d) {
            Some(i) => match paths[i as int].node {
                WorkNode::File(h, _) => {
                    lemma_put_sorted(t, c, Object::File(h));
                },
                _ => {},
            },
            None => {
                let ct = level(s, paths, child_of(b, c), group(paths, idx, d, c), d + 1);
                if ct is Some {
                    lemma_put_sorted(t, c, Object::Dir(tree_digest(ct->0)));
                }
            },
        }
    }
}

proof fn lemma_apply_lookup(
    s: Map<[u8; 20], DirObject>,
    paths: Seq<StagePath>,
    idx: Seq<usize>,
    d: int,
    b: Seq<EntryV>,
    m: int,
    j: int,
)
    requires
        sorted(b),
        0 <= j < m <= names(paths, idx, d).len(),
        apply(s, paths, idx, d, b, m) is Some,
    ensures
        lookup(apply(s, paths, idx, d, b, m)->0, names(paths, idx, d)[j]) == step_value(s, paths, idx, d, b, j),
    decreases m,
{
    let ns = names(paths, idx, d);
    let t = apply(s, paths, idx, d, b, m - 1)->0;
    let c = ns[m - 1];
    lemma_apply_sorted(s, paths, idx, d, b, m - 1);
    if m - 1 == j {
        lemma_lookup_del_self(t, c);
        match leaf(paths, group(paths, idx, d, c), d) {
            Some(i) => match paths[i as int].node {
                WorkNode::File(h, _) => {
                    lemma_lookup_put(t, c, Object::File(h), c);
                },
                _ => {},
            },
            None => {
                let ct = level(s, paths, child_of(b, c), group(paths, idx, d, c), d + 1);
                if ct is Some {
                    lemma_lookup_put(t, c, Object::Dir(tree_digest(ct->0)), c);
                }
            },
        }
    } else {
        lemma_apply_lookup(s, paths, idx, d, b, m - 1, j);
        lemma_names_distinct(paths, idx, d);
        assert(ns[j] != c);
        lemma_lookup_del_other(t, c, ns[j]);
        match leaf(paths, group(paths, idx, d, c), d) {
            Some(i) => match paths[i as int].node {
                WorkNode::File(h, _) => {
                    lemma_lookup_put(t, c, Object::File(h), ns[j]);
                },
                _ => {},
            },
            None => {
                let ct = level(s, paths, child_of(b, c), group(paths, idx, d, c), d + 1);
                if ct is Some {
                    lemma_lookup_put(t, c, Object::Dir(tree_digest(ct->0)), ns[j]);
                }
            },
        }
    }
}

proof fn lemma_apply_some(
    s: Map<[u8; 20], DirObject>,
    paths: Seq<StagePath>,
    idx: Seq<usize>,
    d: int,
    b: Seq<EntryV>,
    m: int,
    n: int,
)
    requires
        0 <= m <= n <= names(paths, idx, d).len(),
        apply(s, paths, idx, d, b, n) is Some,
    ensures
        apply(s, paths, idx, d, b, m) is Some,
    decreases n - m,
{
    if m < n {
        lemma_apply_some(s, paths, idx, d, b, m + 1, n);
    }
}

/// With nothing inherited, staging reads no cached tree.
proof fn lemma_fresh_level(
    s1: Map<[u8; 20], DirObject>,
    s2: Map<[u8; 20], DirObject>,
    paths: Seq<StagePath>,
    idx: Seq<usize>,
    d: int,
)
    ensures
        level(s1, paths, None, idx, d) == level(s2, paths, None, idx, d),
    decreases maxlen(paths) - d, names(paths, idx, d).len() + 1,
{
    lemma_fresh_apply(s1, s2, paths, idx, d, names(paths, idx, d).len() as int);
}

proof fn lemma_fresh_apply(
    s1: Map<[u8; 20], DirObject>,
    s2: Map<[u8; 20], DirObject>,
    paths: Seq<StagePath>,
    idx: Seq<usize>,
    d: int,
    n: int,
)
    ensures
        apply(s1, paths, idx, d, Seq::empty(), n) == apply(s2, paths, idx, d, Seq::empty(), n),
    decreases maxlen(paths) - d, n,
{
    if 0 < n <= names(paths, idx, d).len() {
        lemma_fresh_apply(s1, s2, paths, idx, d, n - 1);
        let c = names(paths, idx, d)[n - 1];
        assert(lookup(Seq::<EntryV>::empty(), c) is None);
        if d < maxlen(paths) {
            lemma_fresh_level(s1, s2, paths, group(paths, idx, d, c), d + 1);
        }
    }
}

/// Every listing of `built` is cached in `s` under its digest.
pub open spec fn caches_all(s: Map<[u8; 20], DirObject>, built: Seq<Seq<EntryV>>) -> bool {
    forall|i: int| 0 <= i < built.len() ==> s.contains_key(tree_digest(#[trigger] built[i]).0)
}

proof fn lemma_built_prefix(
    s: Map<[u8; 20], DirObject>,
    paths: Seq<StagePath>,
    idx: Seq<usize>,
    d: int,
    b: Seq<EntryV>,
    m: int,
    n: int,
)
    requires
        0 <= m <= n <= names(paths, idx, d).len(),
    ensures
        apply_built(s, paths, idx, d, b, m).len() <= apply_built(s, paths, idx, d, b, n).len(),
        forall|i: int| 0 <= i < apply_built(s, paths, idx, d, b, m).len() ==> apply_built(s, paths, idx, d, b, n)[i]
            == #[trigger] apply_built(s, paths, idx, d, b, m)[i],
    decreases n - m,
{
    if m < n {
        lemma_built_prefix(s, paths, idx, d, b, m, n - 1);
    }
}

proof fn lemma_level_idem(
    s1: Map<[u8; 20], DirObject>,
    s2: Map<[u8; 20], DirObject>,
    paths: Seq<StagePath>,
    inh: Option<crate::digest::DirHash>,
    idx: Seq<usize>,
    d: int,
)
    requires
        store_sorted(s1),
        collision_free(s2),
        level(s1, paths, inh, idx, d) is Some,
        caches_all(s2, level_built(s1, paths, inh, idx, d)),
    ensures
        level(s2, paths, Some(tree_digest(level(s1, paths, inh, idx, d)->0)), idx, d) == level(
            s1,
            paths,
            inh,
            idx,
            d,
        ),
    decreases maxlen(paths) - d, names(paths, idx, d).len() + 1,
{
    let t1 = level(s1, paths, inh, idx, d)->0;
    let n = names(paths, idx, d).len() as int;
    if resets(paths, idx, d) {
        lemma_fresh_apply(s1, s2, paths, idx, d, n);
    } else {
        let b1 = base(s1, paths, inh, idx, d)->0;
        let lb = level_built(s1, paths, inh, idx, d);
        let ab = apply_built(s1, paths, idx, d, b1, n);
        assert(lb == ab.push(t1));
        assert(lb[ab.len() as int] == t1);
        assert(s2.contains_key(tree_digest(t1).0));
        assert(s2[tree_digest(t1).0]@ == t1);
        match inh {
            Some(h) => {
                assert(s1.contains_key(h.0));
            },
            None => {},
        }
        assert(sorted(b1));
        assert forall|i: int| 0 <= i < ab.len() implies s2.contains_key(tree_digest(#[trigger] ab[i]).0) by {
            assert(lb[i] == ab[i]);
        }
        lemma_apply_idem(s1, s2, paths, idx, d, b1, n);
    }
}

proof fn lemma_apply_idem(
    s1: Map<[u8; 20], DirObject>,
    s2: Map<[u8; 20], DirObject>,
    paths: Seq<StagePath>,
    idx: Seq<usize>,
    d: int,
    b1: Seq<EntryV>,
    m: int,
)
    requires
        store_sorted(s1),
        collision_free(s2),
        sorted(b1),
        0 <= m <= names(paths, idx, d).len(),
        apply(s1, paths, idx, d, b1, names(paths, idx, d).len() as int) is Some,
        caches_all(s2, apply_built(s1, paths, idx, d, b1, names(paths, idx, d).len() as int)),
    ensures
        apply(s2, paths, idx, d, apply(s1, paths, idx, d, b1, names(paths, idx, d).len() as int)->0, m)
            == apply(s1, paths, idx, d, b1, names(paths, idx, d).len() as int),
    decreases maxlen(paths) - d, m,
{
    let n = names(paths, idx, d).len() as int;
    let t1 = apply(s1, paths, idx, d, b1, n)->0;
    if m > 0 {
        lemma_apply_idem(s1, s2, paths, idx, d, b1, m - 1);
        lemma_apply_sorted(s1, paths, idx, d, b1, n);
        lemma_apply_lookup(s1, paths, idx, d, b1, n, m - 1);
        lemma_apply_some(s1, paths, idx, d, b1, m, n);
        let c = names(paths, idx, d)[m - 1];
        let g = group(paths, idx, d, c);
        match leaf(paths, g, d) {
            Some(i) => match paths[i as int].node {
                WorkNode::File(h, _) => {
                    lemma_put_noop(t1, c, Object::File(h));
                },
                _ => {
                    lemma_del_noop(t1, c);
                },
            },
            None => {
                let ct = level(s1, paths, child_of(b1, c), g, d + 1)->0;
                assert(child_of(t1, c) == Some(tree_digest(ct)));
                let prev = apply_built(s1, paths, idx, d, b1, m - 1);
                let cb = level_built(s1, paths, child_of(b1, c), g, d + 1);
                let am = apply_built(s1, paths, idx, d, b1, m);
                let an = apply_built(s1, paths, idx, d, b1, n);
                assert(am == prev + cb);
                lemma_built_prefix(s1, paths, idx, d, b1, m, n);
                assert forall|i: int| 0 <= i < cb.len() implies s2.contains_key(tree_digest(#[trigger] cb[i]).0) by {
                    assert(am[prev.len() + i] == cb[i]);
                    assert(an[prev.len() + i] == am[prev.len() + i]);
                }
                lemma_level_idem(s1, s2, paths, child_of(b1, c), g, d + 1);
                lemma_put_noop(t1, c, Object::Dir(tree_digest(ct)));
            },
        }
    }
}

/// Staging the same paths, with the working tree unchanged, on top of what
/// staging them gave, gives the same tree again: the same listing, so the same
/// digest. `s2` is the tree cache after the first staging, which holds every
/// listing it built (`holds_built` of `index_paths`); this holds wherever that
/// cache does not hold two listings under one digest.
pub proof fn law_stage_idempotent(
    s1: Map<[u8; 20], DirObject>,
    s2: Map<[u8; 20], DirObject>,
    old: Map<[u8; 20], DirObject>,
    paths: Seq<StagePath>,
    inh: Option<crate::digest::DirHash>,
    idx: Seq<usize>,
)
    requires
        store_sorted(s1),
        collision_free(s2),
        level(s1, paths, inh, idx, 0) is Some,
        holds_built(s2, old, level_built(s1, paths, inh, idx, 0)),
    ensures
        level(s2, paths, Some(tree_digest(level(s1, paths, inh, idx, 0)->0)), idx, 0) == level(
            s1,
            paths,
            inh,
            idx,
            0,
        ),
{
    lemma_level_idem(s1, s2, paths, inh, idx, 0);
}

proof fn lemma_apply_untouched(
    s: Map<[u8; 20], DirObject>,
    paths: Seq<StagePath>,
    idx: Seq<usize>,
    d: int,
    b: Seq<EntryV>,
    m: int,
    c: Seq<u8>,
)
    requires
        apply(s, paths, idx, d, b, m) is Some,
        !names(paths, idx, d).contains(c),
    ensures
        lookup(apply(s, paths, idx, d, b, m)->0, c) == lookup(b, c),
    decreases m,
{
    if 0 < m <= names(paths, idx, d).len() {
        lemma_apply_untouched(s, paths, idx, d, b, m - 1, c);
        let t = apply(s, paths, idx, d, b, m - 1)->0;
        let c2 = names(paths, idx, d)[m - 1];
        assert(c2 != c);
        lemma_lookup_del_other(t, c2, c);
        match leaf(paths, group(paths, idx, d, c2), d) {
            Some(i) => match paths[i as int].node {
                WorkNode::File(h, _) => {
                    lemma_lookup_put(t, c2, Object::File(h), c);
                },
                _ => {},
            },
            None => {
                let ct = level(s, paths, child_of(b, c2), group(paths, idx, d, c2), d + 1);
                if ct is Some {
                    lemma_lookup_put(t, c2, Object::Dir(tree_digest(ct->0)), c);
                }
            },
        }
    }
}

/// Reading an entry of a staged directory: the entry named `names[j]` is what
/// staging that name sets it to (`step_value`): the staged file, nothing for a
/// path that is gone, or the rebuilt subdirectory's digest.
pub proof fn law_staged_entry(
    s: Map<[u8; 20], DirObject>,
    paths: Seq<StagePath>,
    inh: Option<crate::digest::DirHash>,
    idx: Seq<usize>,
    d: int,
    j: int,
)
    requires
        store_sorted(s),
        level(s, paths, inh, idx, d) is Some,
        0 <= j < names(paths, idx, d).len(),
    ensures
        lookup(level(s, paths, inh, idx, d)->0, names(paths, idx, d)[j]) == step_value(
            s,
            paths,
            idx,
            d,
            base(s, paths, inh, idx, d)->0,
            j,
        ),
{
    let b = base(s, paths, inh, idx, d)->0;
    match inh {
        Some(h) => {
            if !resets(paths, idx, d) {
                assert(s.contains_key(h.0));
            }
        },
        None => {},
    }
    assert(sorted(b));
    lemma_apply_lookup(s, paths, idx, d, b, names(paths, idx, d).len() as int, j);
}

/// An entry of a staged directory that no staged path goes through keeps the
/// value it had in the directory staging started from.
pub proof fn law_staged_untouched(
    s: Map<[u8; 20], DirObject>,
    paths: Seq<StagePath>,
    inh: Option<crate::digest::DirHash>,
    idx: Seq<usize>,
    d: int,
    c: Seq<u8>,
)
    requires
        level(s, paths, inh, idx, d) is Some,
        !names(paths, idx, d).contains(c),
    ensures
        lookup(level(s, paths, inh, idx, d)->0, c) == lookup(base(s, paths, inh, idx, d)->0, c),
{
    lemma_apply_untouched(s, paths, idx, d, base(s, paths, inh, idx, d)->0, names(paths, idx, d).len() as int, c);
}

/// Every listing staging built can be read back from the tree cache under its
/// digest, wherever the cache does not hold two listings under one digest.
pub proof fn law_built_readable(
    dirs: Map<[u8; 20], DirObject>,
    old: Map<[u8; 20], DirObject>,
    built: Seq<Seq<EntryV>>,
    i: int,
)
    requires
        holds_built(dirs, old, built),
        collision_free(dirs),
        0 <= i < built.len(),
    ensures
        dirs.contains_key(tree_digest(built[i]).0),
        dirs[tree_digest(built[i]).0]@ == built[i],
{
}

/// Registering staged files caches a blob under the digest of every staged
/// file, keeps every blob already cached, and adds nothing else: files with
/// the same bytes share one blob.
pub proof fn law_registered(files: Map<[u8; 20], FileObject>, paths: Seq<StagePath>)
    ensures
        forall|k: [u8; 20]| #[trigger] files.contains_key(k) ==> registered(files, paths).contains_key(k)
            && registered(files, paths)[k] == files[k],
        forall|i: int| 0 <= i < paths.len() ==> match (#[trigger] paths[i]).node {
            WorkNode::File(h, _) => registered(files, paths).contains_key(h.0),
            _ => true,
        },
        forall|k: [u8; 20]| #[trigger] registered(files, paths).contains_key(k) && !files.contains_key(k) ==> {
            &&& registered(files, paths)[k].permissions == 0
            &&& exists|i: int| 0 <= i < paths.len() && match (#[trigger] paths[i]).node {
                WorkNode::File(h, src) => h.0 == k && registered(files, paths)[k].state == FileState::New(src),
                _ => false,
            }
        },
    decreases paths.len(),
{
    if paths.len() > 0 {
        let r = paths.drop_last();
        law_registered(files, r);
        let m = registered(files, r);
        let last = paths.last();
        assert forall|i: int| 0 <= i < paths.len() implies match (#[trigger] paths[i]).node {
            WorkNode::File(h, _) => registered(files, paths).contains_key(h.0),
            _ => true,
        } by {
            if i < r.len() {
                assert(paths[i] == r[i]);
            }
        }
        assert forall|k: [u8; 20]| #[trigger] registered(files, paths).contains_key(k) && !files.contains_key(k) implies {
            &&& registered(files, paths)[k].permissions == 0
            &&& exists|i: int| 0 <= i < paths.len() && match (#[trigger] paths[i]).node {
                WorkNode::File(h, src) => h.0 == k && registered(files, paths)[k].state == FileState::New(src),
                _ => false,
            }
        } by {
            if m.contains_key(k) {
                let i = choose|i: int| 0 <= i < r.len() && match (#[trigger] r[i]).node {
                    WorkNode::File(h, src) => h.0 == k && m[k].state == FileState::New(src),
                    _ => false,
                };
                assert(paths[i] == r[i]);
            } else {
                assert(paths[paths.len() - 1] == last);
            }
        }
    }
}

/// `idx` picks a path equal to `x`'s.
pub open spec fn has_copy(paths: Seq<StagePath>, idx: Seq<usize>, x: usize) -> bool {
    exists|t: int| 0 <= t < idx.len() && paths[#[trigger] idx[t] as int] == paths[x as int]
}

proof fn lemma_names_has(paths: Seq<StagePath>, idx: Seq<usize>, d: int, t: int)
    requires
        0 <= t < idx.len(),
        clen(paths[idx[t] as int]) > d,
    ensures
        names(paths, idx, d).contains(comp(paths[idx[t] as int], d)),
    decreases idx.len(),
{
    let rest = names(paths, idx.drop_last(), d);
    if t < idx.len() - 1 {
        assert(idx.drop_last()[t] == idx[t]);
        lemma_names_has(paths, idx.drop_last(), d, t);
        let w = choose|w: int| 0 <= w < rest.len() && rest[w] == comp(paths[idx[t] as int], d);
        assert(names(paths, idx, d)[w] == rest[w]);
    } else {
        if !rest.contains(comp(paths[idx[t] as int], d)) {
            assert(names(paths, idx, d)[rest.len() as int] == comp(paths[idx[t] as int], d));
        }
    }
}

proof fn lemma_group_has(paths: Seq<StagePath>, idx: Seq<usize>, d: int, c: Seq<u8>, t: int)
    requires
        0 <= t < idx.len(),
        clen(paths[idx[t] as int]) > d,
        comp(paths[idx[t] as int], d) == c,
    ensures
        exists|w: int| 0 <= w < group(paths, idx, d, c).len() && #[trigger] group(paths, idx, d, c)[w] == idx[t],
    decreases idx.len(),
{
    let rest = group(paths, idx.drop_last(), d, c);
    if t < idx.len() - 1 {
        assert(idx.drop_last()[t] == idx[t]);
        lemma_group_has(paths, idx.drop_last(), d, c, t);
        let w = choose|w: int| 0 <= w < rest.len() && #[trigger] rest[w] == idx[t];
        assert(group(paths, idx, d, c)[w] == rest[w]);
    } else {
        assert(group(paths, idx, d, c)[rest.len() as int] == idx[t]);
    }
}

proof fn lemma_leaf_none(paths: Seq<StagePath>, idx: Seq<usize>, d: int, t: int)
    requires
        0 <= t < idx.len(),
        leaf(paths, idx, d) is None,
    ensures
        !(clen(paths[idx[t] as int]) == d + 1 && !(paths[idx[t] as int].node is Dir)),
    decreases idx.len(),
{
    if t < idx.len() - 1 {
        assert(idx.drop_last()[t] == idx[t]);
        lemma_leaf_none(paths, idx.drop_last(), d, t);
    }
}

proof fn lemma_resets_has(paths: Seq<StagePath>, idx: Seq<usize>, d: int, t: int)
    requires
        0 <= t < idx.len(),
        clen(paths[idx[t] as int]) == d,
    ensures
        resets(paths, idx, d),
    decreases idx.len(),
{
    if t < idx.len() - 1 {
        assert(idx.drop_last()[t] == idx[t]);
        lemma_resets_has(paths, idx.drop_last(), d, t);
    }
}

proof fn lemma_dup_level(
    s: Map<[u8; 20], DirObject>,
    paths: Seq<StagePath>,
    inh: Option<crate::digest::DirHash>,
    idx: Seq<usize>,
    x: usize,
    d: int,
)
    requires
        has_copy(paths, idx, x),
    ensures
        level(s, paths, inh, idx.push(x), d) == level(s, paths, inh, idx, d),
    decreases maxlen(paths) - d, names(paths, idx, d).len() + 1,
{
    let i2 = idx.push(x);
    let t = choose|t: int| 0 <= t < idx.len() && paths[#[trigger] idx[t] as int] == paths[x as int];
    assert(i2.drop_last() == idx);
    if clen(paths[x as int]) > d {
        lemma_names_has(paths, idx, d, t);
    }
    assert(names(paths, i2, d) == names(paths, idx, d));
    if clen(paths[x as int]) == d {
        lemma_resets_has(paths, idx, d, t);
    }
    assert(resets(paths, i2, d) == resets(paths, idx, d));
    assert(base(s, paths, inh, i2, d) == base(s, paths, inh, idx, d));
    match base(s, paths, inh, idx, d) {
        None => {},
        Some(b) => {
            lemma_dup_apply(s, paths, idx, x, d, b, names(paths, idx, d).len() as int);
        },
    }
}

proof fn lemma_dup_apply(
    s: Map<[u8; 20], DirObject>,
    paths: Seq<StagePath>,
    idx: Seq<usize>,
    x: usize,
    d: int,
    b: Seq<EntryV>,
    n: int,
)
    requires
        has_copy(paths, idx, x),
        names(paths, idx.push(x), d) == names(paths, idx, d),
    ensures
        apply(s, paths, idx.push(x), d, b, n) == apply(s, paths, idx, d, b, n),
    decreases maxlen(paths) - d, n,
{
    let i2 = idx.push(x);
    if 0 < n <= names(paths, idx, d).len() {
        lemma_dup_apply(s, paths, idx, x, d, b, n - 1);
        let c = names(paths, idx, d)[n - 1];
        let g = group(paths, idx, d, c);
        let g2 = group(paths, i2, d, c);
        let t = choose|t: int| 0 <= t < idx.len() && paths[#[trigger] idx[t] as int] == paths[x as int];
        assert(i2.drop_last() == idx);
        if clen(paths[x as int]) > d && comp(paths[x as int], d) == c {
            assert(g2 == g.push(x));
            assert(g2.drop_last() =~= g);
            assert(g2.last() == x);
            lemma_group_has(paths, idx, d, c, t);
            let w = choose|w: int| 0 <= w < g.len() && #[trigger] g[w] == idx[t];
            assert(has_copy(paths, g, x));
            if leaf(paths, g, d) is None {
                lemma_leaf_none(paths, g, d, w);
                assert(paths[g[w] as int] == paths[x as int]);
                assert(leaf(paths, g2, d) is None);
                if d < maxlen(paths) {
                    lemma_dup_level(s, paths, child_of(b, c), g, x, d + 1);
                }
            } else {
                assert(leaf(paths, g2, d) == leaf(paths, g, d));
            }
        } else {
            assert(g2 == g);
        }
    }
}

/// Staging a list that holds a path twice gives the same tree as staging it
/// once: the paths `idx` picks with one more copy of a path they already pick.
pub proof fn law_duplicate_paths(
    s: Map<[u8; 20], DirObject>,
    paths: Seq<StagePath>,
    inh: Option<crate::digest::DirHash>,
    idx: Seq<usize>,
    x: usize,
)
    requires
        has_copy(paths, idx, x),
    ensures
        level(s, paths, inh, idx.push(x), 0) == level(s, paths, inh, idx, 0),
{
    lemma_dup_level(s, paths, inh, idx, x, 0);
}

/// Every position `idx` picks is below `n`.
pub open spec fn within(idx: Seq<usize>, n: int) -> bool {
    forall|t: int| 0 <= t < idx.len() ==> #[trigger] idx[t] < n
}

proof fn lemma_ext_parts(paths: Seq<StagePath>, q: StagePath, idx: Seq<usize>, d: int, c: Seq<u8>)
    requires
        within(idx, paths.len() as int),
    ensures
        names(paths.push(q), idx, d) == names(paths, idx, d),
        group(paths.push(q), idx, d, c) == group(paths, idx, d, c),
        within(group(paths, idx, d, c), paths.len() as int),
        leaf(paths.push(q), idx, d) == leaf(paths, idx, d),
        resets(paths.push(q), idx, d) == resets(paths, idx, d),
    decreases idx.len(),
{
    if idx.len() > 0 {
        let r = idx.drop_last();
        assert forall|t: int| 0 <= t < r.len() implies #[trigger] r[t] < paths.len() by {
            assert(r[t] == idx[t]);
        }
        lemma_ext_parts(paths, q, r, d, c);
        assert(idx[idx.len() - 1] < paths.len());
        assert(paths.push(q)[idx.last() as int] == paths[idx.last() as int]);
        let g = group(paths, idx, d, c);
        let gr = group(paths, r, d, c);
        assert forall|t: int| 0 <= t < g.len() implies #[trigger] g[t] < paths.len() by {
            if t < gr.len() {
                assert(g[t] == gr[t]);
            }
        }
    }
}

proof fn lemma_ext_level(
    s: Map<[u8; 20], DirObject>,
    paths: Seq<StagePath>,
    q: StagePath,
    inh: Option<crate::digest::DirHash>,
    idx: Seq<usize>,
    d: int,
)
    requires
        within(idx, paths.len() as int),
        clen(q) <= maxlen(paths),
    ensures
        level(s, paths.push(q), inh, idx, d) == level(s, paths, inh, idx, d),
    decreases maxlen(paths) - d, names(paths, idx, d).len() + 1,
{
    let p2 = paths.push(q);
    assert(p2.drop_last() == paths);
    assert(maxlen(p2) == maxlen(paths));
    lemma_ext_parts(paths, q, idx, d, Seq::empty());
    match base(s, paths, inh, idx, d) {
        None => {},
        Some(b) => {
            lemma_ext_apply(s, paths, q, idx, d, b, names(paths, idx, d).len() as int);
        },
    }
}

proof fn lemma_ext_apply(
    s: Map<[u8; 20], DirObject>,
    paths: Seq<StagePath>,
    q: StagePath,
    idx: Seq<usize>,
    d: int,
    b: Seq<EntryV>,
    n: int,
)
    requires
        within(idx, paths.len() as int),
        clen(q) <= maxlen(paths),
    ensures
        apply(s, paths.push(q), idx, d, b, n) == apply(s, paths, idx, d, b, n),
    decreases maxlen(paths) - d, n,
{
    let p2 = paths.push(q);
    assert(p2.drop_last() == paths);
    assert(maxlen(p2) == maxlen(paths));
    lemma_ext_parts(paths, q, idx, d, Seq::empty());
    if 0 < n <= names(paths, idx, d).len() {
        lemma_ext_apply(s, paths, q, idx, d, b, n - 1);
        let c = names(paths, idx, d)[n - 1];
        lemma_ext_parts(paths, q, idx, d, c);
        let g = group(paths, idx, d, c);
        lemma_ext_parts(paths, q, g, d, c);
        match leaf(paths, g, d) {
            Some(i) => {
                lemma_leaf_within(paths, g, d);
                assert(p2[i as int] == paths[i as int]);
            },
            None => {
                if d < maxlen(paths) {
                    lemma_ext_level(s, paths, q, child_of(b, c), g, d + 1);
                }
            },
        }
    }
}

proof fn lemma_leaf_within(paths: Seq<StagePath>, idx: Seq<usize>, d: int)
    requires
        within(idx, paths.len() as int),
    ensures
        leaf(paths, idx, d) matches Some(i) ==> i < paths.len(),
    decreases idx.len(),
{
    if idx.len() > 0 {
        let r = idx.drop_last();
        assert forall|t: int| 0 <= t < r.len() implies #[trigger] r[t] < paths.len() by {
            assert(r[t] == idx[t]);
        }
        lemma_leaf_within(paths, r, d);
        assert(idx[idx.len() - 1] < paths.len());
    }
}

/// Staging a list of paths with one of them appended again gives the same tree
/// as staging the list: duplicate paths change nothing.
pub proof fn law_stage_duplicate(
    s: Map<[u8; 20], DirObject>,
    paths: Seq<StagePath>,
    inh: Option<crate::digest::DirHash>,
    k: int,
)
    requires
        0 <= k < paths.len(),
        paths.len() < usize::MAX,
    ensures
        level(s, paths.push(paths[k]), inh, all_paths((paths.len() + 1) as nat), 0) == level(
            s,
            paths,
            inh,
            all_paths(paths.len() as nat),
            0,
        ),
{
    let n = paths.len();
    let p2 = paths.push(paths[k]);
    let a = all_paths(n as nat);
    assert(all_paths((n + 1) as nat) =~= a.push(n as usize));
    assert(a[k] == k as usize);
    assert(p2[k] == p2[n as int]);
    assert(p2[a[k] as int] == p2[(n as usize) as int]);
    assert(has_copy(p2, a, n as usize));
    assert(within(a, n as int));
    lemma_dup_level(s, p2, inh, a, n as usize, 0);
    crate::stage::lemma_maxlen(paths, k);
    lemma_ext_level(s, paths, paths[k], inh, a, 0);
}

} // verus!
