use vstd::prelude::*;

use crate::digest::{is_zero_spec, DirHash, FileHash};
use crate::object::{FileObject, FileState, Object, ObjectState};
use crate::repo::{ObjectKind, Repo, RepoError};
use crate::tree::{del, lookup, name_eq, put, tree_digest, DirObject, EntryV};

verus! {

/// What the working tree holds at a staged path.
#[derive(Clone)]
pub enum WorkNode {
    /// Nothing: whatever was recorded there is dropped.
    Missing,
    /// A file whose bytes have this digest; `String` is the path its bytes are
    /// copied from when saved.
    File(FileHash, String),
    /// A directory: what was recorded there is dropped and rebuilt from the
    /// staged paths below it.
    Dir,
}

/// A staged path, relative to the repository root, one name per component,
/// with what the working tree holds there.
#[derive(Clone)]
pub struct StagePath {
    pub components: Vec<Vec<u8>>,
    pub node: WorkNode,
}

/// Number of components of a staged path.
pub open spec fn clen(p: StagePath) -> int {
    p.components@.len() as int
}

/// Component `d` of a staged path.
pub open spec fn comp(p: StagePath, d: int) -> Seq<u8> {
    p.components@[d]@
}

/// The largest number of components among `paths`.
pub open spec fn maxlen(paths: Seq<StagePath>) -> int
    decreases paths.len(),
{
    if paths.len() == 0 {
        0
    } else {
        let m = maxlen(paths.drop_last());
        if clen(paths.last()) > m {
            clen(paths.last())
        } else {
            m
        }
    }
}

/// The names at depth `d` of the paths `idx` picks, each once, in order of first appearance.
pub open spec fn names(paths: Seq<StagePath>, idx: Seq<usize>, d: int) -> Seq<Seq<u8>>
    decreases idx.len(),
{
    if idx.len() == 0 {
        Seq::empty()
    } else {
        let rest = names(paths, idx.drop_last(), d);
        let p = paths[idx.last() as int];
        if clen(p) > d && !rest.contains(comp(p, d)) {
            rest.push(comp(p, d))
        } else {
            rest
        }
    }
}

/// The paths among `idx` that go through name `c` at depth `d`, in order.
pub open spec fn group(paths: Seq<StagePath>, idx: Seq<usize>, d: int, c: Seq<u8>) -> Seq<usize>
    decreases idx.len(),
{
    if idx.len() == 0 {
        Seq::empty()
    } else {
        let rest = group(paths, idx.drop_last(), d, c);
        let p = paths[idx.last() as int];
        if clen(p) > d && comp(p, d) == c {
            rest.push(idx.last())
        } else {
            rest
        }
    }
}

/// The first path among `idx` that ends at depth `d + 1` on a file or on nothing:
/// it decides the entry there by itself.
pub open spec fn leaf(paths: Seq<StagePath>, idx: Seq<usize>, d: int) -> Option<usize>
    decreases idx.len(),
{
    if idx.len() == 0 {
        None
    } else {
        let rest = leaf(paths, idx.drop_last(), d);
        let p = paths[idx.last() as int];
        if rest is Some {
            rest
        } else if clen(p) == d + 1 && !(p.node is Dir) {
            Some(idx.last())
        } else {
            None
        }
    }
}

/// Some path among `idx` ends at depth `d`: the directory there is rebuilt from scratch.
pub open spec fn resets(paths: Seq<StagePath>, idx: Seq<usize>, d: int) -> bool
    decreases idx.len(),
{
    if idx.len() == 0 {
        false
    } else {
        resets(paths, idx.drop_last(), d) || clen(paths[idx.last() as int]) == d
    }
}

/// The listing a level starts from: empty when it is new or rebuilt, else the
/// inherited tree, which has to be cached (`None` when it is not).
pub open spec fn base(
    store: Map<[u8; 20], DirObject>,
    paths: Seq<StagePath>,
    inh: Option<DirHash>,
    idx: Seq<usize>,
    d: int,
) -> Option<Seq<EntryV>> {
    match inh {
        Some(h) if !resets(paths, idx, d) => if store.contains_key(h.0) {
            Some(store[h.0]@)
        } else {
            None
        },
        _ => Some(Seq::empty()),
    }
}

/// The inherited child directory under `c`, if the base holds one.
pub open spec fn child_of(b: Seq<EntryV>, c: Seq<u8>) -> Option<DirHash> {
    match lookup(b, c) {
        Some(Object::Dir(h)) => Some(h),
        _ => None,
    }
}

/// The listing of the directory at depth `d` after staging the paths `idx`, over
/// the cached trees `store`; `None` when an inherited tree it needs is not cached.
pub open spec fn level(
    store: Map<[u8; 20], DirObject>,
    paths: Seq<StagePath>,
    inh: Option<DirHash>,
    idx: Seq<usize>,
    d: int,
) -> Option<Seq<EntryV>>
    decreases maxlen(paths) - d, names(paths, idx, d).len() + 1,
{
    match base(store, paths, inh, idx, d) {
        None => None,
        Some(b) => apply(store, paths, idx, d, b, names(paths, idx, d).len() as int),
    }
}

/// The base `b` with the first `n` names of this level staged.
pub open spec fn apply(
    store: Map<[u8; 20], DirObject>,
    paths: Seq<StagePath>,
    idx: Seq<usize>,
    d: int,
    b: Seq<EntryV>,
    n: int,
) -> Option<Seq<EntryV>>
    decreases maxlen(paths) - d, n,
{
    if n <= 0 || n > names(paths, idx, d).len() {
        Some(b)
    } else {
        match apply(store, paths, idx, d, b, n - 1) {
            None => None,
            Some(t) => {
                let c = names(paths, idx, d)[n - 1];
                let g = group(paths, idx, d, c);
                match leaf(paths, g, d) {
                    Some(i) => match paths[i as int].node {
                        WorkNode::File(h, _) => Some(put(t, c, Object::File(h))),
                        _ => Some(del(t, c)),
                    },
                    None => if d < maxlen(paths) {
                        match level(store, paths, child_of(b, c), g, d + 1) {
                            None => None,
                            Some(ct) => Some(put(t, c, Object::Dir(tree_digest(ct)))),
                        }
                    } else {
                        None
                    },
                }
            },
        }
    }
}

/// Every listing staging the paths `idx` builds at depth `d` and below, each
/// subdirectory's before the level's own, which comes last.
pub open spec fn level_built(
    store: Map<[u8; 20], DirObject>,
    paths: Seq<StagePath>,
    inh: Option<DirHash>,
    idx: Seq<usize>,
    d: int,
) -> Seq<Seq<EntryV>>
    decreases maxlen(paths) - d, names(paths, idx, d).len() + 1,
{
    match base(store, paths, inh, idx, d) {
        None => Seq::empty(),
        Some(b) => match apply(store, paths, idx, d, b, names(paths, idx, d).len() as int) {
            Some(t) => apply_built(store, paths, idx, d, b, names(paths, idx, d).len() as int).push(t),
            None => Seq::empty(),
        },
    }
}

/// The listings built below this level while staging its first `n` names.
pub open spec fn apply_built(
    store: Map<[u8; 20], DirObject>,
    paths: Seq<StagePath>,
    idx: Seq<usize>,
    d: int,
    b: Seq<EntryV>,
    n: int,
) -> Seq<Seq<EntryV>>
    decreases maxlen(paths) - d, n,
{
    if n <= 0 || n > names(paths, idx, d).len() {
        Seq::empty()
    } else {
        let prev = apply_built(store, paths, idx, d, b, n - 1);
        let c = names(paths, idx, d)[n - 1];
        let g = group(paths, idx, d, c);
        if leaf(paths, g, d) is None && d < maxlen(paths) {
            prev + level_built(store, paths, child_of(b, c), g, d + 1)
        } else {
            prev
        }
    }
}

/// Each listing of `built` is cached in `dirs` under its digest, as a tree
/// created in this session wherever `old` did not hold that digest.
pub open spec fn holds_built(
    dirs: Map<[u8; 20], DirObject>,
    old: Map<[u8; 20], DirObject>,
    built: Seq<Seq<EntryV>>,
) -> bool {
    forall|i: int|
        0 <= i < built.len() ==> dirs.contains_key(tree_digest(#[trigger] built[i]).0) && (!old.contains_key(
            tree_digest(built[i]).0,
        ) ==> dirs[tree_digest(built[i]).0].state == ObjectState::New)
}

/// Every digest `dirs` holds and `old` did not is that of a listing of `built`.
pub open spec fn adds_only(
    dirs: Map<[u8; 20], DirObject>,
    old: Map<[u8; 20], DirObject>,
    built: Seq<Seq<EntryV>>,
) -> bool {
    forall|k: [u8; 20]|
        #[trigger] dirs.contains_key(k) && !old.contains_key(k) ==> exists|i: int|
            0 <= i < built.len() && tree_digest(#[trigger] built[i]).0 == k
}

/// The blob cache `files` after registering, in order, every file among
/// `paths` as a blob created in this session; a digest already cached keeps its blob.
pub open spec fn registered(files: Map<[u8; 20], FileObject>, paths: Seq<StagePath>) -> Map<[u8; 20], FileObject>
    decreases paths.len(),
{
    if paths.len() == 0 {
        files
    } else {
        let m = registered(files, paths.drop_last());
        match paths.last().node {
            WorkNode::File(h, src) => if m.contains_key(h.0) {
                m
            } else {
                m.insert(h.0, FileObject { permissions: 0, state: FileState::New(src) })
            },
            _ => m,
        }
    }
}

/// The views of a list of names.
pub open spec fn names_view(v: Seq<Vec<u8>>) -> Seq<Seq<u8>> {
    v.map_values(|x: Vec<u8>| x@)
}

/// All of `idx` picks a path of `paths` with at least `d` components.
pub open spec fn picks(paths: Seq<StagePath>, idx: Seq<usize>, d: int) -> bool {
    forall|t: int| 0 <= t < idx.len() ==> (#[trigger] idx[t]) < paths.len() && clen(paths[idx[t] as int]) >= d
}

proof fn lemma_take_last<T>(s: Seq<T>, i: int)
    requires
        0 <= i < s.len(),
    ensures
        s.take(i + 1).drop_last() == s.take(i),
        s.take(i + 1).last() == s[i],
{
    assert(s.take(i + 1).drop_last() =~= s.take(i));
}

fn contains_name(v: &Vec<Vec<u8>>, c: &[u8]) -> (r: bool)
    ensures
        r == names_view(v@).contains(c@),
{
    let mut i: usize = 0;
    while i < v.len()
        invariant
            0 <= i <= v.len(),
            forall|j: int| 0 <= j < i ==> v@[j]@ != c@,
        decreases v.len() - i,
    {
        if name_eq(v[i].as_slice(), c) {
            assert(names_view(v@)[i as int] == c@);
            return true;
        }
        i = i + 1;
    }
    proof {
        if names_view(v@).contains(c@) {
            let j = choose|j: int| 0 <= j < names_view(v@).len() && names_view(v@)[j] == c@;
            assert(v@[j]@ == c@);
        }
    }
    false
}

fn level_names(paths: &Vec<StagePath>, idx: &Vec<usize>, d: usize) -> (r: Vec<Vec<u8>>)
    requires
        picks(paths@, idx@, 0),
    ensures
        names_view(r@) == names(paths@, idx@, d as int),
{
    let mut r: Vec<Vec<u8>> = Vec::new();
    let mut i: usize = 0;
    while i < idx.len()
        invariant
            0 <= i <= idx.len(),
            picks(paths@, idx@, 0),
            names_view(r@) == names(paths@, idx@.take(i as int), d as int),
        decreases idx.len() - i,
    {
        proof {
            lemma_take_last(idx@, i as int);
        }
        let p = &paths[idx[i]];
        if p.components.len() > d {
            let c = p.components[d].as_slice();
            if !contains_name(&r, c) {
                let ghost before = r@;
                r.push(p.components[d].clone());
                assert(names_view(r@) =~= names_view(before).push(c@));
            }
        }
        i = i + 1;
    }
    assert(idx@.take(idx.len() as int) =~= idx@);
    r
}

fn level_group(paths: &Vec<StagePath>, idx: &Vec<usize>, d: usize, c: &[u8]) -> (r: Vec<usize>)
    requires
        picks(paths@, idx@, 0),
    ensures
        r@ == group(paths@, idx@, d as int, c@),
{
    let mut r: Vec<usize> = Vec::new();
    let mut i: usize = 0;
    while i < idx.len()
        invariant
            0 <= i <= idx.len(),
            picks(paths@, idx@, 0),
            r@ == group(paths@, idx@.take(i as int), d as int, c@),
        decreases idx.len() - i,
    {
        proof {
            lemma_take_last(idx@, i as int);
        }
        let p = &paths[idx[i]];
        if p.components.len() > d && name_eq(p.components[d].as_slice(), c) {
            r.push(idx[i]);
        }
        i = i + 1;
    }
    assert(idx@.take(idx.len() as int) =~= idx@);
    r
}

fn level_leaf(paths: &Vec<StagePath>, idx: &Vec<usize>, d: usize) -> (r: Option<usize>)
    requires
        picks(paths@, idx@, 0),
    ensures
        r == leaf(paths@, idx@, d as int),
{
    let mut r: Option<usize> = None;
    let mut i: usize = 0;
    while i < idx.len()
        invariant
            0 <= i <= idx.len(),
            picks(paths@, idx@, 0),
            r == leaf(paths@, idx@.take(i as int), d as int),
        decreases idx.len() - i,
    {
        proof {
            lemma_take_last(idx@, i as int);
        }
        if r.is_none() {
            let p = &paths[idx[i]];
            let is_dir = match p.node {
                WorkNode::Dir => true,
                _ => false,
            };
            if p.components.len() as u128 == d as u128 + 1 && !is_dir {
                r = Some(idx[i]);
            }
        }
        i = i + 1;
    }
    assert(idx@.take(idx.len() as int) =~= idx@);
    r
}

fn level_resets(paths: &Vec<StagePath>, idx: &Vec<usize>, d: usize) -> (r: bool)
    requires
        picks(paths@, idx@, 0),
    ensures
        r == resets(paths@, idx@, d as int),
{
    let mut r = false;
    let mut i: usize = 0;
    while i < idx.len()
        invariant
            0 <= i <= idx.len(),
            picks(paths@, idx@, 0),
            r == resets(paths@, idx@.take(i as int), d as int),
        decreases idx.len() - i,
    {
        proof {
            lemma_take_last(idx@, i as int);
        }
        if paths[idx[i]].components.len() == d {
            r = true;
        }
        i = i + 1;
    }
    assert(idx@.take(idx.len() as int) =~= idx@);
    r
}

pub proof fn lemma_maxlen(paths: Seq<StagePath>, i: int)
    requires
        0 <= i < paths.len(),
    ensures
        clen(paths[i]) <= maxlen(paths),
    decreases paths.len(),
{
    if i < paths.len() - 1 {
        lemma_maxlen(paths.drop_last(), i);
        assert(paths.drop_last()[i] == paths[i]);
    }
}

pub proof fn lemma_group_picks(paths: Seq<StagePath>, idx: Seq<usize>, d: int, c: Seq<u8>)
    requires
        picks(paths, idx, 0),
    ensures
        picks(paths, group(paths, idx, d, c), d + 1),
    decreases idx.len(),
{
    if idx.len() > 0 {
        let r = idx.drop_last();
        assert forall|t: int| 0 <= t < r.len() implies (#[trigger] r[t]) < paths.len() && clen(paths[r[t] as int]) >= 0 by {
            assert(r[t] == idx[t]);
        }
        lemma_group_picks(paths, r, d, c);
        assert(idx[idx.len() - 1] == idx.last());
    }
}

pub proof fn lemma_leaf(paths: Seq<StagePath>, idx: Seq<usize>, d: int)
    requires
        picks(paths, idx, 0),
    ensures
        leaf(paths, idx, d) matches Some(i) ==> i < paths.len() && clen(paths[i as int]) == d + 1
            && !(paths[i as int].node is Dir),
    decreases idx.len(),
{
    if idx.len() > 0 {
        let r = idx.drop_last();
        assert forall|t: int| 0 <= t < r.len() implies (#[trigger] r[t]) < paths.len() && clen(paths[r[t] as int]) >= 0 by {
            assert(r[t] == idx[t]);
        }
        lemma_leaf(paths, r, d);
        assert(idx[idx.len() - 1] == idx.last());
    }
}

pub proof fn lemma_names_grouped(paths: Seq<StagePath>, idx: Seq<usize>, d: int, j: int)
    requires
        0 <= j < names(paths, idx, d).len(),
    ensures
        group(paths, idx, d, names(paths, idx, d)[j]).len() > 0,
    decreases idx.len(),
{
    let rest = names(paths, idx.drop_last(), d);
    let p = paths[idx.last() as int];
    if j < rest.len() {
        assert(names(paths, idx, d)[j] == rest[j]);
        lemma_names_grouped(paths, idx.drop_last(), d, j);
    }
}

proof fn lemma_apply_none(
    store: Map<[u8; 20], DirObject>,
    paths: Seq<StagePath>,
    idx: Seq<usize>,
    d: int,
    b: Seq<EntryV>,
    m: int,
    n: int,
)
    requires
        0 <= m <= n <= names(paths, idx, d).len(),
        apply(store, paths, idx, d, b, m) is None,
    ensures
        apply(store, paths, idx, d, b, n) is None,
    decreases n - m,
{
    if m < n {
        lemma_apply_none(store, paths, idx, d, b, m, n - 1);
    }
}

/// Every path of `paths`, by position.
pub open spec fn all_paths(n: nat) -> Seq<usize> {
    Seq::new(n, |k: int| k as usize)
}

/// No path names the root as something other than a directory.
pub open spec fn root_ok(paths: Seq<StagePath>) -> bool {
    forall|k: int| 0 <= k < paths.len() ==> clen(#[trigger] paths[k]) == 0 ==> paths[k].node is Dir
}

/// Every tree of `s0` is cached, unchanged.
pub open spec fn keeps<V>(store: Map<[u8; 20], V>, s0: Map<[u8; 20], V>) -> bool {
    forall|k: [u8; 20]| #[trigger] s0.contains_key(k) ==> store.contains_key(k) && store[k] == s0[k]
}

proof fn lemma_fresh_some(store: Map<[u8; 20], DirObject>, paths: Seq<StagePath>, idx: Seq<usize>, d: int)
    requires
        picks(paths, idx, d),
    ensures
        level(store, paths, None, idx, d) is Some,
    decreases maxlen(paths) - d, names(paths, idx, d).len() + 1,
{
    lemma_fresh_apply_some(store, paths, idx, d, names(paths, idx, d).len() as int);
}

proof fn lemma_fresh_apply_some(store: Map<[u8; 20], DirObject>, paths: Seq<StagePath>, idx: Seq<usize>, d: int, n: int)
    requires
        picks(paths, idx, d),
    ensures
        apply(store, paths, idx, d, Seq::empty(), n) is Some,
    decreases maxlen(paths) - d, n,
{
    if 0 < n <= names(paths, idx, d).len() {
        lemma_fresh_apply_some(store, paths, idx, d, n - 1);
        let c = names(paths, idx, d)[n - 1];
        let g = group(paths, idx, d, c);
        assert(lookup(Seq::<EntryV>::empty(), c) is None);
        if leaf(paths, g, d) is None {
            assert(picks(paths, idx, 0));
            lemma_group_picks(paths, idx, d, c);
            lemma_names_grouped(paths, idx, d, n - 1);
            assert(g[0] < paths.len());
            lemma_maxlen(paths, g[0] as int);
            lemma_fresh_some(store, paths, g, d + 1);
        }
    }
}

impl Repo {
    /// The inherited child directory under `c` in `b`.
    fn child_dir(b: &DirObject, c: &[u8]) -> (r: Option<DirHash>)
        ensures
            r == child_of(b@, c@),
    {
        match b.get(c) {
            Some(o) => o.get_dir(),
            None => None,
        }
    }

    /// Finds an inherited tree that staging the paths `idx` at depth `d` needs
    /// and that is not cached.
    fn missing(&self, paths: &Vec<StagePath>, idx: &Vec<usize>, d: usize, inh: Option<DirHash>) -> (r: Option<DirHash>)
        requires
            self.wf(),
            picks(paths@, idx@, d as int),
        ensures
            r is None <==> level(self.dirs@, paths@, inh, idx@, d as int) is Some,
            r matches Some(h) ==> !self.dirs@.contains_key(h.0),
        decreases maxlen(paths@) - d,
    {
        proof {
            assert(picks(paths@, idx@, 0));
        }
        let reset = level_resets(paths, idx, d);
        let b = if reset || inh.is_none() {
            DirObject::empty()
        } else {
            let h = inh.unwrap();
            match self.get_dir(h) {
                Some(t) => t.copy(),
                None => {
                    return Some(h);
                },
            }
        };
        let ns = level_names(paths, idx, d);
        let ghost n = names(paths@, idx@, d as int).len() as int;
        let mut j: usize = 0;
        while j < ns.len()
            invariant
                0 <= j <= ns.len(),
                n == ns.len(),
                names_view(ns@) == names(paths@, idx@, d as int),
                picks(paths@, idx@, 0),
                self.wf(),
                base(self.dirs@, paths@, inh, idx@, d as int) == Some(b@),
                apply(self.dirs@, paths@, idx@, d as int, b@, j as int) is Some,
            decreases ns.len() - j,
        {
            let c = ns[j].as_slice();
            assert(names(paths@, idx@, d as int)[j as int] == c@);
            let g = level_group(paths, idx, d, c);
            proof {
                lemma_group_picks(paths@, idx@, d as int, c@);
                assert(picks(paths@, g@, 0));
            }
            if level_leaf(paths, &g, d).is_none() {
                proof {
                    lemma_names_grouped(paths@, idx@, d as int, j as int);
                    assert(g@[0] < paths@.len());
                    lemma_maxlen(paths@, g@[0] as int);
                    assert(clen(paths@[g@[0] as int]) >= d + 1);
                    assert(paths@[g@[0] as int].components.len() <= usize::MAX);
                }
                let ci = Repo::child_dir(&b, c);
                let sub = self.missing(paths, &g, d + 1, ci);
                if sub.is_some() {
                    proof {
                        lemma_apply_none(self.dirs@, paths@, idx@, d as int, b@, j + 1, n);
                    }
                    return sub;
                }
            }
            j = j + 1;
        }
        None
    }

    /// Stages the paths `idx` into the directory at depth `d`, whose inherited
    /// tree is `inh`, registering every tree it builds; returns the new digest.
    fn step(
        &mut self,
        paths: &Vec<StagePath>,
        idx: &Vec<usize>,
        d: usize,
        inh: Option<DirHash>,
        Ghost(s0): Ghost<Map<[u8; 20], DirObject>>,
    ) -> (r: DirHash)
        requires
            old(self).wf(),
            picks(paths@, idx@, d as int),
            keeps(old(self).dirs@, s0),
            level(s0, paths@, inh, idx@, d as int) is Some,
        ensures
            final(self).wf(),
            final(self).same_refs(old(self)),
            final(self).commits == old(self).commits,
            keeps(final(self).dirs@, s0),
            keeps(final(self).dirs@, old(self).dirs@),
            final(self).files == old(self).files,
            r == tree_digest(level(s0, paths@, inh, idx@, d as int)->0),
            final(self).dirs@.contains_key(r.0),
            holds_built(final(self).dirs@, old(self).dirs@, level_built(s0, paths@, inh, idx@, d as int)),
            adds_only(final(self).dirs@, old(self).dirs@, level_built(s0, paths@, inh, idx@, d as int)),
        decreases maxlen(paths@) - d,
    {
        proof {
            assert(picks(paths@, idx@, 0));
        }
        let reset = level_resets(paths, idx, d);
        let b = if reset || inh.is_none() {
            DirObject::empty()
        } else {
            let h = inh.unwrap();
            match self.get_dir(h) {
                Some(t) => t.copy(),
                None => DirObject::empty(),
            }
        };
        let mut t = b.copy();
        let ns = level_names(paths, idx, d);
        let ghost n = names(paths@, idx@, d as int).len() as int;
        let ghost old_dirs = self.dirs@;
        let mut j: usize = 0;
        while j < ns.len()
            invariant
                0 <= j <= ns.len(),
                n == ns.len(),
                names_view(ns@) == names(paths@, idx@, d as int),
                picks(paths@, idx@, 0),
                self.wf(),
                self.same_refs(old(self)),
                self.commits == old(self).commits,
                keeps(self.dirs@, s0),
                keeps(self.dirs@, old_dirs),
                self.files == old(self).files,
                old_dirs == old(self).dirs@,
                holds_built(self.dirs@, old_dirs, apply_built(s0, paths@, idx@, d as int, b@, j as int)),
                adds_only(self.dirs@, old_dirs, apply_built(s0, paths@, idx@, d as int, b@, j as int)),
                b.wf(),
                t.wf(),
                base(s0, paths@, inh, idx@, d as int) == Some(b@),
                apply(s0, paths@, idx@, d as int, b@, n) is Some,
                apply(s0, paths@, idx@, d as int, b@, j as int) == Some(t@),
            decreases ns.len() - j,
        {
            let c = ns[j].as_slice();
            assert(names(paths@, idx@, d as int)[j as int] == c@);
            let g = level_group(paths, idx, d, c);
            proof {
                lemma_group_picks(paths@, idx@, d as int, c@);
                assert(picks(paths@, g@, 0));
                if apply(s0, paths@, idx@, d as int, b@, j + 1) is None {
                    lemma_apply_none(s0, paths@, idx@, d as int, b@, j + 1, n);
                }
            }
            proof {
                lemma_leaf(paths@, g@, d as int);
            }
            match level_leaf(paths, &g, d) {
                Some(i) => {
                    match &paths[i].node {
                        WorkNode::File(h, _) => {
                            t.insert(ns[j].clone(), Object::File(*h));
                        },
                        _ => {
                            t.remove(c);
                        },
                    }
                    assert(apply_built(s0, paths@, idx@, d as int, b@, j + 1) == apply_built(
                        s0,
                        paths@,
                        idx@,
                        d as int,
                        b@,
                        j as int,
                    ));
                },
                None => {
                    proof {
                        lemma_names_grouped(paths@, idx@, d as int, j as int);
                        assert(g@[0] < paths@.len());
                        lemma_maxlen(paths@, g@[0] as int);
                        assert(clen(paths@[g@[0] as int]) >= d + 1);
                        assert(paths@[g@[0] as int].components.len() <= usize::MAX);
                    }
                    let ci = Repo::child_dir(&b, c);
                    let ghost mid = self.dirs@;
                    let ghost ab = apply_built(s0, paths@, idx@, d as int, b@, j as int);
                    let h = self.step(paths, &g, d + 1, ci, Ghost(s0));
                    t.insert(ns[j].clone(), Object::Dir(h));
                    proof {
                        let cb = level_built(s0, paths@, ci, g@, d + 1);
                        let nb = apply_built(s0, paths@, idx@, d as int, b@, j + 1);
                        assert(nb == ab + cb);
                        assert forall|i: int| 0 <= i < nb.len() implies self.dirs@.contains_key(
                            tree_digest(#[trigger] nb[i]).0,
                        ) && (!old_dirs.contains_key(tree_digest(nb[i]).0) ==> self.dirs@[tree_digest(
                            nb[i],
                        ).0].state == ObjectState::New) by {
                            if i < ab.len() {
                                assert(nb[i] == ab[i]);
                            } else {
                                assert(nb[i] == cb[i - ab.len()]);
                                let k = tree_digest(nb[i]).0;
                                if !old_dirs.contains_key(k) && mid.contains_key(k) {
                                    let w = choose|w: int| 0 <= w < ab.len() && tree_digest(#[trigger] ab[w]).0 == k;
                                }
                            }
                        }
                        assert forall|k: [u8; 20]| #[trigger] self.dirs@.contains_key(k) && !old_dirs.contains_key(k)
                            implies exists|i: int| 0 <= i < nb.len() && tree_digest(#[trigger] nb[i]).0 == k by {
                            if mid.contains_key(k) {
                                let w = choose|w: int| 0 <= w < ab.len() && tree_digest(#[trigger] ab[w]).0 == k;
                                assert(nb[w] == ab[w]);
                            } else {
                                let w = choose|w: int| 0 <= w < cb.len() && tree_digest(#[trigger] cb[w]).0 == k;
                                assert(nb[ab.len() + w] == cb[w]);
                            }
                        }
                    }
                },
            }
            j = j + 1;
        }
        let ghost mid = self.dirs@;
        let ghost ab = apply_built(s0, paths@, idx@, d as int, b@, n);
        let ghost tv = t@;
        let r = self.new_dir(t);
        proof {
            let lb = level_built(s0, paths@, inh, idx@, d as int);
            assert(lb == ab.push(tv));
            assert forall|i: int| 0 <= i < lb.len() implies self.dirs@.contains_key(tree_digest(#[trigger] lb[i]).0)
                && (!old_dirs.contains_key(tree_digest(lb[i]).0) ==> self.dirs@[tree_digest(lb[i]).0].state
                == ObjectState::New) by {
                if i < ab.len() {
                    assert(lb[i] == ab[i]);
                } else {
                    assert(lb[i] == tv);
                    let k = tree_digest(tv).0;
                    if !old_dirs.contains_key(k) && mid.contains_key(k) {
                        let w = choose|w: int| 0 <= w < ab.len() && tree_digest(#[trigger] ab[w]).0 == k;
                    }
                }
            }
            assert forall|k: [u8; 20]| #[trigger] self.dirs@.contains_key(k) && !old_dirs.contains_key(k)
                implies exists|i: int| 0 <= i < lb.len() && tree_digest(#[trigger] lb[i]).0 == k by {
                if mid.contains_key(k) {
                    let w = choose|w: int| 0 <= w < ab.len() && tree_digest(#[trigger] ab[w]).0 == k;
                    assert(lb[w] == ab[w]);
                } else {
                    assert(lb[ab.len() as int] == tv);
                }
            }
        }
        r
    }

    /// Registers every file among `paths` as a blob created in this session,
    /// keeping any blob already cached under its digest.
    fn register_files(&mut self, paths: &Vec<StagePath>)
        requires
            old(self).wf(),
        ensures
            final(self).wf(),
            final(self).same_refs(old(self)),
            final(self).commits == old(self).commits,
            final(self).dirs == old(self).dirs,
            final(self).files@ == registered(old(self).files@, paths@),
    {
        let mut i: usize = 0;
        while i < paths.len()
            invariant
                0 <= i <= paths.len(),
                self.wf(),
                self.same_refs(old(self)),
                self.commits == old(self).commits,
                self.dirs == old(self).dirs,
                self.files@ == registered(old(self).files@, paths@.take(i as int)),
            decreases paths.len() - i,
        {
            proof {
                lemma_take_last(paths@, i as int);
            }
            match &paths[i].node {
                WorkNode::File(h, src) => {
                    proof {
                        if is_zero_spec(h.0) {
                            assert(self.files@.contains_key(h.0));
                        }
                    }
                    self.files.insert(h.0, FileObject::new(src.clone()));
                },
                _ => {},
            }
            i = i + 1;
        }
        assert(paths@.take(paths.len() as int) =~= paths@);
    }

    /// Stages `paths` on top of the staged tree, or of HEAD's tree when nothing
    /// is staged, and makes the result the staged tree. Entries no path goes
    /// through are kept as they are; with no paths the staged tree is that
    /// starting tree itself. Fails, changing nothing, with `InvalidPath` when a
    /// path names the root as something other than a directory, and with
    /// `MissingObject` when HEAD's commit or an inherited tree the paths go
    /// through is not cached.
    pub fn index_paths(&mut self, paths: Vec<StagePath>) -> (r: Result<(), RepoError>)
        requires
            old(self).wf(),
        ensures
            final(self).wf(),
            !root_ok(paths@) ==> (r matches Err(RepoError::InvalidPath(_)) && *final(self) == *old(self)),
            root_ok(paths@) && old(self).staged_base() is None ==> (r matches Err(
                RepoError::MissingObject(ObjectKind::Commit, h),
            ) && h == old(self).head_commit().0 && *final(self) == *old(self)),
            root_ok(paths@) && old(self).staged_base() is Some && paths.len() == 0 ==> {
                &&& r is Ok
                &&& final(self).index == old(self).staged_base()
                &&& final(self).dirs == old(self).dirs
                &&& final(self).files == old(self).files
            },
            root_ok(paths@) && old(self).staged_base() is Some && paths.len() > 0 ==> match level(
                old(self).dirs@,
                paths@,
                old(self).staged_base(),
                all_paths(paths.len() as nat),
                0,
            ) {
                None => r matches Err(RepoError::MissingObject(ObjectKind::Tree, h)) && !old(
                    self,
                ).dirs@.contains_key(h) && *final(self) == *old(self),
                Some(tree) => {
                    &&& r is Ok
                    &&& final(self).index == Some(tree_digest(tree))
                    &&& final(self).dirs@.contains_key(tree_digest(tree).0)
                    &&& keeps(final(self).dirs@, old(self).dirs@)
                    &&& holds_built(
                        final(self).dirs@,
                        old(self).dirs@,
                        level_built(old(self).dirs@, paths@, old(self).staged_base(), all_paths(paths.len() as nat), 0),
                    )
                    &&& adds_only(
                        final(self).dirs@,
                        old(self).dirs@,
                        level_built(old(self).dirs@, paths@, old(self).staged_base(), all_paths(paths.len() as nat), 0),
                    )
                    &&& final(self).files@ == registered(old(self).files@, paths@)
                },
            },
            final(self).remote == old(self).remote,
            final(self).branches == old(self).branches,
            final(self).head == old(self).head,
            final(self).commits == old(self).commits,
    {
        let mut bad = false;
        let mut i: usize = 0;
        while i < paths.len()
            invariant
                0 <= i <= paths.len(),
                !bad <==> forall|k: int| 0 <= k < i ==> clen(#[trigger] paths@[k]) == 0 ==> paths@[k].node is Dir,
            decreases paths.len() - i,
        {
            if paths[i].components.len() == 0 {
                match paths[i].node {
                    WorkNode::Dir => {},
                    _ => {
                        bad = true;
                    },
                }
            }
            i = i + 1;
        }
        if bad {
            return Err(RepoError::InvalidPath("the repository root is not a directory".to_string()));
        }
        let inh = match self.index {
            Some(t) => t,
            None => {
                let head = self.get_head();
                match self.get_commit(head) {
                    Some(c) => c.objs,
                    None => {
                        return Err(RepoError::MissingObject(ObjectKind::Commit, head.0));
                    },
                }
            },
        };
        if paths.len() == 0 {
            self.index = Some(inh);
            return Ok(());
        }
        let mut idx: Vec<usize> = Vec::new();
        let mut k: usize = 0;
        while k < paths.len()
            invariant
                0 <= k <= paths.len(),
                *self == *old(self),
                idx@ == all_paths(k as nat),
            decreases paths.len() - k,
        {
            idx.push(k);
            assert(idx@ =~= all_paths((k + 1) as nat));
            k = k + 1;
        }
        assert(picks(paths@, idx@, 0));
        match self.missing(&paths, &idx, 0, Some(inh)) {
            Some(h) => Err(RepoError::MissingObject(ObjectKind::Tree, h.0)),
            None => {
                let root = self.step(&paths, &idx, 0, Some(inh), Ghost(self.dirs@));
                self.register_files(&paths);
                self.index = Some(root);
                Ok(())
            },
        }
    }

    /// Indexes one path afresh from the snapshot `paths` of what lies there,
    /// each component taken relative to that path: nothing when a path naming
    /// it itself says it is gone, the file when one says it is a file, and
    /// otherwise a directory rebuilt from the paths below it, registering the
    /// blobs and trees it builds.
    pub fn index_path(&mut self, paths: Vec<StagePath>) -> (r: Option<Object>)
        requires
            old(self).wf(),
        ensures
            final(self).wf(),
            final(self).same_refs(old(self)),
            final(self).commits == old(self).commits,
            match leaf(paths@, all_paths(paths.len() as nat), -1) {
                Some(i) => match paths@[i as int].node {
                    WorkNode::File(h, src) => {
                        &&& r == Some(Object::File(h))
                        &&& final(self).dirs == old(self).dirs
                        &&& final(self).files@ == (if old(self).files@.contains_key(h.0) {
                            old(self).files@
                        } else {
                            old(self).files@.insert(h.0, FileObject { permissions: 0, state: FileState::New(src) })
                        })
                    },
                    _ => r is None && *final(self) == *old(self),
                },
                None => {
                    let built = level_built(old(self).dirs@, paths@, None, all_paths(paths.len() as nat), 0);
                    let tree = level(old(self).dirs@, paths@, None, all_paths(paths.len() as nat), 0)->0;
                    &&& r == Some(Object::Dir(tree_digest(tree)))
                    &&& final(self).dirs@.contains_key(tree_digest(tree).0)
                    &&& keeps(final(self).dirs@, old(self).dirs@)
                    &&& holds_built(final(self).dirs@, old(self).dirs@, built)
                    &&& adds_only(final(self).dirs@, old(self).dirs@, built)
                    &&& final(self).files@ == registered(old(self).files@, paths@)
                },
            },
    {
        let mut idx: Vec<usize> = Vec::new();
        let mut k: usize = 0;
        while k < paths.len()
            invariant
                0 <= k <= paths.len(),
                idx@ == all_paths(k as nat),
            decreases paths.len() - k,
        {
            idx.push(k);
            assert(idx@ =~= all_paths((k + 1) as nat));
            k = k + 1;
        }
        assert(picks(paths@, idx@, 0));
        let mut found: Option<usize> = None;
        let mut i: usize = 0;
        while i < idx.len()
            invariant
                0 <= i <= idx.len(),
                idx@ == all_paths(paths.len() as nat),
                picks(paths@, idx@, 0),
                found == leaf(paths@, idx@.take(i as int), -1),
            decreases idx.len() - i,
        {
            proof {
                lemma_take_last(idx@, i as int);
            }
            if found.is_none() && paths[idx[i]].components.len() == 0 {
                match paths[idx[i]].node {
                    WorkNode::Dir => {},
                    _ => {
                        found = Some(idx[i]);
                    },
                }
            }
            i = i + 1;
        }
        assert(idx@.take(idx.len() as int) =~= idx@);
        proof {
            lemma_leaf(paths@, idx@, -1);
        }
        match found {
            Some(j) => match &paths[j].node {
                WorkNode::File(h, src) => {
                    proof {
                        if is_zero_spec(h.0) {
                            assert(self.files@.contains_key(h.0));
                        }
                    }
                    self.files.insert(h.0, FileObject::new(src.clone()));
                    Some(Object::File(*h))
                },
                _ => None,
            },
            None => {
                proof {
                    lemma_fresh_some(self.dirs@, paths@, idx@, 0);
                }
                let h = self.step(&paths, &idx, 0, None, Ghost(self.dirs@));
                self.register_files(&paths);
                Some(Object::Dir(h))
            },
        }
    }
}

} // verus!
