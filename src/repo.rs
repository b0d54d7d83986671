use vstd::prelude::*;

use crate::commit::{commit_digest, Branch, Commit};
use crate::digest::{digest_eq, hash_blob, is_zero_spec, sha1_of, ComHash, DirHash, FileHash};
use crate::object::{FileObject, FileState, Object, ObjectState};
use crate::store::{
    assoc_map, keys_unique, lemma_assoc_map_absent, lemma_assoc_map_index, lemma_assoc_map_update,
    Store,
};
use crate::tree::{put, tree_digest, DirObject, EntryV};

verus! {

/// Where the repository stands: on a named branch, or detached at a commit.
pub enum HeadState {
    Branch(String),
    Commit(ComHash),
}

/// The three kinds of stored object.
#[derive(Clone, Copy, PartialEq, Eq, Structural, Debug)]
pub enum ObjectKind {
    Commit,
    Tree,
    Blob,
}

/// What can go wrong in a repository operation.
#[derive(Debug)]
pub enum RepoError {
    /// A repository already exists where one is created, or none exists where one is loaded.
    NotARepository,
    /// The manifest could not be read, or names a HEAD branch it does not hold.
    CorruptManifest,
    /// A digest is referenced but nothing is stored under it.
    MissingObject(ObjectKind, [u8; 20]),
    /// What is stored under a digest does not have that digest.
    CorruptObject(ObjectKind, [u8; 20]),
    /// A commit was asked for with nothing staged.
    EmptyIndex,
    /// A staged path is outside the repository or cannot be read.
    InvalidPath(String),
    /// A read, write or copy failed.
    IoFailure(String),
}

/// Entry pairs as specifications see them.
pub open spec fn entries_view(s: Seq<(Vec<u8>, Object)>) -> Seq<EntryV> {
    s.map_values(|e: (Vec<u8>, Object)| (e.0@, e.1))
}

/// The canonical listing holding `s`'s pairs, a later pair for a name winning.
pub open spec fn from_entries(s: Seq<EntryV>) -> Seq<EntryV>
    decreases s.len(),
{
    if s.len() == 0 {
        Seq::empty()
    } else {
        put(from_entries(s.drop_last()), s.last().0, s.last().1)
    }
}

/// The zero-digest blob: no permissions, never written.
pub open spec fn is_sentinel_file(f: FileObject) -> bool {
    f.permissions == 0 && f.state == FileState::Existing
}

/// Branch names mapped to the commits they point at.
pub open spec fn branch_seq(s: Seq<(String, Branch)>) -> Seq<(Seq<char>, ComHash)> {
    s.map_values(|e: (String, Branch)| (e.0@, e.1.head))
}

/// The state of a local repository: its branches, HEAD, the staged tree, and one
/// cache of objects per kind.
pub struct Repo {
    pub remote: Option<String>,
    pub branches: Vec<(String, Branch)>,
    pub head: HeadState,
    pub commits: Store<Commit>,
    pub files: Store<FileObject>,
    pub dirs: Store<DirObject>,
    pub index: Option<DirHash>,
}

impl Repo {
    pub open spec fn branch_map(&self) -> Map<Seq<char>, ComHash> {
        assoc_map(branch_seq(self.branches@))
    }

    /// The commit HEAD resolves to.
    pub open spec fn head_commit(&self) -> ComHash {
        match self.head {
            HeadState::Branch(n) => self.branch_map()[n@],
            HeadState::Commit(h) => h,
        }
    }

    pub open spec fn head_ok(&self) -> bool {
        match self.head {
            HeadState::Branch(n) => self.branch_map().contains_key(n@),
            HeadState::Commit(_) => true,
        }
    }

    /// Every cached commit has the digest it is cached under, but the root commit.
    pub open spec fn commits_ok(&self) -> bool {
        &&& self.commits.wf()
        &&& forall|k: [u8; 20]|
            #[trigger] self.commits@.contains_key(k) ==> if is_zero_spec(k) {
                self.commits@[k].is_sentinel()
            } else {
                commit_digest(self.commits@[k].prev, self.commits@[k].objs).0 == k
            }
    }

    /// Every cached tree is canonical and has the digest it is cached under, but the empty root tree.
    pub open spec fn dirs_ok(&self) -> bool {
        &&& self.dirs.wf()
        &&& forall|k: [u8; 20]|
            #[trigger] self.dirs@.contains_key(k) ==> self.dirs@[k].wf() && if is_zero_spec(k) {
                self.dirs@[k]@ == Seq::<EntryV>::empty() && self.dirs@[k].state == ObjectState::Existing
            } else {
                tree_digest(self.dirs@[k]@).0 == k
            }
    }

    pub open spec fn files_ok(&self) -> bool {
        &&& self.files.wf()
        &&& forall|k: [u8; 20]|
            #[trigger] self.files@.contains_key(k) ==> is_zero_spec(k) ==> is_sentinel_file(
                self.files@[k],
            )
    }

    /// The repository invariant.
    pub open spec fn wf(&self) -> bool {
        &&& keys_unique(branch_seq(self.branches@))
        &&& self.head_ok()
        &&& self.commits_ok()
        &&& self.dirs_ok()
        &&& self.files_ok()
        &&& forall|k: [u8; 20]| is_zero_spec(k) ==> #[trigger] self.commits@.contains_key(k)
        &&& forall|k: [u8; 20]| is_zero_spec(k) ==> #[trigger] self.dirs@.contains_key(k)
        &&& forall|k: [u8; 20]| is_zero_spec(k) ==> #[trigger] self.files@.contains_key(k)
    }

    /// The tree staging starts from: the staged tree, else HEAD's tree when
    /// HEAD's commit is cached.
    pub open spec fn staged_base(&self) -> Option<DirHash> {
        match self.index {
            Some(t) => Some(t),
            None => if self.commits@.contains_key(self.head_commit().0) {
                Some(self.commits@[self.head_commit().0].objs)
            } else {
                None
            },
        }
    }

    /// Everything but the object caches is as in `o`.
    pub open spec fn same_refs(&self, o: &Repo) -> bool {
        &&& self.remote == o.remote
        &&& self.branches == o.branches
        &&& self.head == o.head
        &&& self.index == o.index
    }

    /// Caches holding only the three root objects, under the zero digest.
    pub open spec fn only_roots(&self) -> bool {
        &&& forall|k: [u8; 20]| #[trigger] self.commits@.contains_key(k) <==> is_zero_spec(k)
        &&& forall|k: [u8; 20]| #[trigger] self.files@.contains_key(k) <==> is_zero_spec(k)
        &&& forall|k: [u8; 20]| #[trigger] self.dirs@.contains_key(k) <==> is_zero_spec(k)
    }

    fn with_roots(
        remote: Option<String>,
        branches: Vec<(String, Branch)>,
        head: HeadState,
        index: Option<DirHash>,
    ) -> (r: Repo)
        ensures
            r.remote == remote,
            r.branches == branches,
            r.head == head,
            r.index == index,
            r.only_roots(),
            r.commits_ok(),
            r.dirs_ok(),
            r.files_ok(),
    {
        let zero: [u8; 20] = [0u8; 20];
        assert(is_zero_spec(zero));
        let mut commits: Store<Commit> = Store::new();
        commits.insert(zero, Commit::sentinel());
        let mut files: Store<FileObject> = Store::new();
        files.insert(zero, FileObject { permissions: 0, state: FileState::Existing });
        let mut dirs: Store<DirObject> = Store::new();
        dirs.insert(zero, DirObject::sentinel());
        let r = Repo { remote, branches, head, commits, files, dirs, index };
        assert forall|k: [u8; 20]| is_zero_spec(k) implies k == zero by {
            assert(k =~= zero);
        }
        r
    }

    /// Position of the branch named `name`.
    fn find_branch(&self, name: &String) -> (r: Option<usize>)
        requires
            keys_unique(branch_seq(self.branches@)),
        ensures
            match r {
                Some(i) => i < self.branches.len() && self.branches@[i as int].0@ == name@
                    && self.branch_map().contains_key(name@)
                    && self.branch_map()[name@] == self.branches@[i as int].1.head,
                None => !self.branch_map().contains_key(name@),
            },
    {
        let ghost s = branch_seq(self.branches@);
        let mut i: usize = 0;
        while i < self.branches.len()
            invariant
                0 <= i <= self.branches.len(),
                s == branch_seq(self.branches@),
                keys_unique(s),
                forall|j: int| 0 <= j < i ==> #[trigger] s[j].0 != name@,
            decreases self.branches.len() - i,
        {
            if self.branches[i].0 == *name {
                proof {
                    lemma_assoc_map_index(s, i as int);
                }
                return Some(i);
            }
            i = i + 1;
        }
        proof {
            lemma_assoc_map_absent(s, name@);
        }
        None
    }

    /// A fresh repository: branch `main` at the root commit, HEAD on `main`,
    /// nothing staged, and only the root objects cached.
    pub fn init() -> (r: Repo)
        ensures
            r.wf(),
            r.only_roots(),
            r.remote is None,
            r.index is None,
            r.head is Branch && r.head->Branch_0@ == "main"@,
            r.branch_map() == Map::<Seq<char>, ComHash>::empty().insert("main"@, r.head_commit()),
            is_zero_spec(r.head_commit().0),
    {
        let zero: [u8; 20] = [0u8; 20];
        let mut branches: Vec<(String, Branch)> = Vec::new();
        branches.push(("main".to_string(), Branch::new(ComHash(zero))));
        let r = Repo::with_roots(None, branches, HeadState::Branch("main".to_string()), None);
        proof {
            let s = branch_seq(r.branches@);
            assert(s.len() == 1);
            assert(s[0] == ("main"@, ComHash(zero)));
            assert(s.last() == s[0]);
            assert(s.drop_last() =~= Seq::<(Seq<char>, ComHash)>::empty());
            assert(assoc_map(s.drop_last()) == Map::<Seq<char>, ComHash>::empty());
            assert(assoc_map(s) == assoc_map(s.drop_last()).insert(s.last().0, s.last().1));
            assert(r.branch_map() =~= Map::<Seq<char>, ComHash>::empty().insert("main"@, ComHash(zero)));
        }
        r
    }

    /// Rebuilds a repository from the parts its manifest holds. Fails with
    /// `CorruptManifest` when two branches share a name or HEAD names a branch
    /// that is not there.
    pub fn load(
        remote: Option<String>,
        branches: Vec<(String, Branch)>,
        head: HeadState,
        index: Option<DirHash>,
    ) -> (r: Result<Repo, RepoError>)
        ensures
            match r {
                Ok(repo) => {
                    &&& keys_unique(branch_seq(branches@))
                    &&& (head matches HeadState::Branch(n) ==> assoc_map(
                        branch_seq(branches@),
                    ).contains_key(n@))
                    &&& repo.wf()
                    &&& repo.only_roots()
                    &&& repo.remote == remote
                    &&& repo.branches == branches
                    &&& repo.head == head
                    &&& repo.index == index
                },
                Err(e) => {
                    &&& e is CorruptManifest
                    &&& !(keys_unique(branch_seq(branches@)) && (head matches HeadState::Branch(n)
                        ==> assoc_map(branch_seq(branches@)).contains_key(n@)))
                },
            },
    {
        let ghost s = branch_seq(branches@);
        let mut i: usize = 0;
        while i < branches.len()
            invariant
                0 <= i <= branches.len(),
                s == branch_seq(branches@),
                forall|a: int, b: int| 0 <= a < b < s.len() && a < i ==> #[trigger] s[a].0 != #[trigger] s[b].0,
            decreases branches.len() - i,
        {
            let mut j: usize = i + 1;
            while j < branches.len()
                invariant
                    i < branches.len(),
                    i + 1 <= j <= branches.len(),
                    s == branch_seq(branches@),
                    forall|a: int, b: int| 0 <= a < b < s.len() && a < i ==> #[trigger] s[a].0 != #[trigger] s[b].0,
                    forall|b: int| i < b < j ==> s[i as int].0 != #[trigger] s[b].0,
                decreases branches.len() - j,
            {
                if branches[i].0 == branches[j].0 {
                    assert(s[i as int].0 == s[j as int].0);
                    return Err(RepoError::CorruptManifest);
                }
                j = j + 1;
            }
            i = i + 1;
        }
        let repo = Repo::with_roots(remote, branches, head, index);
        let ok = match &repo.head {
            HeadState::Branch(n) => repo.find_branch(n).is_some(),
            HeadState::Commit(_) => true,
        };
        if ok {
            Ok(repo)
        } else {
            Err(RepoError::CorruptManifest)
        }
    }

    /// The commit HEAD resolves to.
    pub fn get_head(&self) -> (r: ComHash)
        requires
            self.wf(),
        ensures
            r == self.head_commit(),
    {
        match &self.head {
            HeadState::Branch(name) => {
                let i = self.find_branch(name).unwrap();
                self.branches[i].1.head
            },
            HeadState::Commit(hash) => *hash,
        }
    }

    /// The cached commit under `hash`; the root commit for the zero digest, with no storage read.
    pub fn get_commit(&self, hash: ComHash) -> (r: Option<&Commit>)
        requires
            self.wf(),
        ensures
            match r {
                Some(c) => {
                    &&& self.commits@.contains_key(hash.0)
                    &&& *c == self.commits@[hash.0]
                    &&& !is_zero_spec(hash.0) ==> commit_digest(c.prev, c.objs) == hash
                    &&& is_zero_spec(hash.0) ==> c.is_sentinel()
                },
                None => !self.commits@.contains_key(hash.0),
            },
    {
        self.commits.get(&hash.0)
    }

    /// The cached tree under `hash`.
    pub fn get_dir(&self, hash: DirHash) -> (r: Option<&DirObject>)
        requires
            self.wf(),
        ensures
            match r {
                Some(d) => {
                    &&& self.dirs@.contains_key(hash.0)
                    &&& *d == self.dirs@[hash.0]
                    &&& d.wf()
                    &&& !is_zero_spec(hash.0) ==> tree_digest(d@) == hash
                    &&& is_zero_spec(hash.0) ==> d@ == Seq::<EntryV>::empty() && d.state == ObjectState::Existing
                },
                None => !self.dirs@.contains_key(hash.0),
            },
    {
        self.dirs.get(&hash.0)
    }

    /// The cached blob under `hash`.
    pub fn get_file(&self, hash: FileHash) -> (r: Option<&FileObject>)
        requires
            self.wf(),
        ensures
            match r {
                Some(f) => {
                    &&& self.files@.contains_key(hash.0)
                    &&& *f == self.files@[hash.0]
                    &&& is_zero_spec(hash.0) ==> is_sentinel_file(*f)
                },
                None => !self.files@.contains_key(hash.0),
            },
    {
        self.files.get(&hash.0)
    }

    /// Loads a commit into the cache. `stored` is what storage holds under
    /// `hash`, if anything; a cached commit is returned as it is. Fails with
    /// `MissingObject` when nothing is stored, and with `CorruptObject` when the
    /// stored commit does not have the digest `hash`.
    pub fn commit_from_hash(&mut self, hash: ComHash, stored: Option<Commit>) -> (r: Result<&Commit, RepoError>)
        requires
            old(self).wf(),
        ensures
            final(self).wf(),
            final(self).same_refs(old(self)),
            final(self).dirs == old(self).dirs,
            final(self).files == old(self).files,
            old(self).commits@.contains_key(hash.0) ==> final(self).commits@ == old(self).commits@
                && (r matches Ok(c) && *c == old(self).commits@[hash.0]),
            !old(self).commits@.contains_key(hash.0) ==> match stored {
                None => final(self).commits@ == old(self).commits@
                    && (r matches Err(RepoError::MissingObject(ObjectKind::Commit, d)) && d == hash.0),
                Some(s) => if commit_digest(s.prev, s.objs) == hash {
                    &&& r matches Ok(c)
                    &&& c.msg == s.msg && c.prev == s.prev && c.objs == s.objs
                    &&& c.state == ObjectState::Existing
                    &&& final(self).commits@ == old(self).commits@.insert(hash.0, *c)
                } else {
                    &&& final(self).commits@ == old(self).commits@
                    &&& (r matches Err(RepoError::CorruptObject(ObjectKind::Commit, d)) && d == hash.0)
                },
            },
    {
        if !self.commits.contains(&hash.0) {
            match stored {
                None => {
                    return Err(RepoError::MissingObject(ObjectKind::Commit, hash.0));
                },
                Some(s) => {
                    let h = s.hash();
                    if !digest_eq(&h.0, &hash.0) {
                        return Err(RepoError::CorruptObject(ObjectKind::Commit, hash.0));
                    }
                    let c = Commit { msg: s.msg, prev: s.prev, objs: s.objs, state: ObjectState::Existing };
                    self.commits.insert(hash.0, c);
                },
            }
        }
        match self.commits.get(&hash.0) {
            Some(c) => Ok(c),
            None => Err(RepoError::MissingObject(ObjectKind::Commit, hash.0)),
        }
    }

    /// Loads a tree into the cache. `stored` is the listing storage holds under
    /// `hash`, if anything, in any order; a cached tree is returned as it is.
    /// Fails with `MissingObject` when nothing is stored, and with
    /// `CorruptObject` when the listing does not have the digest `hash`.
    pub fn dir_from_hash(&mut self, hash: DirHash, stored: Option<Vec<(Vec<u8>, Object)>>) -> (r: Result<&DirObject, RepoError>)
        requires
            old(self).wf(),
        ensures
            final(self).wf(),
            final(self).same_refs(old(self)),
            final(self).commits == old(self).commits,
            final(self).files == old(self).files,
            old(self).dirs@.contains_key(hash.0) ==> final(self).dirs@ == old(self).dirs@
                && (r matches Ok(d) && *d == old(self).dirs@[hash.0]),
            !old(self).dirs@.contains_key(hash.0) ==> match stored {
                None => final(self).dirs@ == old(self).dirs@
                    && (r matches Err(RepoError::MissingObject(ObjectKind::Tree, d)) && d == hash.0),
                Some(s) => if tree_digest(from_entries(entries_view(s@))) == hash {
                    &&& r matches Ok(d)
                    &&& d@ == from_entries(entries_view(s@))
                    &&& d.state == ObjectState::Existing
                    &&& final(self).dirs@ == old(self).dirs@.insert(hash.0, *d)
                } else {
                    &&& final(self).dirs@ == old(self).dirs@
                    &&& (r matches Err(RepoError::CorruptObject(ObjectKind::Tree, d)) && d == hash.0)
                },
            },
    {
        if !self.dirs.contains(&hash.0) {
            match stored {
                None => {
                    return Err(RepoError::MissingObject(ObjectKind::Tree, hash.0));
                },
                Some(s) => {
                    let mut d = DirObject::sentinel();
                    let mut i: usize = 0;
                    while i < s.len()
                        invariant
                            0 <= i <= s.len(),
                            d.wf(),
                            d.state == ObjectState::Existing,
                            d@ == from_entries(entries_view(s@).take(i as int)),
                        decreases s.len() - i,
                    {
                        proof {
                            assert(entries_view(s@).take(i + 1).drop_last() =~= entries_view(s@).take(i as int));
                        }
                        d.insert(s[i].0.clone(), s[i].1);
                        i = i + 1;
                    }
                    assert(entries_view(s@).take(s.len() as int) =~= entries_view(s@));
                    let h = d.hash();
                    if !digest_eq(&h.0, &hash.0) {
                        return Err(RepoError::CorruptObject(ObjectKind::Tree, hash.0));
                    }
                    proof {
                        if is_zero_spec(hash.0) {
                            assert(false);
                        }
                    }
                    self.dirs.insert(hash.0, d);
                },
            }
        }
        match self.dirs.get(&hash.0) {
            Some(d) => Ok(d),
            None => Err(RepoError::MissingObject(ObjectKind::Tree, hash.0)),
        }
    }

    /// Loads a blob into the cache. `stored` is what storage holds under
    /// `hash`, if anything: the permission bits and the file's bytes; a cached
    /// blob is returned as it is. Fails with `MissingObject` when nothing is
    /// stored, and with `CorruptObject` when the bytes do not have the digest `hash`.
    pub fn file_from_hash(&mut self, hash: FileHash, stored: Option<(u32, Vec<u8>)>) -> (r: Result<&FileObject, RepoError>)
        requires
            old(self).wf(),
        ensures
            final(self).wf(),
            final(self).same_refs(old(self)),
            final(self).commits == old(self).commits,
            final(self).dirs == old(self).dirs,
            old(self).files@.contains_key(hash.0) ==> final(self).files@ == old(self).files@
                && (r matches Ok(f) && *f == old(self).files@[hash.0]),
            !old(self).files@.contains_key(hash.0) ==> match stored {
                None => final(self).files@ == old(self).files@
                    && (r matches Err(RepoError::MissingObject(ObjectKind::Blob, d)) && d == hash.0),
                Some(s) => if sha1_of(s.1@) == hash.0 {
                    &&& r matches Ok(f)
                    &&& f.permissions == s.0
                    &&& f.state == FileState::Existing
                    &&& final(self).files@ == old(self).files@.insert(hash.0, *f)
                } else {
                    &&& final(self).files@ == old(self).files@
                    &&& (r matches Err(RepoError::CorruptObject(ObjectKind::Blob, d)) && d == hash.0)
                },
            },
    {
        if !self.files.contains(&hash.0) {
            match stored {
                None => {
                    return Err(RepoError::MissingObject(ObjectKind::Blob, hash.0));
                },
                Some(s) => {
                    let h = hash_blob(s.1.as_slice());
                    if !digest_eq(&h.0, &hash.0) {
                        return Err(RepoError::CorruptObject(ObjectKind::Blob, hash.0));
                    }
                    self.files.insert(hash.0, FileObject { permissions: s.0, state: FileState::Existing });
                },
            }
        }
        match self.files.get(&hash.0) {
            Some(f) => Ok(f),
            None => Err(RepoError::MissingObject(ObjectKind::Blob, hash.0)),
        }
    }

    /// Registers a tree created in this session and returns its digest; a tree
    /// already cached under that digest is kept.
    pub(crate) fn new_dir(&mut self, tree: DirObject) -> (r: DirHash)
        requires
            old(self).wf(),
            tree.wf(),
        ensures
            final(self).wf(),
            final(self).same_refs(old(self)),
            final(self).commits == old(self).commits,
            final(self).files == old(self).files,
            r == tree_digest(tree@),
            final(self).dirs@.contains_key(r.0),
            final(self).dirs@ == (if old(self).dirs@.contains_key(r.0) {
                old(self).dirs@
            } else {
                old(self).dirs@.insert(r.0, DirObject { objs: tree.objs, state: ObjectState::New })
            }),
    {
        let h = tree.hash();
        proof {
            if is_zero_spec(h.0) {
                assert(self.dirs@.contains_key(h.0));
            }
        }
        self.dirs.insert(h.0, DirObject { objs: tree.objs, state: ObjectState::New });
        h
    }

    /// Registers a commit created in this session and returns its digest; a
    /// commit already cached under that digest is kept.
    fn new_commit(&mut self, msg: String, prev: ComHash, objs: DirHash) -> (r: ComHash)
        requires
            old(self).wf(),
        ensures
            final(self).wf(),
            final(self).same_refs(old(self)),
            final(self).dirs == old(self).dirs,
            final(self).files == old(self).files,
            r == commit_digest(prev, objs),
            final(self).commits@.contains_key(r.0),
            final(self).commits@ == (if old(self).commits@.contains_key(r.0) {
                old(self).commits@
            } else {
                old(self).commits@.insert(r.0, Commit { msg, prev, objs, state: ObjectState::New })
            }),
    {
        let c = Commit::new(msg, prev, objs);
        let h = c.hash();
        proof {
            if is_zero_spec(h.0) {
                assert(self.commits@.contains_key(h.0));
            }
        }
        self.commits.insert(h.0, c);
        h
    }

    /// Records a commit of tree `new_dir` on top of HEAD and moves HEAD to it:
    /// the branch HEAD names now points at it, or a detached HEAD becomes it.
    pub fn append_commit(&mut self, msg: String, new_dir: DirHash)
        requires
            old(self).wf(),
        ensures
            final(self).wf(),
            final(self).head_commit() == commit_digest(old(self).head_commit(), new_dir),
            final(self).commits@.contains_key(final(self).head_commit().0),
            final(self).commits@ == (if old(self).commits@.contains_key(final(self).head_commit().0) {
                old(self).commits@
            } else {
                old(self).commits@.insert(
                    final(self).head_commit().0,
                    Commit { msg, prev: old(self).head_commit(), objs: new_dir, state: ObjectState::New },
                )
            }),
            match old(self).head {
                HeadState::Branch(n) => final(self).head == old(self).head
                    && final(self).branch_map() == old(self).branch_map().insert(n@, final(self).head_commit()),
                HeadState::Commit(_) => final(self).head == HeadState::Commit(final(self).head_commit())
                    && final(self).branches == old(self).branches,
            },
            final(self).remote == old(self).remote,
            final(self).index == old(self).index,
            final(self).dirs == old(self).dirs,
            final(self).files == old(self).files,
    {
        let prev = self.get_head();
        let new_head = self.new_commit(msg, prev, new_dir);
        let branch_pos = match &self.head {
            HeadState::Branch(name) => self.find_branch(name),
            HeadState::Commit(_) => None,
        };
        match branch_pos {
            Some(i) => {
                let ghost s = branch_seq(self.branches@);
                let name = self.branches[i].0.clone();
                self.branches.set(i, (name, Branch { head: new_head }));
                proof {
                    assert(branch_seq(self.branches@) =~= s.update(i as int, (s[i as int].0, new_head)));
                    lemma_assoc_map_update(s, i as int, new_head);
                    assert forall|a: int, b: int| 0 <= a < b < branch_seq(self.branches@).len() implies
                        #[trigger] branch_seq(self.branches@)[a].0 != #[trigger] branch_seq(self.branches@)[b].0 by {
                        assert(s[a].0 != s[b].0);
                    }
                }
            },
            None => {
                self.head = HeadState::Commit(new_head);
            },
        }
    }

    /// Commits the staged tree: fails with `EmptyIndex`, changing nothing, when
    /// nothing is staged; otherwise appends a commit of the staged tree on top
    /// of HEAD, moves HEAD to it, and clears the index.
    pub fn commit_index(&mut self, msg: String) -> (r: Result<(), RepoError>)
        requires
            old(self).wf(),
        ensures
            final(self).wf(),
            old(self).index is None ==> (r matches Err(RepoError::EmptyIndex) && *final(self) == *old(self)),
            old(self).index matches Some(t) ==> {
                &&& r is Ok
                &&& final(self).index is None
                &&& final(self).head_commit() == commit_digest(old(self).head_commit(), t)
                &&& final(self).commits@.contains_key(final(self).head_commit().0)
                &&& final(self).commits@ == (if old(self).commits@.contains_key(final(self).head_commit().0) {
                    old(self).commits@
                } else {
                    old(self).commits@.insert(
                        final(self).head_commit().0,
                        Commit { msg, prev: old(self).head_commit(), objs: t, state: ObjectState::New },
                    )
                })
                &&& match old(self).head {
                    HeadState::Branch(n) => final(self).head == old(self).head
                        && final(self).branch_map() == old(self).branch_map().insert(n@, final(self).head_commit()),
                    HeadState::Commit(_) => final(self).head == HeadState::Commit(final(self).head_commit())
                        && final(self).branches == old(self).branches,
                }
                &&& final(self).remote == old(self).remote
                &&& final(self).dirs == old(self).dirs
                &&& final(self).files == old(self).files
            },
    {
        match self.index {
            None => Err(RepoError::EmptyIndex),
            Some(t) => {
                self.append_commit(msg, t);
                self.index = None;
                Ok(())
            },
        }
    }
}

} // verus!
