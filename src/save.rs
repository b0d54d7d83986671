use vstd::prelude::*;

use crate::digest::{hex_name, hex_of, is_zero_spec};
use crate::commit::Commit;
use crate::object::{FileObject, FileState, ObjectState};
use crate::repo::{ObjectKind, Repo};
use crate::store::{lemma_assoc_map_contains, lemma_assoc_map_index, Store};
use crate::tree::DirObject;

verus! {

/// One object a save has to write: its kind, its digest, the name it is stored
/// under (the digest in lowercase hex), and, for a blob, the working-tree file
/// its bytes are copied from.
pub struct PendingWrite {
    pub kind: ObjectKind,
    pub digest: [u8; 20],
    pub name: String,
    pub source: Option<String>,
}

/// An object a save may have to write.
pub trait Persisted {
    /// Created in this session, so not stored yet.
    spec fn is_new(&self) -> bool;

    /// The working-tree file its content is copied from when it is written, if any.
    spec fn source(&self) -> Option<String>;

    /// `Some` with the source when the object is new, `None` otherwise.
    fn pending(&self) -> (r: Option<Option<String>>)
        ensures
            r is Some <==> self.is_new(),
            r matches Some(s) ==> s == self.source();
}

impl Persisted for Commit {
    open spec fn is_new(&self) -> bool {
        self.state == ObjectState::New
    }

    open spec fn source(&self) -> Option<String> {
        None
    }

    fn pending(&self) -> (r: Option<Option<String>>) {
        match self.state {
            ObjectState::New => Some(None),
            ObjectState::Existing => None,
        }
    }
}

impl Persisted for DirObject {
    open spec fn is_new(&self) -> bool {
        self.state == ObjectState::New
    }

    open spec fn source(&self) -> Option<String> {
        None
    }

    fn pending(&self) -> (r: Option<Option<String>>) {
        match self.state {
            ObjectState::New => Some(None),
            ObjectState::Existing => None,
        }
    }
}

impl Persisted for FileObject {
    open spec fn is_new(&self) -> bool {
        self.state is New
    }

    open spec fn source(&self) -> Option<String> {
        match self.state {
            FileState::New(p) => Some(p),
            FileState::Existing => None,
        }
    }

    fn pending(&self) -> (r: Option<Option<String>>) {
        match &self.state {
            FileState::New(p) => Some(Some(p.clone())),
            FileState::Existing => None,
        }
    }
}

/// `w` names an object of `store` created in this session, under the object's
/// hex name and with its source.
pub open spec fn pending_in<V: Persisted>(store: Map<[u8; 20], V>, w: PendingWrite) -> bool {
    &&& w.name@ == hex_of(w.digest@)
    &&& store.contains_key(w.digest)
    &&& store[w.digest].is_new()
    &&& w.source == store[w.digest].source()
}

/// The objects of `store` created in this session, each once, as writes of kind `kind`.
fn plan_kind<V: Persisted>(store: &Store<V>, kind: ObjectKind) -> (r: Vec<PendingWrite>)
    requires
        store.wf(),
    ensures
        forall|t: int| 0 <= t < r.len() ==> pending_in(store@, #[trigger] r@[t]) && r@[t].kind == kind,
        forall|k: [u8; 20]| #[trigger] store@.contains_key(k) && store@[k].is_new()
            ==> exists|t: int| 0 <= t < r.len() && #[trigger] r@[t].digest == k,
        forall|a: int, b: int| 0 <= a < b < r.len() ==> #[trigger] r@[a].digest != #[trigger] r@[b].digest,
{
    let ghost s = store.entries@;
    let mut r: Vec<PendingWrite> = Vec::new();
    let mut i: usize = 0;
    while i < store.entries.len()
        invariant
            0 <= i <= s.len(),
            s == store.entries@,
            store.wf(),
            forall|t: int| 0 <= t < r.len() ==> pending_in(store@, #[trigger] r@[t]) && r@[t].kind == kind,
            forall|t: int| 0 <= t < r.len() ==> exists|j: int| 0 <= j < i && #[trigger] s[j].0 == #[trigger] r@[t].digest,
            forall|j: int| 0 <= j < i && (#[trigger] s[j]).1.is_new() ==> exists|t: int|
                0 <= t < r.len() && #[trigger] r@[t].digest == s[j].0,
            forall|a: int, b: int| 0 <= a < b < r.len() ==> #[trigger] r@[a].digest != #[trigger] r@[b].digest,
        decreases s.len() - i,
    {
        proof {
            lemma_assoc_map_index(s, i as int);
        }
        let e = &store.entries[i];
        match e.1.pending() {
            Some(source) => {
                let ghost before = r@;
                let name = hex_name(&e.0);
                r.push(PendingWrite { kind, digest: e.0, name, source });
                proof {
                    assert(r@[before.len() as int].digest == s[i as int].0);
                    assert forall|t: int| 0 <= t < r.len() implies exists|j: int| 0 <= j < i + 1 && #[trigger] s[j].0
                        == #[trigger] r@[t].digest by {
                        if t < before.len() {
                            assert(r@[t] == before[t]);
                        } else {
                            assert(s[i as int].0 == r@[t].digest);
                        }
                    }
                    assert forall|a: int, b: int| 0 <= a < b < r.len() implies #[trigger] r@[a].digest
                        != #[trigger] r@[b].digest by {
                        if b == before.len() {
                            assert(r@[a] == before[a]);
                            let j = choose|j: int| 0 <= j < i && #[trigger] s[j].0 == before[a].digest;
                            assert(s[j].0 != s[i as int].0);
                        } else {
                            assert(r@[a] == before[a] && r@[b] == before[b]);
                        }
                    }
                    assert forall|j: int| 0 <= j < i + 1 && (#[trigger] s[j]).1.is_new() implies exists|t: int|
                        0 <= t < r.len() && #[trigger] r@[t].digest == s[j].0 by {
                        if j < i {
                            let t = choose|t: int| 0 <= t < before.len() && #[trigger] before[t].digest == s[j].0;
                            assert(r@[t] == before[t]);
                        } else {
                            assert(r@[before.len() as int].digest == s[j].0);
                        }
                    }
                }
            },
            None => {},
        }
        i = i + 1;
    }
    proof {
        assert forall|k: [u8; 20]| #[trigger] store@.contains_key(k) && store@[k].is_new()
            implies exists|t: int| 0 <= t < r.len() && #[trigger] r@[t].digest == k by {
            lemma_assoc_map_contains(s, k);
            let j = choose|j: int| 0 <= j < s.len() && #[trigger] s[j].0 == k;
            lemma_assoc_map_index(s, j);
        }
    }
    r
}

impl Repo {
    /// `w` names an object of this repository created in this session.
    pub open spec fn is_pending(&self, w: PendingWrite) -> bool {
        &&& w.name@ == hex_of(w.digest@)
        &&& match w.kind {
            ObjectKind::Commit => self.commits@.contains_key(w.digest)
                && self.commits@[w.digest].state == ObjectState::New && w.source is None,
            ObjectKind::Tree => self.dirs@.contains_key(w.digest)
                && self.dirs@[w.digest].state == ObjectState::New && w.source is None,
            ObjectKind::Blob => self.files@.contains_key(w.digest) && match self.files@[w.digest].state {
                FileState::New(p) => w.source == Some(p),
                FileState::Existing => false,
            },
        }
    }

    /// Everything a save has to write: each commit, tree and blob cached with
    /// state `New`, exactly once, commits first, then trees, then blobs.
    pub fn save_plan(&self) -> (r: Vec<PendingWrite>)
        requires
            self.wf(),
        ensures
            forall|t: int| 0 <= t < r.len() ==> self.is_pending(#[trigger] r@[t]),
            forall|k: [u8; 20]| #[trigger] self.commits@.contains_key(k) && self.commits@[k].state == ObjectState::New
                ==> exists|t: int| 0 <= t < r.len() && r@[t].kind == ObjectKind::Commit && #[trigger] r@[t].digest == k,
            forall|k: [u8; 20]| #[trigger] self.dirs@.contains_key(k) && self.dirs@[k].state == ObjectState::New
                ==> exists|t: int| 0 <= t < r.len() && r@[t].kind == ObjectKind::Tree && #[trigger] r@[t].digest == k,
            forall|k: [u8; 20]| #[trigger] self.files@.contains_key(k) && self.files@[k].state is New
                ==> exists|t: int| 0 <= t < r.len() && r@[t].kind == ObjectKind::Blob && #[trigger] r@[t].digest == k,
            forall|a: int, b: int| 0 <= a < b < r.len() && r@[a].kind == r@[b].kind ==> #[trigger] r@[a].digest
                != #[trigger] r@[b].digest,
    {
        let mut r = plan_kind(&self.commits, ObjectKind::Commit);
        let mut d = plan_kind(&self.dirs, ObjectKind::Tree);
        let mut f = plan_kind(&self.files, ObjectKind::Blob);
        let ghost (rc, rd, rf) = (r@, d@, f@);
        r.append(&mut d);
        r.append(&mut f);
        proof {
            assert(r@ =~= rc + rd + rf);
            assert forall|k: [u8; 20]| #[trigger] self.dirs@.contains_key(k) && self.dirs@[k].state == ObjectState::New
                implies exists|t: int| 0 <= t < r.len() && r@[t].kind == ObjectKind::Tree && #[trigger] r@[t].digest == k by {
                let t = choose|t: int| 0 <= t < rd.len() && #[trigger] rd[t].digest == k;
                assert(r@[rc.len() + t] == rd[t]);
            }
            assert forall|k: [u8; 20]| #[trigger] self.files@.contains_key(k) && self.files@[k].state is New
                implies exists|t: int| 0 <= t < r.len() && r@[t].kind == ObjectKind::Blob && #[trigger] r@[t].digest == k by {
                let t = choose|t: int| 0 <= t < rf.len() && #[trigger] rf[t].digest == k;
                assert(r@[rc.len() + rd.len() + t] == rf[t]);
            }
            assert forall|k: [u8; 20]| #[trigger] self.commits@.contains_key(k) && self.commits@[k].state == ObjectState::New
                implies exists|t: int| 0 <= t < r.len() && r@[t].kind == ObjectKind::Commit && #[trigger] r@[t].digest == k by {
                let t = choose|t: int| 0 <= t < rc.len() && #[trigger] rc[t].digest == k;
                assert(r@[t] == rc[t]);
            }
            assert forall|a: int, b: int| 0 <= a < b < r.len() && r@[a].kind == r@[b].kind implies #[trigger] r@[a].digest
                != #[trigger] r@[b].digest by {
                if b < rc.len() {
                    assert(r@[a] == rc[a] && r@[b] == rc[b]);
                } else if b < rc.len() + rd.len() {
                    assert(r@[b] == rd[b - rc.len()]);
                    if a >= rc.len() {
                        assert(r@[a] == rd[a - rc.len()]);
                    } else {
                        assert(r@[a] == rc[a]);
                    }
                } else {
                    assert(r@[b] == rf[b - rc.len() - rd.len()]);
                    if a >= rc.len() + rd.len() {
                        assert(r@[a] == rf[a - rc.len() - rd.len()]);
                    } else if a >= rc.len() {
                        assert(r@[a] == rd[a - rc.len()]);
                    } else {
                        assert(r@[a] == rc[a]);
                    }
                }
            }
            assert forall|t: int| 0 <= t < r.len() implies self.is_pending(#[trigger] r@[t]) by {
                if t < rc.len() {
                    assert(r@[t] == rc[t]);
                } else if t < rc.len() + rd.len() {
                    assert(r@[t] == rd[t - rc.len()]);
                } else {
                    assert(r@[t] == rf[t - rc.len() - rd.len()]);
                }
            }
        }
        r
    }
}

/// The zero digest is never planned for writing: the root objects it stands
/// for are never stored.
pub proof fn law_zero_never_written(repo: Repo, w: PendingWrite)
    requires
        repo.wf(),
        repo.is_pending(w),
    ensures
        !is_zero_spec(w.digest),
{
}

} // verus!
