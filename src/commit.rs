use vstd::prelude::*;

use crate::digest::{is_zero, is_zero_spec, sha1_digest, sha1_of, ComHash, DirHash};
use crate::object::ObjectState;

verus! {

/// Identity of a commit with parent `prev` and root tree `objs`: the message
/// is not part of it.
pub open spec fn commit_digest(prev: ComHash, objs: DirHash) -> ComHash {
    ComHash(sha1_of(prev.0@ + objs.0@))
}

/// A snapshot: a root tree, its parent commit, and a message.
pub struct Commit {
    pub msg: String,
    pub prev: ComHash,
    pub objs: DirHash,
    pub state: ObjectState,
}

impl Commit {
    /// The implicit root commit that the all-zero digest denotes.
    pub open spec fn is_sentinel(&self) -> bool {
        &&& self.msg@ == "init"@
        &&& is_zero_spec(self.prev.0)
        &&& is_zero_spec(self.objs.0)
        &&& self.state == ObjectState::Existing
    }

    /// A commit created in this session.
    pub fn new(msg: String, prev: ComHash, objs: DirHash) -> (r: Commit)
        ensures
            r.msg == msg,
            r.prev == prev,
            r.objs == objs,
            r.state == ObjectState::New,
    {
        Commit { msg, prev, objs, state: ObjectState::New }
    }

    /// The root commit `init`, with zero parent and zero tree.
    pub fn sentinel() -> (r: Commit)
        ensures
            r.is_sentinel(),
    {
        Commit {
            msg: "init".to_string(),
            prev: ComHash([0u8; 20]),
            objs: DirHash([0u8; 20]),
            state: ObjectState::Existing,
        }
    }

    /// The commit that `hash` denotes without any storage: the root commit for
    /// the all-zero digest, nothing for any other.
    pub fn from_hash(hash: ComHash) -> (r: Option<Commit>)
        ensures
            is_zero_spec(hash.0) ==> r is Some && r->0.is_sentinel(),
            !is_zero_spec(hash.0) ==> r is None,
    {
        if is_zero(&hash.0) {
            Some(Commit::sentinel())
        } else {
            None
        }
    }

    /// Identity of this commit: the SHA-1 of the parent digest followed by the tree digest.
    pub fn hash(&self) -> (r: ComHash)
        ensures
            r == commit_digest(self.prev, self.objs),
    {
        let mut buf: Vec<u8> = Vec::new();
        let mut i: usize = 0;
        while i < 20
            invariant
                0 <= i <= 20,
                buf@ == self.prev.0@.take(i as int),
            decreases 20 - i,
        {
            buf.push(self.prev.0[i]);
            assert(self.prev.0@.take(i + 1) =~= self.prev.0@.take(i as int).push(self.prev.0@[i as int]));
            i = i + 1;
        }
        let mut j: usize = 0;
        while j < 20
            invariant
                0 <= j <= 20,
                buf@ == self.prev.0@ + self.objs.0@.take(j as int),
            decreases 20 - j,
        {
            buf.push(self.objs.0[j]);
            assert(self.objs.0@.take(j + 1) =~= self.objs.0@.take(j as int).push(self.objs.0@[j as int]));
            j = j + 1;
        }
        assert(self.prev.0@.take(20) =~= self.prev.0@);
        assert(self.objs.0@.take(20) =~= self.objs.0@);
        ComHash(sha1_digest(buf.as_slice()))
    }
}

/// A named line of history: the commit it points at.
#[derive(Clone, Copy)]
pub struct Branch {
    pub head: ComHash,
}

impl Branch {
    pub fn new(head: ComHash) -> (r: Branch)
        ensures
            r.head == head,
    {
        Branch { head }
    }
}

} // verus!
