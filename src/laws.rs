use vstd::prelude::*;

use crate::commit::commit_digest;
use crate::digest::{is_zero_spec, sha1_of};
use crate::object::Object;
use crate::object::ObjectState;
use crate::repo::{from_entries, is_sentinel_file, Repo};
use crate::tree::{
    lemma_lookup_put, lemma_put_sorted, lemma_sorted_unique, lookup, put, sorted, tree_digest, EntryV,
};

verus! {

/// A tree's digest does not depend on the order its entries were inserted in:
/// binding `a` then `b` gives the same listing, and so the same digest, as
/// binding `b` then `a`.
pub proof fn law_tree_order_independent(t: Seq<EntryV>, a: Seq<u8>, x: Object, b: Seq<u8>, y: Object)
    requires
        sorted(t),
        a != b,
    ensures
        put(put(t, a, x), b, y) == put(put(t, b, y), a, x),
        tree_digest(put(put(t, a, x), b, y)) == tree_digest(put(put(t, b, y), a, x)),
{
    let s1 = put(put(t, a, x), b, y);
    let s2 = put(put(t, b, y), a, x);
    lemma_put_sorted(t, a, x);
    lemma_put_sorted(put(t, a, x), b, y);
    lemma_put_sorted(t, b, y);
    lemma_put_sorted(put(t, b, y), a, x);
    assert forall|k: Seq<u8>| lookup(s1, k) == lookup(s2, k) by {
        lemma_lookup_put(t, a, x, k);
        lemma_lookup_put(put(t, a, x), b, y, k);
        lemma_lookup_put(t, b, y, k);
        lemma_lookup_put(put(t, b, y), a, x, k);
    }
    lemma_sorted_unique(s1, s2);
}

/// Hashing the same bytes twice gives the same digest.
pub proof fn law_blob_digest_deterministic(x: Seq<u8>, y: Seq<u8>)
    requires
        x == y,
    ensures
        sha1_of(x) == sha1_of(y),
{
}

/// No two pairs of `s` share a name.
pub open spec fn names_unique(s: Seq<EntryV>) -> bool {
    forall|i: int, j: int| 0 <= i < j < s.len() ==> #[trigger] s[i].0 != #[trigger] s[j].0
}

proof fn lemma_lookup_push(s: Seq<EntryV>, e: EntryV, k: Seq<u8>)
    ensures
        lookup(s.push(e), k) == (if lookup(s, k) is Some {
            lookup(s, k)
        } else if e.0 == k {
            Some(e.1)
        } else {
            None
        }),
    decreases s.len(),
{
    let p = s.push(e);
    if s.len() > 0 {
        assert(p.drop_first() =~= s.drop_first().push(e));
        assert(p[0] == s[0]);
        lemma_lookup_push(s.drop_first(), e, k);
    } else {
        assert(p.drop_first() =~= Seq::<EntryV>::empty());
        assert(p[0] == e);
        assert(lookup(p.drop_first(), k) is None);
    }
}

proof fn lemma_lookup_none(s: Seq<EntryV>, k: Seq<u8>)
    requires
        forall|i: int| 0 <= i < s.len() ==> #[trigger] s[i].0 != k,
    ensures
        lookup(s, k) is None,
    decreases s.len(),
{
    if s.len() > 0 {
        let r = s.drop_first();
        assert forall|i: int| 0 <= i < r.len() implies #[trigger] r[i].0 != k by {
            assert(r[i] == s[i + 1]);
        }
        lemma_lookup_none(r, k);
    }
}

proof fn lemma_from_entries(s: Seq<EntryV>)
    requires
        names_unique(s),
    ensures
        sorted(from_entries(s)),
        forall|k: Seq<u8>| lookup(from_entries(s), k) == lookup(s, k),
    decreases s.len(),
{
    if s.len() > 0 {
        let r = s.drop_last();
        let e = s.last();
        assert(s == r.push(e));
        assert forall|i: int, j: int| 0 <= i < j < r.len() implies #[trigger] r[i].0 != #[trigger] r[j].0 by {
            assert(r[i] == s[i] && r[j] == s[j]);
        }
        lemma_from_entries(r);
        lemma_put_sorted(from_entries(r), e.0, e.1);
        assert forall|i: int| 0 <= i < r.len() implies #[trigger] r[i].0 != e.0 by {
            assert(r[i] == s[i]);
        }
        lemma_lookup_none(r, e.0);
        assert forall|k: Seq<u8>| lookup(from_entries(s), k) == lookup(s, k) by {
            lemma_lookup_put(from_entries(r), e.0, e.1, k);
            lemma_lookup_push(r, e, k);
        }
    }
}

/// Reading a stored listing back, in whatever order storage returns its
/// pairs, rebuilds the tree that was stored, with the digest it was stored under.
pub proof fn law_tree_round_trip(t: Seq<EntryV>, stored: Seq<EntryV>)
    requires
        sorted(t),
        names_unique(stored),
        forall|k: Seq<u8>| lookup(stored, k) == lookup(t, k),
    ensures
        from_entries(stored) == t,
        tree_digest(from_entries(stored)) == tree_digest(t),
{
    lemma_from_entries(stored);
    lemma_sorted_unique(from_entries(stored), t);
}

/// A commit or tree cached under a digest other than zero has that digest.
pub proof fn law_cached_digest(repo: Repo, k: [u8; 20])
    requires
        repo.wf(),
        !is_zero_spec(k),
    ensures
        repo.commits@.contains_key(k) ==> commit_digest(repo.commits@[k].prev, repo.commits@[k].objs).0 == k,
        repo.dirs@.contains_key(k) ==> tree_digest(repo.dirs@[k]@).0 == k,
{
}

/// The zero digest always resolves, with no storage read: to the root commit,
/// whose parent and tree are zero, and to the empty tree.
pub proof fn law_zero_resolves(repo: Repo, k: [u8; 20])
    requires
        repo.wf(),
        is_zero_spec(k),
    ensures
        repo.commits@.contains_key(k),
        repo.commits@[k].is_sentinel(),
        is_zero_spec(repo.commits@[k].prev.0),
        is_zero_spec(repo.commits@[k].objs.0),
        repo.dirs@.contains_key(k),
        repo.dirs@[k]@ == Seq::<EntryV>::empty(),
        repo.dirs@[k].state == ObjectState::Existing,
        repo.files@.contains_key(k),
        is_sentinel_file(repo.files@[k]),
{
}

} // verus!
