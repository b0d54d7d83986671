use vstd::prelude::*;

use crate::digest::{sha1_digest, sha1_of, DirHash};
use crate::object::{Object, ObjectState};

verus! {

/// One tree entry as seen by specifications: the raw name bytes and the child.
pub type EntryV = (Seq<u8>, Object);

/// Byte-wise lexicographic order on entry names (a proper prefix comes first).
pub open spec fn lex_lt(a: Seq<u8>, b: Seq<u8>) -> bool
    decreases a.len(),
{
    if a.len() == 0 {
        b.len() > 0
    } else if b.len() == 0 {
        false
    } else if a[0] != b[0] {
        a[0] < b[0]
    } else {
        lex_lt(a.drop_first(), b.drop_first())
    }
}

pub proof fn lemma_lex_irrefl(a: Seq<u8>)
    ensures
        !lex_lt(a, a),
    decreases a.len(),
{
    if a.len() > 0 {
        lemma_lex_irrefl(a.drop_first());
    }
}

pub proof fn lemma_lex_asym(a: Seq<u8>, b: Seq<u8>)
    ensures
        lex_lt(a, b) ==> !lex_lt(b, a),
    decreases a.len(),
{
    if a.len() > 0 && b.len() > 0 && a[0] == b[0] {
        lemma_lex_asym(a.drop_first(), b.drop_first());
    }
}

pub proof fn lemma_lex_total(a: Seq<u8>, b: Seq<u8>)
    ensures
        a != b ==> lex_lt(a, b) || lex_lt(b, a),
    decreases a.len(),
{
    if a.len() > 0 && b.len() > 0 && a[0] == b[0] {
        lemma_lex_total(a.drop_first(), b.drop_first());
        if a.drop_first() == b.drop_first() {
            assert(a =~= seq![a[0]] + a.drop_first());
            assert(b =~= seq![b[0]] + b.drop_first());
        }
    } else if a.len() == 0 && b.len() == 0 {
        assert(a =~= b);
    }
}

pub proof fn lemma_lex_trans(a: Seq<u8>, b: Seq<u8>, c: Seq<u8>)
    requires
        lex_lt(a, b),
        lex_lt(b, c),
    ensures
        lex_lt(a, c),
    decreases a.len(),
{
    if a.len() > 0 && b.len() > 0 && c.len() > 0 && a[0] == b[0] && b[0] == c[0] {
        lemma_lex_trans(a.drop_first(), b.drop_first(), c.drop_first());
    }
}

/// Entries strictly increasing by name: names are unique and in canonical order.
pub open spec fn sorted(s: Seq<EntryV>) -> bool {
    forall|i: int, j: int| 0 <= i < j < s.len() ==> lex_lt(#[trigger] s[i].0, #[trigger] s[j].0)
}

/// The child recorded under `k`, if any.
pub open spec fn lookup(s: Seq<EntryV>, k: Seq<u8>) -> Option<Object>
    decreases s.len(),
{
    if s.len() == 0 {
        None
    } else if s[0].0 == k {
        Some(s[0].1)
    } else {
        lookup(s.drop_first(), k)
    }
}

/// `s` with `k` bound to `v`, kept in name order.
pub open spec fn put(s: Seq<EntryV>, k: Seq<u8>, v: Object) -> Seq<EntryV>
    decreases s.len(),
{
    if s.len() == 0 {
        seq![(k, v)]
    } else if s[0].0 == k {
        seq![(k, v)] + s.drop_first()
    } else if lex_lt(k, s[0].0) {
        seq![(k, v)] + s
    } else {
        seq![s[0]] + put(s.drop_first(), k, v)
    }
}

/// `s` without the entry named `k`.
pub open spec fn del(s: Seq<EntryV>, k: Seq<u8>) -> Seq<EntryV>
    decreases s.len(),
{
    if s.len() == 0 {
        s
    } else if s[0].0 == k {
        s.drop_first()
    } else {
        seq![s[0]] + del(s.drop_first(), k)
    }
}

/// The bytes one entry contributes to its tree's digest: name, then child digest.
pub open spec fn entry_bytes(e: EntryV) -> Seq<u8> {
    e.0 + e.1.digest()@
}

/// The canonical byte form of a tree: its entries, in name order, one after another.
pub open spec fn encode(s: Seq<EntryV>) -> Seq<u8>
    decreases s.len(),
{
    if s.len() == 0 {
        Seq::empty()
    } else {
        encode(s.drop_last()) + entry_bytes(s.last())
    }
}

/// Identity of a tree with entries `s`.
pub open spec fn tree_digest(s: Seq<EntryV>) -> DirHash {
    DirHash(sha1_of(encode(s)))
}

pub proof fn lemma_lookup_put(s: Seq<EntryV>, k: Seq<u8>, v: Object, j: Seq<u8>)
    ensures
        lookup(put(s, k, v), j) == (if j == k {
            Some(v)
        } else {
            lookup(s, j)
        }),
    decreases s.len(),
{
    let t = put(s, k, v);
    if s.len() > 0 && s[0].0 != k && !lex_lt(k, s[0].0) {
        lemma_lookup_put(s.drop_first(), k, v, j);
        assert(t.drop_first() =~= put(s.drop_first(), k, v));
        assert(t[0] == s[0]);
    } else if s.len() > 0 && s[0].0 == k {
        assert(t.drop_first() =~= s.drop_first());
        assert(t[0] == (k, v));
    } else if s.len() > 0 {
        assert(t.drop_first() =~= s);
        assert(t[0] == (k, v));
    } else {
        assert(t.drop_first() =~= Seq::<EntryV>::empty());
        assert(t[0] == (k, v));
        assert(lookup(t.drop_first(), j) is None);
    }
}

/// Every name in `s` is above `b`.
pub open spec fn all_above(s: Seq<EntryV>, b: Seq<u8>) -> bool {
    forall|i: int| 0 <= i < s.len() ==> lex_lt(b, #[trigger] s[i].0)
}

pub proof fn lemma_put_above(s: Seq<EntryV>, k: Seq<u8>, v: Object, b: Seq<u8>)
    requires
        all_above(s, b),
        lex_lt(b, k),
    ensures
        all_above(put(s, k, v), b),
    decreases s.len(),
{
    if s.len() > 0 && s[0].0 != k && !lex_lt(k, s[0].0) {
        lemma_put_above(s.drop_first(), k, v, b);
        let t = seq![s[0]] + put(s.drop_first(), k, v);
        assert forall|i: int| 0 <= i < t.len() implies lex_lt(b, #[trigger] t[i].0) by {
            if i > 0 {
                assert(t[i] == put(s.drop_first(), k, v)[i - 1]);
            }
        }
    } else if s.len() > 0 && s[0].0 == k {
        let t = seq![(k, v)] + s.drop_first();
        assert forall|i: int| 0 <= i < t.len() implies lex_lt(b, #[trigger] t[i].0) by {
            if i > 0 {
                assert(t[i] == s[i]);
            }
        }
    } else if s.len() > 0 {
        let t = seq![(k, v)] + s;
        assert forall|i: int| 0 <= i < t.len() implies lex_lt(b, #[trigger] t[i].0) by {
            if i > 0 {
                assert(t[i] == s[i - 1]);
            }
        }
    }
}

pub proof fn lemma_put_sorted(s: Seq<EntryV>, k: Seq<u8>, v: Object)
    requires
        sorted(s),
    ensures
        sorted(put(s, k, v)),
    decreases s.len(),
{
    if s.len() == 0 {
    } else if s[0].0 == k {
        let t = seq![(k, v)] + s.drop_first();
        assert forall|i: int, j: int| 0 <= i < j < t.len() implies lex_lt(
            #[trigger] t[i].0,
            #[trigger] t[j].0,
        ) by {
            assert(t[j] == s[j]);
            if i > 0 {
                assert(t[i] == s[i]);
            }
        }
    } else if lex_lt(k, s[0].0) {
        let t = seq![(k, v)] + s;
        assert forall|i: int, j: int| 0 <= i < j < t.len() implies lex_lt(
            #[trigger] t[i].0,
            #[trigger] t[j].0,
        ) by {
            assert(t[j] == s[j - 1]);
            if i > 0 {
                assert(t[i] == s[i - 1]);
            } else if j > 1 {
                lemma_lex_trans(k, s[0].0, s[j - 1].0);
            }
        }
    } else {
        lemma_lex_total(k, s[0].0);
        let r = s.drop_first();
        assert(sorted(r)) by {
            assert forall|i: int, j: int| 0 <= i < j < r.len() implies lex_lt(
                #[trigger] r[i].0,
                #[trigger] r[j].0,
            ) by {
                assert(r[i] == s[i + 1] && r[j] == s[j + 1]);
            }
        }
        lemma_put_sorted(r, k, v);
        assert(all_above(r, s[0].0)) by {
            assert forall|i: int| 0 <= i < r.len() implies lex_lt(s[0].0, #[trigger] r[i].0) by {
                assert(r[i] == s[i + 1]);
            }
        }
        lemma_put_above(r, k, v, s[0].0);
        let p = put(r, k, v);
        let t = seq![s[0]] + p;
        assert forall|i: int, j: int| 0 <= i < j < t.len() implies lex_lt(
            #[trigger] t[i].0,
            #[trigger] t[j].0,
        ) by {
            assert(t[j] == p[j - 1]);
            if i > 0 {
                assert(t[i] == p[i - 1]);
            }
        }
    }
}

pub proof fn lemma_sorted_tail(s: Seq<EntryV>)
    requires
        sorted(s),
        s.len() > 0,
    ensures
        sorted(s.drop_first()),
        all_above(s.drop_first(), s[0].0),
{
    let r = s.drop_first();
    assert forall|i: int, j: int| 0 <= i < j < r.len() implies lex_lt(
        #[trigger] r[i].0,
        #[trigger] r[j].0,
    ) by {
        assert(r[i] == s[i + 1] && r[j] == s[j + 1]);
    }
    assert forall|i: int| 0 <= i < r.len() implies lex_lt(s[0].0, #[trigger] r[i].0) by {
        assert(r[i] == s[i + 1]);
    }
}

pub proof fn lemma_lookup_below(s: Seq<EntryV>, k: Seq<u8>)
    requires
        all_above(s, k),
    ensures
        lookup(s, k) is None,
    decreases s.len(),
{
    if s.len() > 0 {
        lemma_lex_irrefl(k);
        let r = s.drop_first();
        assert forall|i: int| 0 <= i < r.len() implies lex_lt(k, #[trigger] r[i].0) by {
            assert(r[i] == s[i + 1]);
        }
        lemma_lookup_below(r, k);
    }
}

/// Two entry lists in canonical order that agree on every name are the same list.
pub proof fn lemma_sorted_unique(s1: Seq<EntryV>, s2: Seq<EntryV>)
    requires
        sorted(s1),
        sorted(s2),
        forall|k: Seq<u8>| lookup(s1, k) == lookup(s2, k),
    ensures
        s1 == s2,
    decreases s1.len() + s2.len(),
{
    if s1.len() == 0 && s2.len() == 0 {
        assert(s1 =~= s2);
    } else if s1.len() == 0 {
        assert(lookup(s2, s2[0].0) is Some);
        assert(lookup(s1, s2[0].0) is None);
    } else if s2.len() == 0 {
        assert(lookup(s1, s1[0].0) is Some);
        assert(lookup(s2, s1[0].0) is None);
    } else {
        let a = s1[0].0;
        let b = s2[0].0;
        lemma_sorted_tail(s1);
        lemma_sorted_tail(s2);
        lemma_lex_total(a, b);
        if lex_lt(a, b) {
            assert(lookup(s1, a) is Some);
            lemma_lex_irrefl(a);
            assert forall|i: int| 0 <= i < s2.drop_first().len() implies lex_lt(
                a,
                #[trigger] s2.drop_first()[i].0,
            ) by {
                lemma_lex_trans(a, b, s2.drop_first()[i].0);
            }
            lemma_lookup_below(s2.drop_first(), a);
            assert(false);
        } else if lex_lt(b, a) {
            assert(lookup(s2, b) is Some);
            lemma_lex_irrefl(b);
            assert forall|i: int| 0 <= i < s1.drop_first().len() implies lex_lt(
                b,
                #[trigger] s1.drop_first()[i].0,
            ) by {
                lemma_lex_trans(b, a, s1.drop_first()[i].0);
            }
            lemma_lookup_below(s1.drop_first(), b);
            assert(false);
        } else {
            assert(lookup(s1, a) == lookup(s2, a));
            assert forall|k: Seq<u8>| lookup(s1.drop_first(), k) == lookup(s2.drop_first(), k) by {
                if k == a {
                    lemma_lex_irrefl(a);
                    lemma_lookup_below(s1.drop_first(), a);
                    lemma_lookup_below(s2.drop_first(), a);
                } else {
                    assert(lookup(s1, k) == lookup(s1.drop_first(), k));
                    assert(lookup(s2, k) == lookup(s2.drop_first(), k));
                }
            }
            lemma_sorted_unique(s1.drop_first(), s2.drop_first());
            assert(s1 =~= seq![s1[0]] + s1.drop_first());
            assert(s2 =~= seq![s2[0]] + s2.drop_first());
        }
    }
}

/// Lemma tying `put` to the position a scan finds.
proof fn lemma_put_at(s: Seq<EntryV>, k: Seq<u8>, v: Object, p: int)
    requires
        0 <= p <= s.len(),
        forall|i: int| 0 <= i < p ==> lex_lt(#[trigger] s[i].0, k),
        p == s.len() || !lex_lt(s[p].0, k),
    ensures
        p < s.len() && s[p].0 == k ==> put(s, k, v) == s.update(p, (k, v)),
        !(p < s.len() && s[p].0 == k) ==> put(s, k, v) == s.insert(p, (k, v)),
    decreases p,
{
    if s.len() == 0 {
        assert(seq![(k, v)] =~= s.insert(p, (k, v)));
    } else if p == 0 {
        if s[0].0 == k {
            assert(seq![(k, v)] + s.drop_first() =~= s.update(0, (k, v)));
        } else {
            lemma_lex_total(k, s[0].0);
            assert(seq![(k, v)] + s =~= s.insert(0, (k, v)));
        }
    } else {
        lemma_lex_irrefl(k);
        lemma_lex_asym(s[0].0, k);
        let r = s.drop_first();
        assert forall|i: int| 0 <= i < p - 1 implies lex_lt(#[trigger] r[i].0, k) by {
            assert(r[i] == s[i + 1]);
        }
        lemma_put_at(r, k, v, p - 1);
        if p < s.len() && s[p].0 == k {
            assert(seq![s[0]] + r.update(p - 1, (k, v)) =~= s.update(p, (k, v)));
        } else {
            assert(seq![s[0]] + r.insert(p - 1, (k, v)) =~= s.insert(p, (k, v)));
        }
    }
}

/// Lemma tying `del` and `lookup` to the first position holding `k`.
proof fn lemma_first_match(s: Seq<EntryV>, k: Seq<u8>, p: int)
    requires
        0 <= p <= s.len(),
        forall|i: int| 0 <= i < p ==> #[trigger] s[i].0 != k,
        p == s.len() || s[p].0 == k,
    ensures
        p < s.len() ==> del(s, k) == s.remove(p) && lookup(s, k) == Some(s[p].1),
        p == s.len() ==> del(s, k) == s && lookup(s, k) is None,
    decreases p,
{
    if s.len() == 0 {
    } else if p == 0 {
        assert(s.drop_first() =~= s.remove(0));
    } else {
        let r = s.drop_first();
        assert forall|i: int| 0 <= i < p - 1 implies #[trigger] r[i].0 != k by {
            assert(r[i] == s[i + 1]);
        }
        lemma_first_match(r, k, p - 1);
        if p < s.len() {
            assert(seq![s[0]] + r.remove(p - 1) =~= s.remove(p));
        } else {
            assert(seq![s[0]] + r =~= s);
        }
    }
}

proof fn lemma_encode_push(s: Seq<EntryV>, e: EntryV)
    ensures
        encode(s.push(e)) == encode(s) + entry_bytes(e),
{
    assert(s.push(e).drop_last() =~= s);
}

/// Compares two names in byte-wise lexicographic order.
pub fn name_lt(a: &[u8], b: &[u8]) -> (r: bool)
    ensures
        r == lex_lt(a@, b@),
{
    let mut i: usize = 0;
    assert(a@.skip(0) =~= a@);
    assert(b@.skip(0) =~= b@);
    while i < a.len() && i < b.len()
        invariant
            0 <= i <= a.len(),
            i <= b.len(),
            lex_lt(a@, b@) == lex_lt(a@.skip(i as int), b@.skip(i as int)),
        decreases a.len() - i,
    {
        if a[i] != b[i] {
            return a[i] < b[i];
        }
        assert(a@.skip(i as int).drop_first() =~= a@.skip(i + 1));
        assert(b@.skip(i as int).drop_first() =~= b@.skip(i + 1));
        i = i + 1;
    }
    i < b.len()
}

/// Compares two names for equality.
pub fn name_eq(a: &[u8], b: &[u8]) -> (r: bool)
    ensures
        r == (a@ == b@),
{
    if a.len() != b.len() {
        return false;
    }
    let mut i: usize = 0;
    while i < a.len()
        invariant
            0 <= i <= a.len(),
            a.len() == b.len(),
            forall|j: int| 0 <= j < i ==> a@[j] == b@[j],
        decreases a.len() - i,
    {
        if a[i] != b[i] {
            return false;
        }
        i = i + 1;
    }
    assert(a@ =~= b@);
    true
}

fn copy_bytes(src: &[u8]) -> (r: Vec<u8>)
    ensures
        r@ == src@,
{
    let mut out: Vec<u8> = Vec::new();
    let mut i: usize = 0;
    while i < src.len()
        invariant
            0 <= i <= src.len(),
            out@ == src@.take(i as int),
        decreases src.len() - i,
    {
        out.push(src[i]);
        assert(src@.take(i + 1) =~= src@.take(i as int).push(src@[i as int]));
        i = i + 1;
    }
    assert(src@.take(src.len() as int) =~= src@);
    out
}

fn append_bytes(buf: &mut Vec<u8>, src: &[u8])
    ensures
        final(buf)@ == old(buf)@ + src@,
{
    let mut i: usize = 0;
    while i < src.len()
        invariant
            0 <= i <= src.len(),
            buf@ == old(buf)@ + src@.take(i as int),
        decreases src.len() - i,
    {
        buf.push(src[i]);
        assert(src@.take(i + 1) =~= src@.take(i as int).push(src@[i as int]));
        i = i + 1;
    }
    assert(src@.take(src.len() as int) =~= src@);
}

/// A directory listing: names (raw bytes) mapped to child references, held in
/// canonical name order.
pub struct DirObject {
    pub objs: Vec<(Vec<u8>, Object)>,
    pub state: ObjectState,
}

impl View for DirObject {
    type V = Seq<EntryV>;

    open spec fn view(&self) -> Seq<EntryV> {
        self.objs@.map_values(|e: (Vec<u8>, Object)| (e.0@, e.1))
    }
}

impl DirObject {
    /// Names are unique and in canonical order.
    pub open spec fn wf(&self) -> bool {
        sorted(self@)
    }

    /// An empty tree created in this session.
    pub fn empty() -> (r: DirObject)
        ensures
            r.wf(),
            r@ == Seq::<EntryV>::empty(),
            r.state == ObjectState::New,
    {
        let r = DirObject { objs: Vec::new(), state: ObjectState::New };
        assert(r@ =~= Seq::<EntryV>::empty());
        r
    }

    /// The empty tree stored under the all-zero digest.
    pub fn sentinel() -> (r: DirObject)
        ensures
            r.wf(),
            r@ == Seq::<EntryV>::empty(),
            r.state == ObjectState::Existing,
    {
        let r = DirObject { objs: Vec::new(), state: ObjectState::Existing };
        assert(r@ =~= Seq::<EntryV>::empty());
        r
    }

    /// A tree with a single file entry named `default`.
    pub fn new(filehash: crate::digest::FileHash) -> (r: DirObject)
        ensures
            r.wf(),
            r@ == seq![(seq![100u8, 101, 102, 97, 117, 108, 116], Object::File(filehash))],
            r.state == ObjectState::New,
    {
        let mut r = DirObject::empty();
        let name: Vec<u8> = vec![100u8, 101, 102, 97, 117, 108, 116];
        r.insert(name, Object::File(filehash));
        assert(put(Seq::<EntryV>::empty(), name@, Object::File(filehash)) =~= seq![(name@, Object::File(filehash))]);
        assert(name@ =~= seq![100u8, 101, 102, 97, 117, 108, 116]);
        r
    }

    /// An independent copy with the same entries and state.
    pub fn copy(&self) -> (r: DirObject)
        ensures
            r@ == self@,
            r.state == self.state,
    {
        let mut objs: Vec<(Vec<u8>, Object)> = Vec::new();
        let mut i: usize = 0;
        while i < self.objs.len()
            invariant
                0 <= i <= self.objs.len(),
                objs@.map_values(|e: (Vec<u8>, Object)| (e.0@, e.1)) == self@.take(i as int),
            decreases self.objs.len() - i,
        {
            let ghost before = objs@;
            objs.push((self.objs[i].0.clone(), self.objs[i].1));
            assert(objs@.map_values(|e: (Vec<u8>, Object)| (e.0@, e.1)) =~= before.map_values(
                |e: (Vec<u8>, Object)| (e.0@, e.1),
            ).push(self@[i as int]));
            assert(self@.take(i + 1) =~= self@.take(i as int).push(self@[i as int]));
            i = i + 1;
        }
        assert(self@.take(self.objs.len() as int) =~= self@);
        DirObject { objs, state: self.state }
    }

    /// Number of entries.
    pub fn len(&self) -> (r: usize)
        ensures
            r == self@.len(),
    {
        self.objs.len()
    }

    /// The child recorded under `name`.
    pub fn get(&self, name: &[u8]) -> (r: Option<Object>)
        ensures
            r == lookup(self@, name@),
    {
        let mut i: usize = 0;
        while i < self.objs.len()
            invariant
                0 <= i <= self.objs.len(),
                forall|j: int| 0 <= j < i ==> #[trigger] self@[j].0 != name@,
            decreases self.objs.len() - i,
        {
            if name_eq(self.objs[i].0.as_slice(), name) {
                proof {
                    lemma_first_match(self@, name@, i as int);
                }
                return Some(self.objs[i].1);
            }
            i = i + 1;
        }
        proof {
            lemma_first_match(self@, name@, i as int);
        }
        None
    }

    /// Binds `name` to `obj`, replacing any earlier binding.
    pub fn insert(&mut self, name: Vec<u8>, obj: Object)
        requires
            old(self).wf(),
        ensures
            final(self).wf(),
            final(self)@ == put(old(self)@, name@, obj),
            final(self).state == old(self).state,
    {
        let ghost s = self@;
        let mut i: usize = 0;
        while i < self.objs.len() && name_lt(self.objs[i].0.as_slice(), name.as_slice())
            invariant
                0 <= i <= self.objs.len(),
                s == self@,
                forall|j: int| 0 <= j < i ==> lex_lt(#[trigger] s[j].0, name@),
            decreases self.objs.len() - i,
        {
            i = i + 1;
        }
        proof {
            lemma_put_at(s, name@, obj, i as int);
            lemma_put_sorted(s, name@, obj);
        }
        if i < self.objs.len() && name_eq(self.objs[i].0.as_slice(), name.as_slice()) {
            self.objs.set(i, (name, obj));
            assert(self@ =~= s.update(i as int, (name@, obj)));
        } else {
            self.objs.insert(i, (name, obj));
            assert(self@ =~= s.insert(i as int, (name@, obj)));
        }
    }

    /// Drops the entry named `name`, if there is one.
    pub fn remove(&mut self, name: &[u8])
        requires
            old(self).wf(),
        ensures
            final(self).wf(),
            final(self)@ == del(old(self)@, name@),
            final(self).state == old(self).state,
    {
        let ghost s = self@;
        let mut i: usize = 0;
        while i < self.objs.len()
            invariant
                0 <= i <= self.objs.len(),
                s == self@,
                s == old(self)@,
                sorted(s),
                self.state == old(self).state,
                forall|j: int| 0 <= j < i ==> #[trigger] s[j].0 != name@,
            decreases self.objs.len() - i,
        {
            if name_eq(self.objs[i].0.as_slice(), name) {
                proof {
                    lemma_first_match(s, name@, i as int);
                }
                self.objs.remove(i);
                assert(self@ =~= s.remove(i as int));
                assert forall|a: int, b: int| 0 <= a < b < self@.len() implies lex_lt(
                    #[trigger] self@[a].0,
                    #[trigger] self@[b].0,
                ) by {
                    let a2 = if a < i { a } else { a + 1 };
                    let b2 = if b < i { b } else { b + 1 };
                    assert(self@[a] == s[a2] && self@[b] == s[b2]);
                    assert(lex_lt(s[a2].0, s[b2].0));
                }
                return;
            }
            i = i + 1;
        }
        proof {
            lemma_first_match(s, name@, i as int);
        }
    }

    /// Identity of this tree: the SHA-1 of its canonical byte form.
    pub fn hash(&self) -> (r: DirHash)
        ensures
            r == tree_digest(self@),
    {
        let mut buf: Vec<u8> = Vec::new();
        let mut i: usize = 0;
        while i < self.objs.len()
            invariant
                0 <= i <= self.objs.len(),
                buf@ == encode(self@.take(i as int)),
            decreases self.objs.len() - i,
        {
            let ghost before = self@.take(i as int);
            append_bytes(&mut buf, self.objs[i].0.as_slice());
            let d = match self.objs[i].1 {
                Object::File(h) => h.0,
                Object::Dir(h) => h.0,
            };
            append_bytes(&mut buf, &d);
            proof {
                assert(self@.take(i + 1) =~= before.push(self@[i as int]));
                lemma_encode_push(before, self@[i as int]);
                assert(entry_bytes(self@[i as int]) =~= self.objs@[i as int].0@ + d@);
            }
            i = i + 1;
        }
        assert(self@.take(self.objs.len() as int) =~= self@);
        DirHash(sha1_digest(buf.as_slice()))
    }
}

} // verus!
