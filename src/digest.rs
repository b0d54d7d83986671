use sha1::{Digest, Sha1};
use vstd::prelude::*;


verus! {

/// What SHA-1 gives for a byte sequence.
pub uninterp spec fn sha1_of(data: Seq<u8>) -> [u8; 20];

/// Relies on sha1's `Sha1::digest`: the SHA-1 digest of `data`, which depends on the bytes alone.
#[verifier::external_body]
pub(crate) fn sha1_digest(data: &[u8]) -> (r: [u8; 20])
    ensures
        r == sha1_of(data@),
{
    Sha1::digest(data).into()
}

/// Identity of a commit.
#[derive(Clone, Copy)]
pub struct ComHash(pub [u8; 20]);

/// Identity of a tree.
#[derive(Clone, Copy)]
pub struct DirHash(pub [u8; 20]);

/// Identity of a blob.
#[derive(Clone, Copy)]
pub struct FileHash(pub [u8; 20]);

/// The reserved all-zero digest.
pub open spec fn is_zero_spec(d: [u8; 20]) -> bool {
    forall|i: int| 0 <= i < 20 ==> #[trigger] d[i] == 0
}

pub fn is_zero(d: &[u8; 20]) -> (r: bool)
    ensures
        r == is_zero_spec(*d),
{
    let mut i: usize = 0;
    while i < 20
        invariant
            0 <= i <= 20,
            forall|j: int| 0 <= j < i ==> d[j] == 0,
        decreases 20 - i,
    {
        if d[i] != 0 {
            return false;
        }
        i = i + 1;
    }
    true
}

pub fn digest_eq(a: &[u8; 20], b: &[u8; 20]) -> (r: bool)
    ensures
        r == (*a == *b),
{
    let mut i: usize = 0;
    while i < 20
        invariant
            0 <= i <= 20,
            forall|j: int| 0 <= j < i ==> a[j] == b[j],
        decreases 20 - i,
    {
        if a[i] != b[i] {
            return false;
        }
        i = i + 1;
    }
    proof {
        assert(*a =~= *b);
    }
    true
}

/// Digest of the raw bytes of a file.
pub fn hash_blob(bytes: &[u8]) -> (r: FileHash)
    ensures
        r.0 == sha1_of(bytes@),
{
    FileHash(sha1_digest(bytes))
}

/// The lowercase hexadecimal digit for `n` (below 16).
pub open spec fn hex_char(n: int) -> char {
    seq!['0', '1', '2', '3', '4', '5', '6', '7', '8', '9', 'a', 'b', 'c', 'd', 'e', 'f'][n]
}

/// Two lowercase hexadecimal digits per byte, high digit first.
pub open spec fn hex_of(b: Seq<u8>) -> Seq<char>
    decreases b.len(),
{
    if b.len() == 0 {
        Seq::empty()
    } else {
        hex_of(b.drop_last()) + seq![hex_char(b.last() as int / 16), hex_char(b.last() as int % 16)]
    }
}

/// Relies on hex's `encode`: each byte becomes two lowercase hex digits, high digit first.
#[verifier::external_body]
pub(crate) fn hex_name(d: &[u8; 20]) -> (r: String)
    ensures
        r@ == hex_of(d@),
{
    hex::encode(d)
}

/// The lowercase hex form of a digest, as objects are named in storage.
pub fn to_hex(d: &[u8; 20]) -> (r: String)
    ensures
        r@ == hex_of(d@),
{
    hex_name(d)
}

} // verus!
