use vstd::prelude::*;
use blake2::Digest;

verus! {

/// The strong hash family that a signature uses.
#[derive(Clone, Copy, Debug, PartialEq, Eq, Structural)]
pub enum SignatureType {
    MD4,
    Blake2,
}

/// The MD4 digest of some bytes.
pub uninterp spec fn md4_digest(data: Seq<u8>) -> Seq<u8>;

/// The BLAKE2b digest, with a 32-byte output, of some bytes.
pub uninterp spec fn blake2b_digest(data: Seq<u8>) -> Seq<u8>;

/// Relies on md4::Md4 (through digest::Digest::digest): the MD4 digest, whose output is 16 bytes.
#[verifier::external_body]
fn md4_of(data: &[u8]) -> (r: Vec<u8>)
    ensures
        r@ == md4_digest(data@),
        r@.len() == 16,
{
    md4::Md4::digest(data).to_vec()
}

/// Relies on blake2::Blake2b with a 32-byte output size (through digest::Digest::digest):
/// the unkeyed BLAKE2b digest of that length.
#[verifier::external_body]
fn blake2b_of(data: &[u8]) -> (r: Vec<u8>)
    ensures
        r@ == blake2b_digest(data@),
        r@.len() == 32,
{
    blake2::Blake2b::<blake2::digest::consts::U32>::digest(data).to_vec()
}

/// The length of the full digest of a hash family.
pub open spec fn max_strong_len(kind: SignatureType) -> nat {
    match kind {
        SignatureType::MD4 => 16,
        SignatureType::Blake2 => 32,
    }
}

/// The full digest of `data` in the given family.
pub open spec fn strong_digest(kind: SignatureType, data: Seq<u8>) -> Seq<u8> {
    match kind {
        SignatureType::MD4 => md4_digest(data),
        SignatureType::Blake2 => blake2b_digest(data),
    }
}

/// The strong sum of a block: the first `strong_len` bytes of its digest.
pub open spec fn strong_sum(kind: SignatureType, data: Seq<u8>, strong_len: nat) -> Seq<u8> {
    Seq::new(strong_len, |i: int| strong_digest(kind, data)[i])
}

impl SignatureType {
    /// The length of this family's full digest.
    pub fn max_strong_len(&self) -> (r: usize)
        ensures
            r == max_strong_len(*self),
    {
        match self {
            SignatureType::MD4 => 16,
            SignatureType::Blake2 => 32,
        }
    }
}

/// The full digest of `data` in the given family.
pub fn digest_of(kind: SignatureType, data: &[u8]) -> (r: Vec<u8>)
    ensures
        r@ == strong_digest(kind, data@),
        r@.len() == max_strong_len(kind),
{
    match kind {
        SignatureType::MD4 => md4_of(data),
        SignatureType::Blake2 => blake2b_of(data),
    }
}

/// The strong sum that a digest gives: its first `strong_len` bytes.
pub fn truncate_digest(digest: &[u8], strong_len: usize) -> (r: Vec<u8>)
    requires
        strong_len <= digest@.len(),
    ensures
        r@ == digest@.take(strong_len as int),
{
    let mut r: Vec<u8> = Vec::new();
    let mut i: usize = 0;
    while i < strong_len
        invariant
            i <= strong_len <= digest@.len(),
            r@ == digest@.take(i as int),
        decreases strong_len - i,
    {
        r.push(digest[i]);
        i += 1;
        assert(r@ =~= digest@.take(i as int));
    }
    r
}

/// Whether a stored strong sum is the strong sum, of length `strong_len`,
/// that a digest gives.
pub fn strong_sum_matches(stored: &[u8], strong_len: usize, digest: &[u8]) -> (r: bool)
    requires
        strong_len <= digest@.len(),
    ensures
        r == (stored@ == digest@.take(strong_len as int)),
{
    if stored.len() != strong_len {
        return false;
    }
    let mut i: usize = 0;
    while i < strong_len
        invariant
            i <= strong_len <= digest@.len(),
            stored@.len() == strong_len,
            forall|k: int| 0 <= k < i ==> stored@[k] == digest@[k],
        decreases strong_len - i,
    {
        if stored[i] != digest[i] {
            assert(stored@[i as int] != digest@.take(strong_len as int)[i as int]);
            return false;
        }
        i += 1;
    }
    assert(stored@ =~= digest@.take(strong_len as int));
    true
}

/// The strong sum of `data`: the digest of the chosen family, cut to `strong_len` bytes.
pub fn strong_checksum(kind: SignatureType, data: &[u8], strong_len: usize) -> (r: Vec<u8>)
    requires
        strong_len <= max_strong_len(kind),
    ensures
        r@ == strong_sum(kind, data@, strong_len as nat),
        r@.len() == strong_len,
{
    let d = digest_of(kind, data);
    let r = truncate_digest(d.as_slice(), strong_len);
    assert(r@ =~= strong_sum(kind, data@, strong_len as nat));
    r
}

} // verus!
