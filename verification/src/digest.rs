//! The two digests that tell chunks and files apart.

use vstd::prelude::*;

verus! {

/// The BLAKE3 digest of `data`, as `blake3::hash` computes it.
pub uninterp spec fn blake3_digest(data: Seq<u8>) -> Seq<u8>;

/// The SHA-256 digest of `data`, as `sha2::Sha256` computes it.
pub uninterp spec fn sha256_digest(data: Seq<u8>) -> Seq<u8>;

/// The bytes that a `blake3::Hasher` has taken in so far.
pub uninterp spec fn hasher_input(hasher: blake3::Hasher) -> Seq<u8>;

#[verifier::external_type_specification]
#[verifier::external_body]
pub struct ExHasher(blake3::Hasher);

/// `blake3::hash`: the digest is a function of the data alone.
#[verifier::external_body]
pub(crate) fn blake3_hash(data: &[u8]) -> (digest: [u8; 32])
    ensures
        digest@ == blake3_digest(data@),
{
    *blake3::hash(data).as_bytes()
}

/// `sha2::Sha256::digest`: the digest is a function of the data alone.
#[verifier::external_body]
pub(crate) fn sha256_hash(data: &[u8]) -> (digest: [u8; 32])
    ensures
        digest@ == sha256_digest(data@),
{
    <sha2::Sha256 as sha2::Digest>::digest(data).into()
}

/// `blake3::Hasher::new`: nothing has been taken in yet.
#[verifier::external_body]
pub(crate) fn hasher_new() -> (hasher: blake3::Hasher)
    ensures
        hasher_input(hasher) == Seq::<u8>::empty(),
{
    blake3::Hasher::new()
}

/// `blake3::Hasher::update`: the data joins what was taken in before.
#[verifier::external_body]
pub(crate) fn hasher_update(hasher: &mut blake3::Hasher, data: &[u8])
    ensures
        hasher_input(*final(hasher)) == hasher_input(*old(hasher)) + data@,
{
    hasher.update(data);
}

/// `blake3::Hasher::finalize`: the digest is that of all that was taken in, as `blake3::hash`
/// gives it for the same bytes at once.
#[verifier::external_body]
pub(crate) fn hasher_finalize(hasher: &blake3::Hasher) -> (digest: [u8; 32])
    ensures
        digest@ == blake3_digest(hasher_input(*hasher)),
{
    *hasher.finalize().as_bytes()
}

} // verus!
