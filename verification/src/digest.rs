//! BLAKE3 digests of file contents.

use vstd::prelude::*;

verus! {

/// The thirty-two bytes of a BLAKE3 digest.
pub type FileHash = [u8; 32];

/// The `Hasher` of the `blake3` crate: it takes its input piece by piece.
#[verifier::external_type_specification]
#[verifier::external_body]
pub struct ExHasher(blake3::Hasher);

/// The BLAKE3 digest of `data`.
pub uninterp spec fn blake3_digest(data: Seq<u8>) -> Seq<u8>;

/// The bytes that a hasher has taken in.
pub uninterp spec fn hasher_input(h: blake3::Hasher) -> Seq<u8>;

/// Whether a hasher comes from `Hasher::new`: without a key, and from the
/// start of its input.
pub uninterp spec fn hasher_is_plain(h: blake3::Hasher) -> bool;

/// Trusted: `blake3::hash`, the digest of `data` at one go.
#[verifier::external_body]
pub(crate) fn digest_of(data: &[u8]) -> (hash: FileHash)
    ensures
        hash@ == blake3_digest(data@),
{
    *blake3::hash(data).as_bytes()
}

/// Trusted: `Hasher::new` starts with no input.
pub assume_specification[ blake3::Hasher::new ]() -> (h: blake3::Hasher)
    ensures
        hasher_is_plain(h),
        hasher_input(h) == Seq::<u8>::empty(),
;

/// Trusted: `Hasher::update` takes in `data` behind what came before. The
/// hasher counts its input in a `u64`.
#[verifier::external_body]
pub(crate) fn hasher_update(h: &mut blake3::Hasher, data: &[u8])
    requires
        hasher_is_plain(*old(h)),
        hasher_input(*old(h)).len() + data@.len() <= u64::MAX,
    ensures
        hasher_is_plain(*final(h)),
        hasher_input(*final(h)) == hasher_input(*old(h)) + data@,
{
    h.update(data);
}

/// Trusted: `Hasher::finalize` gives the digest of all the input taken in,
/// the one that `blake3::hash` gives of it at one go.
#[verifier::external_body]
pub(crate) fn hasher_finalize(h: &blake3::Hasher) -> (hash: FileHash)
    requires
        hasher_is_plain(*h),
    ensures
        hash@ == blake3_digest(hasher_input(*h)),
{
    *h.finalize().as_bytes()
}

/// Trusted: `==` on two `blake3::Hash` values, made of `a` and `b` with
/// `Hash::from_bytes`, compares their bytes.
#[verifier::external_body]
pub(crate) fn same_digest(a: &FileHash, b: &FileHash) -> (same: bool)
    ensures
        same == (a@ == b@),
{
    blake3::Hash::from_bytes(*a) == blake3::Hash::from_bytes(*b)
}

} // verus!
