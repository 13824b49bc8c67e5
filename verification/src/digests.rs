//! The digests and checksums that come from the hashing crates.

use vstd::prelude::*;

verus! {

/// The hasher of the `md-5` crate.
#[verifier::external_type_specification]
#[verifier::external_body]
pub struct ExMd5(md5::Md5);

/// The hasher of the `sha2` crate.
#[verifier::external_type_specification]
#[verifier::external_body]
pub struct ExSha256(sha2::Sha256);

/// The hasher of the `crc32fast` crate.
#[verifier::external_type_specification]
#[verifier::external_body]
pub struct ExCrc32Hasher(crc32fast::Hasher);

/// The MD5 digest of a byte sequence.
pub uninterp spec fn md5_digest(data: Seq<u8>) -> Seq<u8>;

/// The SHA-256 digest of a byte sequence.
pub uninterp spec fn sha256_digest(data: Seq<u8>) -> Seq<u8>;

/// The CRC-32 checksum (IEEE polynomial) of a byte sequence.
pub uninterp spec fn crc32_checksum(data: Seq<u8>) -> u32;

/// The bytes that an MD5 hasher has taken in.
pub uninterp spec fn md5_fed(hasher: md5::Md5) -> Seq<u8>;

/// The bytes that a SHA-256 hasher has taken in.
pub uninterp spec fn sha256_fed(hasher: sha2::Sha256) -> Seq<u8>;

/// The bytes that a CRC-32 hasher has taken in.
pub uninterp spec fn crc32_fed(hasher: crc32fast::Hasher) -> Seq<u8>;

/// Calls `md5::Md5::new`: a hasher that has taken in nothing.
#[verifier::external_body]
pub(crate) fn md5_new() -> (hasher: md5::Md5)
    ensures
        md5_fed(hasher) == Seq::<u8>::empty(),
{
    <md5::Md5 as md5::Digest>::new()
}

/// Calls `md5::Md5::update`: the hasher takes in the bytes after those it
/// already has.
#[verifier::external_body]
pub(crate) fn md5_update(hasher: &mut md5::Md5, data: &[u8])
    ensures
        md5_fed(*final(hasher)) == md5_fed(*old(hasher)) + data@,
{
    md5::Digest::update(hasher, data)
}

/// Calls `md5::Md5::finalize`: the sixteen bytes of the digest of all that the
/// hasher has taken in, however it was split.
#[verifier::external_body]
pub(crate) fn md5_finalize(hasher: md5::Md5) -> (digest: [u8; 16])
    ensures
        digest@ == md5_digest(md5_fed(hasher)),
{
    let mut digest = [0u8; 16];
    digest.copy_from_slice(&md5::Digest::finalize(hasher));
    digest
}

/// Calls `sha2::Sha256::new`: a hasher that has taken in nothing.
#[verifier::external_body]
pub(crate) fn sha256_new() -> (hasher: sha2::Sha256)
    ensures
        sha256_fed(hasher) == Seq::<u8>::empty(),
{
    <sha2::Sha256 as sha2::Digest>::new()
}

/// Calls `sha2::Sha256::update`: the hasher takes in the bytes after those it
/// already has. The crate counts the length in bits in a `u64`.
#[verifier::external_body]
pub(crate) fn sha256_update(hasher: &mut sha2::Sha256, data: &[u8])
    requires
        8 * (sha256_fed(*old(hasher)).len() + data@.len()) <= u64::MAX,
    ensures
        sha256_fed(*final(hasher)) == sha256_fed(*old(hasher)) + data@,
{
    sha2::Digest::update(hasher, data)
}

/// Calls `sha2::Sha256::finalize`: the thirty-two bytes of the digest of all
/// that the hasher has taken in, however it was split.
#[verifier::external_body]
pub(crate) fn sha256_finalize(hasher: sha2::Sha256) -> (digest: [u8; 32])
    ensures
        digest@ == sha256_digest(sha256_fed(hasher)),
{
    let mut digest = [0u8; 32];
    digest.copy_from_slice(&sha2::Digest::finalize(hasher));
    digest
}

/// `crc32fast::hash` computes the checksum of the whole slice.
pub assume_specification[ crc32fast::hash ](buf: &[u8]) -> (checksum: u32)
    ensures
        checksum == crc32_checksum(buf@),
;

/// `crc32fast::Hasher::new` gives a hasher that has taken in nothing.
pub assume_specification[ crc32fast::Hasher::new ]() -> (hasher: crc32fast::Hasher)
    ensures
        crc32_fed(hasher) == Seq::<u8>::empty(),
;

/// `crc32fast::Hasher::update` takes in the bytes after those the hasher
/// already has. The crate counts the bytes in a `u64`.
pub assume_specification[ crc32fast::Hasher::update ](
    hasher: &mut crc32fast::Hasher,
    buf: &[u8],
)
    requires
        crc32_fed(*old(hasher)).len() + buf@.len() <= u64::MAX,
    ensures
        crc32_fed(*final(hasher)) == crc32_fed(*old(hasher)) + buf@,
;

/// `crc32fast::Hasher::finalize` gives the checksum of all that the hasher has
/// taken in, however it was split.
pub assume_specification[ crc32fast::Hasher::finalize ](hasher: crc32fast::Hasher) -> (checksum:
    u32)
    ensures
        checksum == crc32_checksum(crc32_fed(hasher)),
;

/// Cloning a `crc32fast::Hasher` keeps what it has taken in.
pub assume_specification[ <crc32fast::Hasher as Clone>::clone ](hasher: &crc32fast::Hasher) -> (copy:
    crc32fast::Hasher)
    ensures
        crc32_fed(copy) == crc32_fed(*hasher),
;

} // verus!
