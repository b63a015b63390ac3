//! The hash function that joins two digests into their parent.
use vstd::prelude::*;
use crate::bits::{all_bits, encode_spec, lemma_encode_is_bits};
use p3_sha256::Sha256;
use p3_symmetric::CryptographicHasher;

verus! {

/// The SHA-256 digest of a byte sequence.
pub uninterp spec fn sha256_of(data: Seq<u8>) -> [u8; 32];

/// Relies on `p3_sha256::Sha256::hash_iter` (the `CryptographicHasher<u8, [u8; 32]>`
/// impl): it feeds every byte to SHA-256 and returns the 32-byte digest, which
/// depends on the bytes alone.
#[verifier::external_body]
pub(crate) fn sha256(data: &Vec<u8>) -> (r: [u8; 32])
    ensures
        r == sha256_of(data@),
{
    Sha256.hash_iter(data.iter().copied())
}

/// The bit decomposition of the digest of any 64-byte input (two joined
/// digests) has 256 scalars, each of them 0 or 1.
pub proof fn lemma_hash_encoding_is_bits(data: Seq<u8>)
    requires
        data.len() == 64,
    ensures
        encode_spec(sha256_of(data)@).len() == 256,
        all_bits(encode_spec(sha256_of(data)@)),
{
    lemma_encode_is_bits(sha256_of(data)@);
}

} // verus!
