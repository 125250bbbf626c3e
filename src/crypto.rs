//! Hashing and key derivation, from the chain's own cryptography crates.
use vstd::prelude::*;

use near_crypto::{KeyType, SecretKey};

use crate::types::CryptoHash;

verus! {

/// The SHA-256 digest of a byte string.
pub uninterp spec fn sha256_of(data: Seq<u8>) -> Seq<u8>;

/// The ED25519 public key of the key pair derived from a seed string.
pub uninterp spec fn ed25519_public_key_of(seed: Seq<char>) -> Seq<u8>;

/// Relies on `near_primitives::hash::hash`: the SHA-256 digest of the bytes.
#[verifier::external_body]
pub(crate) fn hash_bytes(data: &[u8]) -> (r: CryptoHash)
    ensures
        r@ == sha256_of(data@),
{
    near_primitives::hash::hash(data).0
}

/// Relies on `near_crypto::SecretKey::from_seed` with `KeyType::ED25519`,
/// then `public_key` and `key_data`: the 32 bytes of the public key that the
/// seed determines.
#[verifier::external_body]
pub(crate) fn public_key_from_seed(seed: &str) -> (r: Vec<u8>)
    ensures
        r@ == ed25519_public_key_of(seed@),
        r@.len() == 32,
{
    SecretKey::from_seed(KeyType::ED25519, seed).public_key().key_data().to_vec()
}

} // verus!
