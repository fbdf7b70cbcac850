//! Ed25519 keys: generation, loading, and block signing and verification.

use vstd::prelude::*;
use crate::types::Address;
use crate::outside::{
    ed25519_generate, ed25519_public, ed25519_sign, ed25519_verify, ed25519_public_key,
    ed25519_signature, ed25519_verifies_strict,
};

verus! {

/// A miner's key pair: the public key (its address) and the secret key.
pub struct KeyPair {
    pub public: Address,
    pub secret: [u8; 32],
}

/// A fresh random key pair.
pub fn generate_keypair() -> (k: KeyPair)
    ensures
        k.public@ == ed25519_public_key(k.secret@),
{
    let (public, secret) = ed25519_generate();
    KeyPair { public, secret }
}

/// The address of a public key is the key itself.
pub fn address_from_public_key(public_key: &[u8; 32]) -> (a: Address)
    ensures
        a == *public_key,
{
    *public_key
}

/// The key pair of a 32-byte secret key; every 32-byte string is a secret key.
pub fn load_keypair(secret_bytes: &[u8; 32]) -> (r: Option<KeyPair>)
    ensures
        r matches Some(k) && k.secret == *secret_bytes && k.public@ == ed25519_public_key(
            secret_bytes@,
        ),
{
    let public = ed25519_public(secret_bytes);
    Some(KeyPair { public, secret: *secret_bytes })
}

/// The miner's Ed25519 signature over a block hash.
pub fn sign_block(secret: &[u8; 32], block_hash: &[u8; 32]) -> (sig: [u8; 64])
    ensures
        sig@ == ed25519_signature(secret@, block_hash@),
{
    ed25519_sign(secret, block_hash.as_slice())
}

/// Whether `signature` is a strictly valid Ed25519 signature over
/// `block_hash` under the public key `public`; a public key that does not
/// decode gives `false`.
pub fn verify_block_signature(public: &Address, block_hash: &[u8; 32], signature: &[u8; 64]) -> (ok: bool)
    ensures
        ok == ed25519_verifies_strict(public@, block_hash@, signature@),
{
    ed25519_verify(public, block_hash.as_slice(), signature)
}

} // verus!
