//! Trusted items: the calls this library makes into outside crates and std.
//!
//! Each item below is believed by the verifier without proof. Its doc comment
//! names the outside function and says what the contract claims of it.

use vstd::prelude::*;
use sha2::Digest;
use ed25519_dalek::Signer;
use crate::types::varint;
use crate::input::hex_decoded;
use crate::storage::index_views;

verus! {

/// What SHA-256 computes on a byte string (FIPS 180-4). Only its length is
/// stated beside it; the digest itself is not modelled.
pub uninterp spec fn sha256_digest(data: Seq<u8>) -> Seq<u8>;

/// Calls `sha2::Sha256::digest` on `data`.
/// Claimed: the 32 bytes returned are `sha256_digest(data)`.
#[verifier::external_body]
pub(crate) fn sha256(data: &[u8]) -> (out: [u8; 32])
    ensures
        out@ == sha256_digest(data@),
{
    sha2::Sha256::digest(data).into()
}


/// Calls `postcard::to_stdvec` on the tuple of a header's six fields.
/// Claimed: postcard writes the fields in order, a `[u8; 32]` as its 32 raw
/// bytes, a `u64`/`u32` as its unsigned varint, and an `i8` as its single
/// two's-complement byte (postcard 1.x `ser/serializer.rs`, `varint.rs`);
/// serialising into a growable `Vec` does not fail.
#[verifier::external_body]
pub(crate) fn encode_header_fields(
    previous_hash: [u8; 32],
    timestamp: u64,
    miner_address: [u8; 32],
    difficulty_vote: i8,
    payload_count: u32,
    merkle_root: [u8; 32],
) -> (out: Vec<u8>)
    ensures
        out@ == previous_hash@ + varint(timestamp as nat) + miner_address@ + seq![difficulty_vote as u8]
            + varint(payload_count as nat) + merkle_root@,
{
    let fields = (previous_hash, timestamp, miner_address, difficulty_vote, payload_count, merkle_root);
    match postcard::to_stdvec(&fields) {
        Ok(bytes) => bytes,
        Err(_) => Vec::new(),
    }
}

/// What scrypt (RFC 7914) derives from a password and salt with cost
/// `2^log_n`, block size `r`, parallelism `p`, as 32 output bytes.
pub uninterp spec fn scrypt_digest(password: Seq<u8>, salt: Seq<u8>, log_n: u8, r: u32, p: u32) -> Seq<u8>;

/// Calls `scrypt::Params::new(log_n, r, p, 32)` and `scrypt::scrypt` into a
/// 32-byte buffer. Claimed: the buffer then holds
/// `scrypt_digest(password, salt, log_n, r, p)`. The `requires` keeps to the
/// parameters this library uses, for which `Params::new` accepts and
/// `scrypt` (output length 32) returns `Ok`.
#[verifier::external_body]
pub(crate) fn scrypt_32(password: &[u8], salt: &[u8], log_n: u8, r: u32, p: u32) -> (out: [u8; 32])
    requires
        log_n == 15,
        r == 8,
        p == 1,
    ensures
        out@ == scrypt_digest(password@, salt@, log_n, r, p),
{
    let mut output = [0u8; 32];
    if let Ok(params) = scrypt::Params::new(log_n, r, p, 32) {
        let _ = scrypt::scrypt(password, salt, &params, &mut output);
    }
    output
}


/// `std::time::SystemTime`, carried through opaquely.
#[verifier::external_type_specification]
#[verifier::external_body]
pub struct ExSystemTime(std::time::SystemTime);

/// `std::time::SystemTimeError`, carried through opaquely.
#[verifier::external_type_specification]
#[verifier::external_body]
pub struct ExSystemTimeError(std::time::SystemTimeError);

/// Calls `std::time::SystemTime::now()`. Nothing is claimed: it is the clock.
#[verifier::external_body]
pub(crate) fn system_time_now() -> (t: std::time::SystemTime) {
    std::time::SystemTime::now()
}

/// Calls `t.duration_since(std::time::UNIX_EPOCH)`, which fails for a time
/// before the epoch. Nothing is claimed of the duration.
#[verifier::external_body]
pub(crate) fn since_unix_epoch(t: &std::time::SystemTime) -> (r: Result<
    core::time::Duration,
    std::time::SystemTimeError,
>) {
    t.duration_since(std::time::UNIX_EPOCH)
}

/// Calls `core::time::Duration::as_secs`. Nothing is claimed: a duration is
/// opaque here.
#[verifier::external_body]
pub(crate) fn duration_secs(d: &core::time::Duration) -> (secs: u64) {
    d.as_secs()
}

/// The Ed25519 public key (RFC 8032) that a 32-byte secret key derives.
pub uninterp spec fn ed25519_public_key(secret: Seq<u8>) -> Seq<u8>;

/// The Ed25519 signature (RFC 8032, deterministic) of `msg` under a 32-byte secret key.
pub uninterp spec fn ed25519_signature(secret: Seq<u8>, msg: Seq<u8>) -> Seq<u8>;

/// Whether `VerifyingKey::from_bytes(public)` decodes and `verify_strict`
/// accepts `sig` over `msg` under it.
pub uninterp spec fn ed25519_verifies_strict(public: Seq<u8>, msg: Seq<u8>, sig: Seq<u8>) -> bool;

/// Calls `ed25519_dalek::SigningKey::generate` with `rand::rngs::OsRng`,
/// returning `(verifying_key().to_bytes(), to_bytes())`. Claimed: the first
/// is the public key of the second. The secret itself is random.
#[verifier::external_body]
pub(crate) fn ed25519_generate() -> (keys: ([u8; 32], [u8; 32]))
    ensures
        keys.0@ == ed25519_public_key(keys.1@),
{
    let signing_key = ed25519_dalek::SigningKey::generate(&mut rand::rngs::OsRng);
    (signing_key.verifying_key().to_bytes(), signing_key.to_bytes())
}

/// Calls `ed25519_dalek::SigningKey::from_bytes(secret).verifying_key().to_bytes()`.
/// Claimed: the result is `ed25519_public_key(secret)`.
#[verifier::external_body]
pub(crate) fn ed25519_public(secret: &[u8; 32]) -> (public: [u8; 32])
    ensures
        public@ == ed25519_public_key(secret@),
{
    ed25519_dalek::SigningKey::from_bytes(secret).verifying_key().to_bytes()
}

/// Calls `ed25519_dalek::SigningKey::from_bytes(secret)`, then
/// `Signer::sign(msg)` and `Signature::to_bytes`. Claimed: the result is
/// `ed25519_signature(secret, msg)`.
#[verifier::external_body]
pub(crate) fn ed25519_sign(secret: &[u8; 32], msg: &[u8]) -> (sig: [u8; 64])
    ensures
        sig@ == ed25519_signature(secret@, msg@),
{
    ed25519_dalek::SigningKey::from_bytes(secret).sign(msg).to_bytes()
}

/// Calls `ed25519_dalek::VerifyingKey::from_bytes(public)` and
/// `Signature::from_slice(sig)` (false on either error), then
/// `verify_strict(msg, ..).is_ok()`. Claimed: the result is
/// `ed25519_verifies_strict(public, msg, sig)`.
#[verifier::external_body]
pub(crate) fn ed25519_verify(public: &[u8; 32], msg: &[u8], sig: &[u8; 64]) -> (ok: bool)
    ensures
        ok == ed25519_verifies_strict(public@, msg@, sig@),
{
    let key = match ed25519_dalek::VerifyingKey::from_bytes(public) {
        Ok(k) => k,
        Err(_) => return false,
    };
    let signature = match ed25519_dalek::Signature::from_slice(sig) {
        Ok(s) => s,
        Err(_) => return false,
    };
    key.verify_strict(msg, &signature).is_ok()
}

/// `hex::FromHexError`, carried through opaquely.
#[verifier::external_type_specification]
#[verifier::external_body]
pub struct ExFromHexError(hex::FromHexError);

/// Calls `hex::decode` on `text`. Claimed, as its source (`FromHex for
/// Vec<u8>` and `val` in hex 0.4) shows: an error for an odd length or for a
/// byte outside `0-9`, `a-f`, `A-F`; otherwise each pair of digits, high
/// digit first, gives one byte.
#[verifier::external_body]
pub(crate) fn hex_decode(text: &[u8]) -> (r: Result<Vec<u8>, hex::FromHexError>)
    ensures
        r matches Ok(v) ==> hex_decoded(text@) == Some(v@),
        r is Err ==> hex_decoded(text@) is None,
{
    hex::decode(text)
}

/// What postcard decodes from `bytes` as a list of `(hash, (height, offset))`
/// pairs, in the order the bytes hold them; `None` when they do not decode.
pub uninterp spec fn index_entries(bytes: Seq<u8>) -> Option<Seq<(Seq<u8>, u64, u64)>>;

/// The bytes postcard writes for a list of `(hash, (height, offset))` pairs.
pub uninterp spec fn index_encoding(entries: Seq<(Seq<u8>, u64, u64)>) -> Seq<u8>;

/// Calls `postcard::from_bytes::<Vec<([u8; 32], (u64, u64))>>` on `bytes`.
/// Postcard writes a map and a list alike (a varint count, then the items
/// in order), so this reads a hash-to-(height, offset) map pair by pair.
/// Claimed: the result is `index_entries(bytes)`.
#[verifier::external_body]
pub(crate) fn decode_index(bytes: &[u8]) -> (r: Option<Vec<([u8; 32], (u64, u64))>>)
    ensures
        r matches Some(v) ==> index_entries(bytes@) == Some(index_views(v@)),
        r is None ==> index_entries(bytes@) is None,
{
    postcard::from_bytes::<Vec<([u8; 32], (u64, u64))>>(bytes).ok()
}

/// Calls `postcard::to_stdvec` on a list of `(hash, (height, offset))`
/// pairs, which writes the same bytes as a map holding those pairs in that
/// order; serialising into a growable `Vec` does not fail. Claimed: the
/// result is `index_encoding(entries)`.
#[verifier::external_body]
pub(crate) fn encode_index(entries: &Vec<([u8; 32], (u64, u64))>) -> (out: Vec<u8>)
    ensures
        out@ == index_encoding(index_views(entries@)),
{
    match postcard::to_stdvec(entries) {
        Ok(bytes) => bytes,
        Err(_) => Vec::new(),
    }
}

} // verus!
