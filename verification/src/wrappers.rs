//! The library's only trusted boundary: thin wrappers around the outside
//! cryptography and randomness that the wallet relies on. Everything else in
//! the crate is verified against the names declared here.

use vstd::prelude::*;

use blake2::Blake2b256;
use blake2::Blake2b512;
use blake2::digest::Digest;
use rand::RngCore;
use rand::rngs::OsRng;
use tari_crypto::commitment::HomomorphicCommitmentFactory;
use tari_crypto::keys::SecretKey;
use tari_crypto::ristretto::RistrettoSecretKey;
use tari_crypto::ristretto::pedersen::commitment_factory::PedersenCommitmentFactory;
use tari_utilities::ByteArray;

verus! {

/// The 32-byte BLAKE2b digest of a byte string.
pub uninterp spec fn blake256_of(data: Seq<u8>) -> Seq<u8>;

/// The 64-byte BLAKE2b digest of a byte string.
pub uninterp spec fn blake512_of(data: Seq<u8>) -> Seq<u8>;

/// The canonical encoding of the Ristretto scalar obtained by wide reduction
/// of 64 uniform bytes.
pub uninterp spec fn wide_scalar_of(bytes: Seq<u8>) -> Seq<u8>;

/// Whether 32 bytes are the canonical encoding of a Ristretto scalar.
pub uninterp spec fn canonical_scalar(bytes: Seq<u8>) -> bool;

/// The Pedersen commitment to `value` with blinding key `key`.
pub uninterp spec fn commit_of(key: Seq<u8>, value: u64) -> Seq<u8>;

/// A fresh 64-bit value drawn from the operating system's entropy source.
/// Relies on rand's `OsRng::next_u64`; nothing can be promised of the result.
#[verifier::external_body]
pub fn random_u64() -> u64 {
    OsRng.next_u64()
}

/// 64 fresh bytes drawn from the operating system's entropy source.
/// Relies on rand's `OsRng::fill_bytes`; nothing can be promised of the result.
#[verifier::external_body]
pub fn random_bytes_64() -> [u8; 64] {
    let mut b = [0u8; 64];
    OsRng.fill_bytes(&mut b);
    b
}

/// Relies on blake2's `Blake2b256` (through the `Digest` trait): a 32-byte
/// digest that depends on the input bytes alone.
#[verifier::external_body]
pub fn blake2b_256(data: &[u8]) -> (r: [u8; 32])
    ensures
        r@ == blake256_of(data@),
{
    Blake2b256::digest(data).into()
}

/// Relies on blake2's `Blake2b512` (through the `Digest` trait): a 64-byte
/// digest that depends on the input bytes alone.
#[verifier::external_body]
pub fn blake2b_512(data: &[u8]) -> (r: [u8; 64])
    ensures
        r@ == blake512_of(data@),
{
    Blake2b512::digest(data).into()
}

/// Relies on tari_crypto's `RistrettoSecretKey::from_uniform_bytes`: exactly
/// 64 bytes are always accepted, and the wide-reduced scalar's canonical
/// encoding depends on those bytes alone.
#[verifier::external_body]
pub fn scalar_from_wide_bytes(bytes: &[u8; 64]) -> (r: [u8; 32])
    ensures
        r@ == wide_scalar_of(bytes@),
        canonical_scalar(r@),
{
    let k = RistrettoSecretKey::from_uniform_bytes(bytes.as_slice()).expect("64 bytes");
    let mut out = [0u8; 32];
    out.copy_from_slice(k.as_bytes());
    out
}

/// Relies on tari_crypto's `RistrettoSecretKey::from_canonical_bytes` (which
/// accepts exactly the canonical scalar encodings) and
/// `PedersenCommitmentFactory::commit_value`, whose 32-byte compressed point
/// depends on the key and value alone.
#[verifier::external_body]
pub fn pedersen_commit(key: &[u8; 32], value: u64) -> (r: Option<[u8; 32]>)
    ensures
        r is Some <==> canonical_scalar(key@),
        r matches Some(c) ==> c@ == commit_of(key@, value),
{
    let k = match RistrettoSecretKey::from_canonical_bytes(key.as_slice()) {
        Ok(k) => k,
        Err(_) => {
            return None;
        },
    };
    let factory = PedersenCommitmentFactory::default();
    let mut out = [0u8; 32];
    out.copy_from_slice(factory.commit_value(&k, value).as_bytes());
    Some(out)
}

} // verus!
