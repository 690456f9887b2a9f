//! Hashes and signatures, computed by the `rns_crypto` crate.

use vstd::prelude::*;

verus! {

/// The SHA-256 digest of a byte string, as `rns_crypto::sha256::sha256` computes it.
pub uninterp spec fn digest(data: Seq<u8>) -> Seq<u8>;

/// The first half of a digest, which names destinations, identities and tickets.
pub open spec fn short_digest(data: Seq<u8>) -> Seq<u8> {
    digest(data).take(16)
}

/// The Ed25519 signature of a message under a 32-byte signing key.
pub uninterp spec fn signature(signing_key: Seq<u8>, message: Seq<u8>) -> Seq<u8>;

/// The public key that belongs to a 32-byte signing key.
pub uninterp spec fn public_key(signing_key: Seq<u8>) -> Seq<u8>;

/// Whether a signature of a message verifies under a public key.
pub uninterp spec fn verifies(public_key: Seq<u8>, signature: Seq<u8>, message: Seq<u8>) -> bool;

/// `rns_crypto::sha256::sha256`.
#[verifier::external_body]
fn outside_sha256(data: &[u8]) -> (h: [u8; 32])
    ensures
        h@ == digest(data@),
{
    rns_crypto::sha256::sha256(data)
}

/// `rns_crypto::ed25519::Ed25519PrivateKey::sign` under the key with these bytes.
/// Its signatures verify under the matching public key.
#[verifier::external_body]
fn outside_sign(signing_key: &[u8; 32], message: &[u8]) -> (s: [u8; 64])
    ensures
        s@ == signature(signing_key@, message@),
        verifies(public_key(signing_key@), s@, message@),
{
    rns_crypto::ed25519::Ed25519PrivateKey::from_bytes(signing_key).sign(message)
}

/// `rns_crypto::ed25519::Ed25519PrivateKey::public_key` of the key with these bytes.
#[verifier::external_body]
fn outside_public_key(signing_key: &[u8; 32]) -> (p: [u8; 32])
    ensures
        p@ == public_key(signing_key@),
{
    rns_crypto::ed25519::Ed25519PrivateKey::from_bytes(signing_key).public_key().public_bytes()
}

/// `rns_crypto::ed25519::Ed25519PublicKey::verify` under the key with these bytes;
/// bytes that are no key verify nothing.
#[verifier::external_body]
fn outside_verify(public_key: &[u8; 32], signature: &[u8; 64], message: &[u8]) -> (ok: bool)
    ensures
        ok == verifies(public_key@, signature@, message@),
{
    match rns_crypto::ed25519::Ed25519PublicKey::from_bytes(public_key) {
        Ok(key) => key.verify(signature, message),
        Err(_) => false,
    }
}

/// The SHA-256 digest of a byte string.
pub fn full_hash(data: &[u8]) -> (h: [u8; 32])
    ensures
        h@ == digest(data@),
        digest(data@).len() == 32,
{
    outside_sha256(data)
}

/// The first half of the SHA-256 digest of a byte string.
pub fn truncated_hash(data: &[u8]) -> (h: [u8; 16])
    ensures
        h@ == short_digest(data@),
        digest(data@).len() == 32,
{
    let full = outside_sha256(data);
    let mut out = [0u8;16];
    let mut i: usize = 0;
    while i < 16
        invariant
            i <= 16,
            full@ == digest(data@),
            forall|j: int| 0 <= j < i ==> out@[j] == full@[j],
        decreases 16 - i,
    {
        out[i] = full[i];
        i = i + 1;
    }
    assert(out@ =~= short_digest(data@));
    out
}

/// Signs a message.
pub fn sign(signing_key: &[u8; 32], message: &[u8]) -> (s: [u8; 64])
    ensures
        s@ == signature(signing_key@, message@),
        verifies(public_key(signing_key@), s@, message@),
{
    outside_sign(signing_key, message)
}

/// The public key that verifies what `signing_key` signs.
pub fn verifying_key(signing_key: &[u8; 32]) -> (p: [u8; 32])
    ensures
        p@ == public_key(signing_key@),
{
    outside_public_key(signing_key)
}

/// Whether a signature verifies.
pub fn verify(public_key: &[u8; 32], signature: &[u8; 64], message: &[u8]) -> (ok: bool)
    ensures
        ok == verifies(public_key@, signature@, message@),
{
    outside_verify(public_key, signature, message)
}

} // verus!
