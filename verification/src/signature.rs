//! ECDSA over secp256k1, as the `secp256k1` crate provides it. Keys, digests
//! and signatures cross this boundary as plain bytes.

use secp256k1::ecdsa::Signature;
use secp256k1::rand::rngs::OsRng;
use secp256k1::{Message, PublicKey, Secp256k1, SecretKey};
use vstd::prelude::*;

verus! {

/// Whether `SecretKey::from_slice` accepts these bytes as a secret key.
pub uninterp spec fn secret_key_accepted(secret: Seq<u8>) -> bool;

/// The compressed serialisation of the public key that
/// `PublicKey::from_secret_key` derives from a secret key.
pub uninterp spec fn public_key_of(secret: Seq<u8>) -> Seq<u8>;

/// The DER bytes of the signature that `sign_ecdsa` makes for a 32-byte
/// digest under a secret key. The nonce is derived from both by RFC 6979, so
/// the signature is a function of the two.
pub uninterp spec fn ecdsa_signature(digest: Seq<u8>, secret: Seq<u8>) -> Seq<u8>;

/// Whether `verify_ecdsa` accepts a DER signature for a digest under a
/// serialised public key. A digest that is not 32 bytes long, a signature that
/// is not DER and a key that does not parse are not accepted.
pub uninterp spec fn ecdsa_accepts(
    digest: Seq<u8>,
    signature: Seq<u8>,
    public_key: Seq<u8>,
) -> bool;

#[verifier::external_type_specification]
#[verifier::external_body]
pub struct ExSecpError(secp256k1::Error);

/// Calls `Message::from_digest_slice`, `SecretKey::from_slice`, `sign_ecdsa`
/// and `serialize_der`.
///
/// Trusted: the call succeeds exactly when the digest has 32 bytes and the
/// secret key is accepted; the signature is the deterministic one; and, as the
/// crate documents for a key pair, `verify_ecdsa` accepts that signature for
/// the same digest under the public key derived from the secret key.
#[verifier::external_body]
pub(crate) fn sign_digest(digest: &[u8], secret: &[u8]) -> (outcome: Result<Vec<u8>, secp256k1::Error>)
    ensures
        outcome is Ok <==> (digest@.len() == 32 && secret_key_accepted(secret@)),
        outcome matches Ok(sig) ==> sig@ == ecdsa_signature(digest@, secret@),
        outcome matches Ok(sig) ==> ecdsa_accepts(digest@, sig@, public_key_of(secret@)),
{
    let message = Message::from_digest_slice(digest)?;
    let key = SecretKey::from_slice(secret)?;
    Ok(Secp256k1::new().sign_ecdsa(&message, &key).serialize_der().to_vec())
}

/// Calls `Message::from_digest_slice`, `PublicKey::from_slice`,
/// `Signature::from_der` and `verify_ecdsa`.
///
/// Trusted: the answer is a function of the three byte strings, and it is
/// `false` whenever one of them does not parse; so it is for a digest that
/// is not 32 bytes long, for an empty signature and for an empty key.
#[verifier::external_body]
pub(crate) fn verify_digest(digest: &[u8], signature: &[u8], public_key: &[u8]) -> (ok: bool)
    ensures
        ok == ecdsa_accepts(digest@, signature@, public_key@),
        digest@.len() != 32 ==> !ok,
        signature@.len() == 0 ==> !ok,
        public_key@.len() == 0 ==> !ok,
{
    let Ok(message) = Message::from_digest_slice(digest) else { return false };
    let Ok(key) = PublicKey::from_slice(public_key) else { return false };
    let Ok(sig) = Signature::from_der(signature) else { return false };
    Secp256k1::new().verify_ecdsa(&message, &sig, &key).is_ok()
}

/// Calls `SecretKey::from_slice`, `PublicKey::from_secret_key` and
/// `serialize`.
///
/// Trusted: the call succeeds exactly when the secret key is accepted, and
/// the result is then the compressed, 33-byte serialisation of the public key
/// derived from it.
#[verifier::external_body]
pub(crate) fn derive_public_key(secret: &[u8]) -> (outcome: Result<Vec<u8>, secp256k1::Error>)
    ensures
        outcome is Ok <==> secret_key_accepted(secret@),
        outcome matches Ok(key) ==> key@ == public_key_of(secret@) && key@.len() == 33,
{
    let key = SecretKey::from_slice(secret)?;
    Ok(PublicKey::from_secret_key(&Secp256k1::new(), &key).serialize().to_vec())
}

/// Calls `generate_keypair` with the operating system's random source.
///
/// Trusted: the secret key has 32 bytes and is one that `SecretKey::from_slice`
/// accepts, and the public key is the compressed, 33-byte serialisation of the
/// key derived from it. Which key comes out is not stated.
#[verifier::external_body]
pub(crate) fn generate_keys() -> (pair: (Vec<u8>, Vec<u8>))
    ensures
        pair.0@.len() == 32,
        pair.1@.len() == 33,
        secret_key_accepted(pair.0@),
        pair.1@ == public_key_of(pair.0@),
{
    let (secret, public) = Secp256k1::new().generate_keypair(&mut OsRng);
    (secret.secret_bytes().to_vec(), public.serialize().to_vec())
}

} // verus!
