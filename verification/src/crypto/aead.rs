use vstd::prelude::*;

use chacha20poly1305::aead::{Aead, Payload};
use chacha20poly1305::{Key, KeyInit, XChaCha20Poly1305, XNonce};

use crate::crypto::random::{NONCE_LEN, TAG_LEN};
use crate::crypto::secret::{guarded_bytes, GuardedBytes};
use crate::errors::{Error, Result};

verus! {

/// The XChaCha20-Poly1305 ciphertext (with the tag appended) of `plaintext`
/// under `key`, `nonce` and associated data `aad`.
pub uninterp spec fn xchacha_seal(key: Seq<u8>, nonce: Seq<u8>, aad: Seq<u8>, plaintext: Seq<u8>) -> Seq<u8>;

/// What XChaCha20-Poly1305 decryption of `ciphertext` gives under `key`,
/// `nonce` and `aad`: the plaintext, or nothing when the tag does not check.
pub uninterp spec fn xchacha_open(key: Seq<u8>, nonce: Seq<u8>, aad: Seq<u8>, ciphertext: Seq<u8>) -> Option<Seq<u8>>;

/// The largest plaintext the cipher accepts, in 64-byte blocks.
pub open spec fn within_block_limit(len: nat) -> bool {
    len / 64 < 0xFFFF_FFFF
}

/// Calls `XChaCha20Poly1305::encrypt` (crate chacha20poly1305). Claims: it
/// fails exactly when the message reaches the cipher's 2^32-block counter
/// limit; otherwise the ciphertext is the named seal, is 16 bytes longer
/// than the message, and decrypts under the same key, nonce and associated
/// data to the message.
#[verifier::external_body]
fn xchacha_encrypt(key: &[u8], nonce: &[u8; NONCE_LEN], aad: &[u8], plaintext: &[u8]) -> (r: Option<Vec<u8>>)
    requires
        key@.len() == 32,
    ensures
        r is Some <==> within_block_limit(plaintext@.len()),
        r matches Some(c) ==> c@ == xchacha_seal(key@, nonce@, aad@, plaintext@),
        r matches Some(c) ==> c@.len() == plaintext@.len() + TAG_LEN,
        r matches Some(c) ==> xchacha_open(key@, nonce@, aad@, c@) == Some(plaintext@),
{
    XChaCha20Poly1305::new(Key::from_slice(key)).encrypt(XNonce::from_slice(nonce), Payload { msg: plaintext, aad }).ok()
}

/// Calls `XChaCha20Poly1305::decrypt` (crate chacha20poly1305). Claims: the
/// result is the named opening; a plaintext comes back 16 bytes shorter than
/// the ciphertext, so a ciphertext shorter than the tag never opens.
#[verifier::external_body]
fn xchacha_decrypt(key: &[u8], nonce: &[u8; NONCE_LEN], aad: &[u8], ciphertext: &[u8]) -> (r: Option<Vec<u8>>)
    requires
        key@.len() == 32,
    ensures
        r is Some <==> xchacha_open(key@, nonce@, aad@, ciphertext@) is Some,
        r matches Some(p) ==> Some(p@) == xchacha_open(key@, nonce@, aad@, ciphertext@),
        r matches Some(p) ==> p@.len() + TAG_LEN == ciphertext@.len(),
{
    XChaCha20Poly1305::new(Key::from_slice(key)).decrypt(XNonce::from_slice(nonce), Payload { msg: ciphertext, aad }).ok()
}

/// Authenticated encryption of `plaintext`; the ciphertext carries the tag.
pub fn encrypt(key: &[u8], nonce: &[u8; NONCE_LEN], aad: &[u8], plaintext: &[u8]) -> (r: Result<Vec<u8>>)
    ensures
        key@.len() != 32 ==> r == Err::<Vec<u8>, Error>(Error::Crypto),
        key@.len() == 32 && !within_block_limit(plaintext@.len()) ==> r == Err::<Vec<u8>, Error>(Error::Authentication),
        r is Ok <==> key@.len() == 32 && within_block_limit(plaintext@.len()),
        r matches Ok(c) ==> c@ == xchacha_seal(key@, nonce@, aad@, plaintext@),
        r matches Ok(c) ==> c@.len() == plaintext@.len() + TAG_LEN,
        r matches Ok(c) ==> xchacha_open(key@, nonce@, aad@, c@) == Some(plaintext@),
{
    if key.len() != 32 {
        return Err(Error::Crypto);
    }
    match xchacha_encrypt(key, nonce, aad, plaintext) {
        Some(c) => Ok(c),
        None => Err(Error::Authentication),
    }
}

/// Authenticated decryption; any failure of the tag is `Authentication`.
/// The plaintext is wiped when it is dropped.
pub fn decrypt(key: &[u8], nonce: &[u8; NONCE_LEN], aad: &[u8], ciphertext: &[u8]) -> (r: Result<GuardedBytes>)
    ensures
        key@.len() != 32 ==> r == Err::<GuardedBytes, Error>(Error::Crypto),
        key@.len() == 32 ==> (r is Ok <==> (ciphertext@.len() >= TAG_LEN && xchacha_open(key@, nonce@, aad@, ciphertext@) is Some)),
        key@.len() == 32 && r is Err ==> r == Err::<GuardedBytes, Error>(Error::Authentication),
        r matches Ok(p) ==> key@.len() == 32 && Some(guarded_bytes(p)) == xchacha_open(key@, nonce@, aad@, ciphertext@),
        r matches Ok(p) ==> guarded_bytes(p).len() + TAG_LEN == ciphertext@.len(),
{
    if key.len() != 32 {
        return Err(Error::Crypto);
    }
    if ciphertext.len() < TAG_LEN {
        return Err(Error::Authentication);
    }
    match xchacha_decrypt(key, nonce, aad, ciphertext) {
        Some(p) => Ok(GuardedBytes::new(p)),
        None => Err(Error::Authentication),
    }
}

} // verus!
