//! The ChaCha20-Poly1305 calls of the frame layer.
//!
//! What the cipher computes takes pages to state; it is a function of the key,
//! the nonce and the message alone, so its results are named here and the
//! frame layer is verified against those names.
use chacha20poly1305::aead::{Aead, KeyInit};
use chacha20poly1305::{ChaCha20Poly1305, Key, Nonce};
use vstd::prelude::*;

use crate::frame::{KEY_LEN, NONCE_LEN};
use crate::kdf::{secret_bytes, SecretKey};

verus! {

#[verifier::external_type_specification]
#[verifier::external_body]
pub struct ExAeadError(chacha20poly1305::aead::Error);

/// The ciphertext (message followed by the 16-byte tag) that ChaCha20-Poly1305
/// produces for `plaintext` under `key` and `nonce`, with empty associated data.
pub uninterp spec fn chacha20poly1305_seal(key: Seq<u8>, nonce: Seq<u8>, plaintext: Seq<u8>) -> Seq<u8>;

/// What ChaCha20-Poly1305 decryption of `ciphertext` under `key` and `nonce`
/// (empty associated data) gives back: the plaintext, or `None` when the tag
/// does not authenticate.
pub uninterp spec fn chacha20poly1305_open(key: Seq<u8>, nonce: Seq<u8>, ciphertext: Seq<u8>) -> Option<Seq<u8>>;

/// Encrypts with `Aead::encrypt` of `ChaCha20Poly1305` (crate chacha20poly1305).
///
/// Trusted: the crate's source refuses a message of `2^32 - 1` or more 64-byte
/// blocks and otherwise returns the message encrypted in place followed by the
/// 16-byte tag; decrypting that ciphertext with the same key and nonce gives
/// the message back, as the crate's documentation shows. The output buffer is
/// allocated with room for the tag, hence the bound on the message length.
#[verifier::external_body]
pub(crate) fn seal(key: &SecretKey, nonce: &[u8; NONCE_LEN], plaintext: &[u8]) -> (r: Result<Vec<u8>, chacha20poly1305::aead::Error>)
    requires
        secret_bytes(*key).len() == KEY_LEN,
        plaintext@.len() + 16 <= isize::MAX,
    ensures
        r is Ok <==> plaintext@.len() / 64 < 0xffff_ffff,
        r matches Ok(c) ==> c@ == chacha20poly1305_seal(secret_bytes(*key), nonce@, plaintext@),
        r matches Ok(c) ==> c@.len() == plaintext@.len() + 16,
        r matches Ok(c) ==> chacha20poly1305_open(secret_bytes(*key), nonce@, c@) == Some(plaintext@),
{
    ChaCha20Poly1305::new(Key::from_slice(key.bytes.as_slice())).encrypt(Nonce::from_slice(nonce), plaintext)
}

/// Decrypts with `Aead::decrypt` of `ChaCha20Poly1305` (crate chacha20poly1305).
///
/// Trusted: the call succeeds exactly when the named decryption gives a
/// plaintext, and then returns that plaintext. The crate's source splits off
/// the last 16 bytes as the tag and, only when the tag it computes over the
/// rest matches, decrypts the rest in place: so the plaintext is 16 bytes
/// shorter, and sealing it again gives the same ciphertext and tag.
#[verifier::external_body]
pub(crate) fn open(key: &SecretKey, nonce: &[u8; NONCE_LEN], ciphertext: &[u8]) -> (r: Result<Vec<u8>, chacha20poly1305::aead::Error>)
    requires
        secret_bytes(*key).len() == KEY_LEN,
    ensures
        r is Ok <==> chacha20poly1305_open(secret_bytes(*key), nonce@, ciphertext@) is Some,
        r matches Ok(p) ==> chacha20poly1305_open(secret_bytes(*key), nonce@, ciphertext@) == Some(p@),
        r matches Ok(p) ==> p@.len() + 16 == ciphertext@.len(),
        r matches Ok(p) ==> ciphertext@ == chacha20poly1305_seal(secret_bytes(*key), nonce@, p@),
{
    ChaCha20Poly1305::new(Key::from_slice(key.bytes.as_slice())).decrypt(Nonce::from_slice(nonce), ciphertext)
}

} // verus!
