use vstd::prelude::*;

use aes_gcm::aead::{Aead, KeyInit, OsRng};
use aes_gcm::{Aes256Gcm, Nonce};
use argon2::password_hash::{PasswordHasher, SaltString};
use rand_core::RngCore;

use crate::StoreError;

verus! {

/// The 32-byte key that the password hash derives from a password and a salt.
pub uninterp spec fn key_of(password: Seq<char>, salt: Seq<u8>) -> Seq<u8>;

/// The AES-256-GCM ciphertext (tag included) for a key, nonce and plaintext.
pub uninterp spec fn seal_of(key: Seq<u8>, nonce: Seq<u8>, data: Seq<u8>) -> Seq<u8>;

/// What AES-256-GCM decryption yields for a key, nonce and ciphertext: the
/// plaintext when the authentication tag verifies, nothing otherwise.
pub uninterp spec fn open_of(key: Seq<u8>, nonce: Seq<u8>, data: Seq<u8>) -> Option<Seq<u8>>;

/// Relies on argon2's `Argon2::default().hash_password` over a base64 salt:
/// a deterministic function of the password and the salt, with the default
/// 32-byte output.  argon2 rejects a password longer than 0xFFFF_FFFF bytes,
/// so such a password is excluded here.
#[verifier::external_body]
pub fn derive_key(master_password: &str, salt: &Vec<u8>) -> (r: Vec<u8>)
    requires
        salt@.len() == 16,
        vstd::utf8::encode_utf8(master_password@).len() <= 0xFFFF_FFFF,
    ensures
        r@ == key_of(master_password@, salt@),
        r@.len() == 32,
{
    let salt_string = SaltString::encode_b64(salt.as_slice()).unwrap();
    let argon2 = argon2::Argon2::default();
    let password_hash = argon2.hash_password(master_password.as_bytes(), &salt_string).unwrap();
    password_hash.hash.unwrap().as_bytes().to_vec()
}

/// Relies on `OsRng::fill_bytes`: the operating system's secure randomness;
/// nothing can be promised of the bytes beyond their number.
#[verifier::external_body]
pub fn generate_salt() -> (r: Vec<u8>)
    ensures
        r@.len() == 16,
{
    let mut salt = [0u8; 16];
    OsRng.fill_bytes(&mut salt);
    salt.to_vec()
}

/// Relies on `OsRng::fill_bytes`, as `generate_salt` does.
#[verifier::external_body]
fn generate_nonce() -> (r: Vec<u8>)
    ensures
        r@.len() == 12,
{
    let mut nonce = [0u8; 12];
    OsRng.fill_bytes(&mut nonce);
    nonce.to_vec()
}

/// Relies on `Aes256Gcm::encrypt`: deterministic in key, nonce and plaintext;
/// the ciphertext is the plaintext plus the 16-byte tag, and decrypting it
/// under the same key and nonce gives the plaintext back.
#[verifier::external_body]
fn aead_seal(key: &Vec<u8>, nonce: &Vec<u8>, data: &Vec<u8>) -> (r: Vec<u8>)
    requires
        key@.len() == 32,
        nonce@.len() == 12,
        data@.len() < 0x1_0000_0000,
    ensures
        r@ == seal_of(key@, nonce@, data@),
        r@.len() == data@.len() + 16,
        open_of(key@, nonce@, r@) == Some(data@),
{
    let cipher = Aes256Gcm::new_from_slice(key.as_slice()).unwrap();
    cipher.encrypt(Nonce::from_slice(nonce.as_slice()), data.as_slice()).unwrap()
}

/// Relies on `Aes256Gcm::decrypt`: deterministic in key, nonce and
/// ciphertext; it fails exactly when the authentication tag does not verify.
#[verifier::external_body]
fn aead_open(key: &Vec<u8>, nonce: &Vec<u8>, ciphertext: &Vec<u8>) -> (r: Option<Vec<u8>>)
    requires
        key@.len() == 32,
        nonce@.len() == 12,
    ensures
        match r {
            Some(p) => open_of(key@, nonce@, ciphertext@) == Some(p@),
            None => open_of(key@, nonce@, ciphertext@) is None,
        },
{
    let cipher = Aes256Gcm::new_from_slice(key.as_slice()).unwrap();
    cipher.decrypt(Nonce::from_slice(nonce.as_slice()), ciphertext.as_slice()).ok()
}

/// Encrypts under a fresh random nonce and returns (ciphertext, nonce); the
/// nonce is not recoverable from the ciphertext and must be kept beside it.
pub fn encrypt(key: &Vec<u8>, data: &Vec<u8>) -> (r: (Vec<u8>, Vec<u8>))
    requires
        key@.len() == 32,
        data@.len() < 0x1_0000_0000,
    ensures
        r.1@.len() == 12,
        r.0@ == seal_of(key@, r.1@, data@),
        r.0@.len() == data@.len() + 16,
        open_of(key@, r.1@, r.0@) == Some(data@),
{
    let nonce = generate_nonce();
    let ciphertext = aead_seal(key, &nonce, data);
    (ciphertext, nonce)
}

/// Decrypts; a failed authentication tag — wrong key, corruption or
/// tampering — is surfaced as `AuthenticationFailure`.
pub fn decrypt(key: &Vec<u8>, ciphertext: &Vec<u8>, nonce: &Vec<u8>) -> (r: Result<
    Vec<u8>,
    StoreError,
>)
    requires
        key@.len() == 32,
        nonce@.len() == 12,
    ensures
        match r {
            Ok(p) => open_of(key@, nonce@, ciphertext@) == Some(p@),
            Err(e) => e == StoreError::AuthenticationFailure && open_of(
                key@,
                nonce@,
                ciphertext@,
            ) is None,
        },
{
    match aead_open(key, nonce, ciphertext) {
        Some(p) => Ok(p),
        None => Err(StoreError::AuthenticationFailure),
    }
}

} // verus!
