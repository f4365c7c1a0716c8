use vstd::prelude::*;
use vstd::string::StringSliceAdditionalSpecFns;

use aes_gcm::aead::{Aead, Generate, Nonce};
use aes_gcm::{Aes256Gcm, Key, KeyInit};
use base64::Engine;

verus! {

// The trusted boundary around the cryptographic primitives and the text
// encoding. Each spec function below names the result of one outside
// function; each wrapper makes one outside call and states over those names
// what that call's source and documentation show.

/// The raw output of the password-hashing primitive for a password and a
/// salt: a deterministic function of the two.
pub uninterp spec fn argon2_raw_hash(password: Seq<char>, salt: Seq<u8>) -> Seq<u8>;

/// The ciphertext-with-tag the authenticated cipher produces for a key, a
/// nonce and a plaintext: a deterministic function of the three.
pub uninterp spec fn aes_gcm_seal(key: Seq<u8>, nonce: Seq<u8>, plaintext: Seq<char>) -> Seq<u8>;

/// The text encoding of a byte sequence: a deterministic function of the
/// bytes.
pub uninterp spec fn base64_of(bytes: Seq<u8>) -> Seq<char>;

/// Relies on argon2::Argon2::hash_password_into with the default algorithm,
/// version and parameters and a fixed-size output buffer: the filled buffer
/// depends on the password bytes and the salt alone, and a salt shorter
/// than the primitive's 8-byte minimum is always rejected.
#[verifier::external_body]
pub(crate) fn argon2_hash(password: &str, salt: &[u8]) -> (r: Option<Vec<u8>>)
    ensures
        r matches Some(h) ==> h@ == argon2_raw_hash(password@, salt@),
        salt@.len() < 8 ==> r is None,
{
    let mut out = [0u8; 32];
    match argon2::Argon2::default().hash_password_into(password.as_bytes(), salt, &mut out) {
        Ok(()) => Some(out.to_vec()),
        Err(_) => None,
    }
}

/// Relies on aes_gcm::Aes256Gcm through aead::Aead::encrypt: for one key,
/// nonce and plaintext the returned ciphertext-with-tag depends on those
/// three values alone, and is the encrypted plaintext bytes followed by the
/// 16-byte authentication tag.
#[verifier::external_body]
pub(crate) fn aes_gcm_encrypt(key: &[u8], nonce: &[u8], plaintext: &str) -> (r: Option<Vec<u8>>)
    requires
        key@.len() == 32,
        nonce@.len() == 12,
    ensures
        r matches Some(ct) ==> ct@ == aes_gcm_seal(key@, nonce@, plaintext@) && ct@.len()
            == plaintext.spec_bytes().len() + 16,
{
    let k = Key::<Aes256Gcm>::try_from(key).ok()?;
    let n = Nonce::<Aes256Gcm>::try_from(nonce).ok()?;
    Aes256Gcm::new(&k).encrypt(&n, plaintext.as_bytes()).ok()
}

/// Relies on aead::Aead::decrypt verifying the authentication tag and
/// inverting encryption, and on String::from_utf8 inverting the UTF-8
/// encoding: any ciphertext the cipher produced for this key and nonce
/// decrypts back to exactly the plaintext it was produced from, and —
/// because the tag is recomputed over the ciphertext and the keystream is a
/// bijection for a fixed key and nonce — anything that decrypts is exactly
/// what the cipher would produce for the returned plaintext.
#[verifier::external_body]
pub(crate) fn aes_gcm_decrypt(key: &[u8], nonce: &[u8], ciphertext: &[u8]) -> (r: Option<String>)
    requires
        key@.len() == 32,
        nonce@.len() == 12,
    ensures
        r is None ==> forall|p: Seq<char>| ciphertext@ != aes_gcm_seal(key@, nonce@, p),
        r matches Some(s) ==> forall|p: Seq<char>|
            ciphertext@ == aes_gcm_seal(key@, nonce@, p) ==> s@ == p,
        r matches Some(s) ==> ciphertext@ == aes_gcm_seal(key@, nonce@, s@),
{
    let k = Key::<Aes256Gcm>::try_from(key).ok()?;
    let n = Nonce::<Aes256Gcm>::try_from(nonce).ok()?;
    let pt = Aes256Gcm::new(&k).decrypt(&n, ciphertext).ok()?;
    String::from_utf8(pt).ok()
}

/// Relies on base64's STANDARD engine (Engine::encode): the encoding
/// depends on the input bytes alone. The guard skips inputs so large that
/// computing the encoded size would overflow.
#[verifier::external_body]
pub(crate) fn base64_encode(data: &[u8]) -> (r: Option<String>)
    ensures
        r matches Some(s) ==> s@ == base64_of(data@),
{
    base64::encoded_len(data.len(), true)?;
    Some(base64::engine::general_purpose::STANDARD.encode(data))
}

/// Relies on Engine::decode of the same STANDARD engine being the inverse
/// of Engine::encode: text that is the encoding of some byte sequence
/// decodes to exactly those bytes, and — since this engine requires
/// canonical padding and rejects set trailing bits — only canonical
/// encodings are accepted at all, so whatever decodes is the encoding of
/// the returned bytes.
#[verifier::external_body]
pub(crate) fn base64_decode(text: &str) -> (r: Option<Vec<u8>>)
    ensures
        r is None ==> forall|b: Seq<u8>| text@ != base64_of(b),
        r matches Some(v) ==> forall|b: Seq<u8>| text@ == base64_of(b) ==> v@ == b,
        r matches Some(v) ==> text@ == base64_of(v@),
{
    base64::engine::general_purpose::STANDARD.decode(text).ok()
}

/// Relies on aead::Generate for 12-byte arrays drawing from the system's
/// cryptographic random number generator: a fresh nonce of exactly 12
/// bytes; nothing is assumed about its value.
#[verifier::external_body]
pub(crate) fn generate_nonce_bytes() -> (r: Option<Vec<u8>>)
    ensures
        r matches Some(v) ==> v@.len() == 12,
{
    let arr: [u8; 12] = Generate::try_generate().ok()?;
    Some(arr.to_vec())
}

/// Relies on aead::Generate for 16-byte arrays drawing from the system's
/// cryptographic random number generator: a fresh salt of exactly 16
/// bytes; nothing is assumed about its value.
#[verifier::external_body]
pub(crate) fn generate_salt_bytes() -> (r: Option<Vec<u8>>)
    ensures
        r matches Some(v) ==> v@.len() == 16,
{
    let arr: [u8; 16] = Generate::try_generate().ok()?;
    Some(arr.to_vec())
}

} // verus!
