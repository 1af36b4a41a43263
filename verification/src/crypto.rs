//! AES-256-GCM encryption of repository data: a fresh random 12-byte nonce
//! in front of the sealed data.
use vstd::prelude::*;
use aes_gcm::aead::{Aead, KeyInit};
use rand::RngCore;
use crate::text::concat2;

verus! {

/// The ciphertext (with its 16-byte tag) that AES-256-GCM makes of `data`
/// under `key` and `nonce`, with no associated data.
pub uninterp spec fn aes_gcm_sealed(key: Seq<u8>, nonce: Seq<u8>, data: Seq<u8>) -> Seq<u8>;

/// What AES-256-GCM decryption of `ciphertext` under `key` and `nonce`
/// gives: the plaintext, or nothing where the data does not authenticate.
pub uninterp spec fn aes_gcm_opened(key: Seq<u8>, nonce: Seq<u8>, ciphertext: Seq<u8>) -> Option<Seq<u8>>;

/// The largest plaintext AES-GCM takes (`aes_gcm::P_MAX`, 2^36 bytes).
pub open spec fn max_plaintext() -> int {
    0x10_0000_0000
}

/// `Aes256Gcm::encrypt` with a 32-byte key and a 12-byte nonce: it fails
/// exactly on plaintexts longer than `P_MAX` (the error reads
/// `aead::Error`); otherwise the ciphertext is the data's length plus a
/// 16-byte tag, and decrypting it with the same key and nonce gives the
/// data back.
#[verifier::external_body]
fn aes_gcm_encrypt(key: &[u8], nonce: &[u8], data: &[u8]) -> (r: Result<Vec<u8>, String>)
    requires
        key@.len() == 32,
        nonce@.len() == 12,
    ensures
        r is Ok <==> data@.len() <= max_plaintext(),
        r matches Ok(c) ==> {
            &&& c@ == aes_gcm_sealed(key@, nonce@, data@)
            &&& c@.len() == data@.len() + 16
            &&& aes_gcm_opened(key@, nonce@, c@) == Some(data@)
        },
        r matches Err(e) ==> e@ == "aead::Error"@,
{
    let cipher = aes_gcm::Aes256Gcm::new(aes_gcm::Key::<aes_gcm::Aes256Gcm>::from_slice(key));
    cipher.encrypt(aes_gcm::Nonce::from_slice(nonce), data).map_err(|e| e.to_string())
}

/// `Aes256Gcm::decrypt` with a 32-byte key and a 12-byte nonce: the
/// plaintext where the ciphertext authenticates, else an error that reads
/// `aead::Error`.
#[verifier::external_body]
fn aes_gcm_decrypt(key: &[u8], nonce: &[u8], ciphertext: &[u8]) -> (r: Result<Vec<u8>, String>)
    requires
        key@.len() == 32,
        nonce@.len() == 12,
    ensures
        r is Ok <==> aes_gcm_opened(key@, nonce@, ciphertext@) is Some,
        r matches Ok(p) ==> aes_gcm_opened(key@, nonce@, ciphertext@) == Some(p@),
        r matches Err(e) ==> e@ == "aead::Error"@,
{
    let cipher = aes_gcm::Aes256Gcm::new(aes_gcm::Key::<aes_gcm::Aes256Gcm>::from_slice(key));
    cipher.decrypt(aes_gcm::Nonce::from_slice(nonce), ciphertext).map_err(|e| e.to_string())
}

/// Twelve bytes from the operating system's random source
/// (`OsRng.fill_bytes`); nothing is promised of them but their number.
#[verifier::external_body]
fn random_nonce() -> (r: Vec<u8>)
    ensures
        r@.len() == 12,
{
    let mut nonce = [0u8; 12];
    aes_gcm::aead::OsRng.fill_bytes(&mut nonce);
    nonce.to_vec()
}

/// A key from `Aes256Gcm::generate_key` with the operating system's random
/// source (`OsRng`); nothing is promised of it.
#[verifier::external_body]
fn random_key() -> [u8; 32] {
    aes_gcm::Aes256Gcm::generate_key(aes_gcm::aead::OsRng).into()
}

/// Encryption with AES-256-GCM.
pub struct EncryptionEngine;

/// What decryption gives for `encrypted` under `key`: the key must be 32
/// bytes, the data at least a nonce and a tag long; the first 12 bytes are
/// the nonce, the rest must authenticate.
pub open spec fn decrypted(encrypted: Seq<u8>, key: Seq<u8>) -> Result<Seq<u8>, Seq<char>> {
    if key.len() != 32 {
        Err("Decryption key must be exactly 32 bytes"@)
    } else if encrypted.len() < 12 + 16 {
        Err("Invalid encrypted data format or too short"@)
    } else {
        match aes_gcm_opened(key, encrypted.take(12), encrypted.skip(12)) {
            Some(p) => Ok(p),
            None => Err("Decryption failed: "@ + "aead::Error"@),
        }
    }
}

pub open spec fn bytes_result(r: Result<Vec<u8>, String>) -> Result<Seq<u8>, Seq<char>> {
    match r {
        Ok(v) => Ok(v@),
        Err(e) => Err(e@),
    }
}

impl EncryptionEngine {
    /// Encrypts `data` under a 32-byte key: a fresh random nonce, then the
    /// sealed data.  Decrypting the result with the same key gives `data`.
    pub fn encrypt(data: &[u8], key: &[u8]) -> (r: Result<Vec<u8>, String>)
        ensures
            key@.len() != 32 ==> bytes_result(r) == Err::<Seq<u8>, Seq<char>>("Encryption key must be exactly 32 bytes"@),
            key@.len() == 32 && data@.len() > max_plaintext()
                ==> bytes_result(r) == Err::<Seq<u8>, Seq<char>>("Encryption failed: "@ + "aead::Error"@),
            r is Ok <==> key@.len() == 32 && data@.len() <= max_plaintext(),
            r matches Ok(c) ==> {
                &&& c@.len() == 12 + data@.len() + 16
                &&& c@.skip(12) == aes_gcm_sealed(key@, c@.take(12), data@)
                &&& decrypted(c@, key@) == Ok::<Seq<u8>, Seq<char>>(data@)
            },
    {
        if key.len() != 32 {
            return Err(String::from_str("Encryption key must be exactly 32 bytes"));
        }
        let nonce = random_nonce();
        let sealed = match aes_gcm_encrypt(key, nonce.as_slice(), data) {
            Ok(c) => c,
            Err(e) => {
                return Err(concat2("Encryption failed: ", e.as_str()));
            },
        };
        let mut out = nonce;
        let ghost n = out@;
        out.extend_from_slice(sealed.as_slice());
        proof {
            assert(out@ =~= n + sealed@);
            assert(out@.take(12) =~= n);
            assert(out@.skip(12) =~= sealed@);
        }
        Ok(out)
    }

    /// Decrypts what `encrypt` made: the first 12 bytes are the nonce, the
    /// rest is the sealed data.
    pub fn decrypt(encrypted_data: &[u8], key: &[u8]) -> (r: Result<Vec<u8>, String>)
        ensures
            bytes_result(r) == decrypted(encrypted_data@, key@),
    {
        if key.len() != 32 {
            return Err(String::from_str("Decryption key must be exactly 32 bytes"));
        }
        if encrypted_data.len() < 12 + 16 {
            return Err(String::from_str("Invalid encrypted data format or too short"));
        }
        let mut nonce: Vec<u8> = Vec::new();
        let mut rest: Vec<u8> = Vec::new();
        let mut i: usize = 0;
        while i < encrypted_data.len()
            invariant
                i <= encrypted_data@.len(),
                encrypted_data@.len() >= 28,
                i <= 12 ==> nonce@ == encrypted_data@.take(i as int) && rest@.len() == 0,
                i > 12 ==> nonce@ == encrypted_data@.take(12) && rest@ == encrypted_data@.subrange(12, i as int),
            decreases encrypted_data.len() - i,
        {
            if i < 12 {
                nonce.push(encrypted_data[i]);
                assert(encrypted_data@.take(i + 1) =~= encrypted_data@.take(i as int).push(encrypted_data@[i as int]));
            } else {
                rest.push(encrypted_data[i]);
                assert(encrypted_data@.subrange(12, i + 1) =~= encrypted_data@.subrange(12, i as int).push(encrypted_data@[i as int]));
            }
            i = i + 1;
        }
        assert(rest@ =~= encrypted_data@.skip(12));
        match aes_gcm_decrypt(key, nonce.as_slice(), rest.as_slice()) {
            Ok(p) => Ok(p),
            Err(e) => Err(concat2("Decryption failed: ", e.as_str())),
        }
    }

    /// A fresh random AES-256 key; nothing is promised of it but its size.
    pub fn generate_key() -> (r: [u8; 32]) {
        random_key()
    }
}

} // verus!
