use fgit_core::crypto::EncryptionEngine;

#[test]
fn test_encryption_roundtrip() {
    let key = EncryptionEngine::generate_key();
    let message = b"Confidential ApexForge GIT data!";
    let cipher = EncryptionEngine::encrypt(message, &key).unwrap();
    let decrypted = EncryptionEngine::decrypt(&cipher, &key).unwrap();
    assert_eq!(message, decrypted.as_slice());
}

#[test]
fn test_wrong_key_fails() {
    let key1 = EncryptionEngine::generate_key();
    let key2 = EncryptionEngine::generate_key();
    let message = b"Secret text";
    let cipher = EncryptionEngine::encrypt(message, &key1).unwrap();
    let result = EncryptionEngine::decrypt(&cipher, &key2);
    assert!(result.is_err());
}

#[test]
fn test_invalid_key_length() {
    let key = [0u8; 16];
    let result = EncryptionEngine::encrypt(b"test", &key);
    assert!(result.is_err());
    assert!(result.unwrap_err().contains("32 bytes"));
}

#[test]
fn encryption_layout_and_errors() {
    let key = [7u8; 32];
    let c = EncryptionEngine::encrypt(b"abc", &key).unwrap();
    assert_eq!(c.len(), 12 + 3 + 16);
    assert_ne!(&c[12..15], b"abc");
    assert_eq!(
        EncryptionEngine::decrypt(&c, &[0u8; 31]).unwrap_err(),
        "Decryption key must be exactly 32 bytes"
    );
    assert_eq!(
        EncryptionEngine::decrypt(&c[..20], &key).unwrap_err(),
        "Invalid encrypted data format or too short"
    );
    let mut tampered = c.clone();
    tampered[20] ^= 1;
    assert_eq!(
        EncryptionEngine::decrypt(&tampered, &key).unwrap_err(),
        "Decryption failed: aead::Error"
    );
    assert_eq!(
        EncryptionEngine::encrypt(b"x", &[1u8; 33]).unwrap_err(),
        "Encryption key must be exactly 32 bytes"
    );
}
