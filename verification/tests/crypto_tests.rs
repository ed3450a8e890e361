use base64::engine::general_purpose::STANDARD;
use base64::Engine;
use rbmem::crypto::{decrypt_content, encrypt_content, seal_with_nonce, EncryptionKey};
use rbmem::document::{EncryptedPayload, RbmemError};
use rbmem::time::{read_time, Timestamp};

fn test_key() -> EncryptionKey {
    EncryptionKey::from_bytes([7u8; 32])
}

fn alt_key() -> EncryptionKey {
    EncryptionKey::from_bytes([42u8; 32])
}

fn fixed_time() -> Timestamp {
    read_time("2026-05-20T10:00:00Z").unwrap()
}

#[test]
fn raw_32_byte_key_is_accepted_even_when_base64_shaped() {
    let raw = "abcdefghabcdefghabcdefghabcdefgh";
    assert_eq!(raw.len(), 32);
    let key = EncryptionKey::from_env_value(raw).unwrap();
    assert_eq!(key.as_bytes(), raw.as_bytes());
}

#[test]
fn base64_encoded_32_bytes_round_trips() {
    let bytes = [7u8; 32];
    let encoded = STANDARD.encode(bytes);
    assert_ne!(encoded.len(), 32);
    let key = EncryptionKey::from_env_value(&encoded).unwrap();
    assert_eq!(key.as_bytes(), &bytes);
}

#[test]
fn wrong_length_base64_key_is_rejected() {
    let err = EncryptionKey::from_env_value("YWJj").unwrap_err();
    assert!(matches!(err, RbmemError::Crypto(_)));
}

#[test]
fn encryption_key_decodes_from_environment_style_base64() {
    let encoded = STANDARD.encode([9u8; 32]);
    let key = EncryptionKey::from_env_value(&encoded).unwrap();

    assert_eq!(key.as_bytes(), &[9u8; 32]);
}

#[test]
fn encrypt_decrypt_empty_content_low_level() {
    let key = test_key();
    let now = fixed_time();
    let payload = encrypt_content("", &key, now).unwrap();
    let decrypted = decrypt_content(&payload, &key).unwrap();
    assert_eq!(decrypted, "");
}

#[test]
fn encrypt_decrypt_unicode_content() {
    let key = test_key();
    let now = fixed_time();
    let content = "日本語テスト 🎉 émojis & spëcial çhars — « guillemets » ñ";
    let payload = encrypt_content(content, &key, now).unwrap();
    let decrypted = decrypt_content(&payload, &key).unwrap();
    assert_eq!(decrypted, content);
}

#[test]
fn encrypt_decrypt_content_with_null_bytes_in_string() {
    let key = test_key();
    let now = fixed_time();
    let content = "before\u{FFFD}after\u{202E}rtl-override\u{0007}bell";
    let payload = encrypt_content(content, &key, now).unwrap();
    let decrypted = decrypt_content(&payload, &key).unwrap();
    assert_eq!(decrypted, content);
}

#[test]
fn encrypt_decrypt_newlines_tabs_and_whitespace() {
    let key = test_key();
    let now = fixed_time();
    let content = "\t\ttabbed\n\n\nmulti\nline\r\nwindows\t mixed \t  spaces  ";
    let payload = encrypt_content(content, &key, now).unwrap();
    let decrypted = decrypt_content(&payload, &key).unwrap();
    assert_eq!(decrypted, content);
}

#[test]
fn encrypt_decrypt_large_section() {
    let key = test_key();
    let now = fixed_time();
    let line = "This is a line of text for testing encryption at scale. ";
    let content: String = line.repeat(4600);
    assert!(content.len() > 250_000);

    let payload = encrypt_content(&content, &key, now).unwrap();
    let decrypted = decrypt_content(&payload, &key).unwrap();
    assert_eq!(decrypted, content);
}

#[test]
fn decrypt_content_with_wrong_key_low_level() {
    let key = test_key();
    let wrong = alt_key();
    let now = fixed_time();
    let payload = encrypt_content("secret data", &key, now).unwrap();
    let result = decrypt_content(&payload, &wrong);
    assert!(result.is_err());
}

#[test]
fn tampered_ciphertext_fails_decryption() {
    let key = test_key();
    let now = fixed_time();
    let mut payload = encrypt_content("sensitive info", &key, now).unwrap();

    let mut chars: Vec<char> = payload.ciphertext.chars().collect();
    if let Some(c) = chars.get_mut(5) {
        *c = if *c == 'A' { 'B' } else { 'A' };
    }
    payload.ciphertext = chars.into_iter().collect();

    let result = decrypt_content(&payload, &key);
    assert!(result.is_err());
}

#[test]
fn tampered_nonce_fails_decryption() {
    let key = test_key();
    let now = fixed_time();
    let mut payload = encrypt_content("sensitive info", &key, now).unwrap();

    let mut chars: Vec<char> = payload.nonce.chars().collect();
    if let Some(c) = chars.get_mut(0) {
        *c = if *c == 'A' { 'B' } else { 'A' };
    }
    payload.nonce = chars.into_iter().collect();

    let result = decrypt_content(&payload, &key);
    assert!(result.is_err());
}

#[test]
fn invalid_base64_ciphertext_fails() {
    let key = test_key();
    let payload = EncryptedPayload {
        nonce: "AAAAAAAAAAAAAAAA".to_string(),
        ciphertext: "!!!not-valid-base64!!!".to_string(),
        encrypted_at: fixed_time(),
    };
    let result = decrypt_content(&payload, &key);
    assert!(result.is_err());
    let err_msg = format!("{:?}", result.unwrap_err());
    assert!(err_msg.contains("ciphertext") || err_msg.contains("invalid"), "unexpected error: {err_msg}");
}

#[test]
fn invalid_base64_nonce_fails() {
    let key = test_key();
    let payload = EncryptedPayload {
        nonce: "!!!bad-nonce!!!".to_string(),
        ciphertext: "AAAAAAAAAAAAAAAA".to_string(),
        encrypted_at: fixed_time(),
    };
    let result = decrypt_content(&payload, &key);
    assert!(result.is_err());
    let err_msg = format!("{:?}", result.unwrap_err());
    assert!(err_msg.contains("nonce") || err_msg.contains("invalid"), "unexpected error: {err_msg}");
}

#[test]
fn nonce_wrong_length_fails() {
    let key = test_key();
    let payload = EncryptedPayload {
        nonce: STANDARD.encode([0u8; 8]),
        ciphertext: STANDARD.encode([0u8; 32]),
        encrypted_at: fixed_time(),
    };
    let result = decrypt_content(&payload, &key);
    assert!(result.is_err());
    let err_msg = format!("{:?}", result.unwrap_err());
    assert!(err_msg.contains("12 bytes") || err_msg.contains("nonce"), "unexpected error: {err_msg}");
}

#[test]
fn encrypt_produces_unique_nonces_for_same_content() {
    let key = test_key();
    let now = fixed_time();
    let content = "same content encrypted twice";

    let p1 = encrypt_content(content, &key, now).unwrap();
    let p2 = encrypt_content(content, &key, now).unwrap();

    assert_ne!(p1.nonce, p2.nonce, "nonces must be unique per encryption");
    assert_ne!(p1.ciphertext, p2.ciphertext, "ciphertexts differ due to unique nonces");

    assert_eq!(decrypt_content(&p1, &key).unwrap(), content);
    assert_eq!(decrypt_content(&p2, &key).unwrap(), content);
}

#[test]
fn encryption_key_from_env_base64() {
    let raw = [55u8; 32];
    let encoded = STANDARD.encode(raw);
    let key = EncryptionKey::from_env_value(&encoded).unwrap();
    assert_eq!(key.as_bytes(), &raw);
}

#[test]
fn encryption_key_from_env_raw_bytes() {
    let raw = "!key_for_testing_encryption_32b!";
    assert_eq!(raw.len(), 32);
    let key = EncryptionKey::from_env_value(raw).unwrap();
    assert_eq!(key.as_bytes(), raw.as_bytes());
}

#[test]
fn encryption_key_from_env_trims_whitespace() {
    let raw = "  !key_for_testing_encryption_32b!  ";
    let key = EncryptionKey::from_env_value(raw).unwrap();
    assert_eq!(key.as_bytes(), b"!key_for_testing_encryption_32b!");
}

#[test]
fn encryption_key_from_env_wrong_length_fails() {
    let result = EncryptionKey::from_env_value("tooshort");
    assert!(result.is_err());
}

#[test]
fn sealing_with_a_given_nonce_is_fixed_and_opens_again() {
    let nonce = [0u8; 12];
    let a = seal_with_nonce("secret note", &test_key(), nonce, fixed_time()).unwrap();
    let b = seal_with_nonce("secret note", &test_key(), nonce, fixed_time()).unwrap();
    assert_eq!(a.nonce, "AAAAAAAAAAAAAAAA");
    assert_eq!(a.ciphertext, b.ciphertext);
    assert_eq!(a.encrypted_at, fixed_time());
    assert_eq!(decrypt_content(&a, &test_key()).unwrap(), "secret note");
    assert!(matches!(decrypt_content(&a, &alt_key()), Err(RbmemError::Crypto(_))));
}
