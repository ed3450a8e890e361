//! Encrypted sections: AES-256-GCM under a 32-byte key, nonce and
//! ciphertext kept as base64 text.
use vstd::prelude::*;
use vstd::utf8::{decode_utf8, encode_utf8, valid_utf8};
use crate::document::{EncryptedPayload, EncryptedPayloadV, RbmemError};
use crate::text::{chars_of, string_of, trim, trimmed};
use crate::time::Timestamp;

verus! {

// ---------------------------------------------------------------------------
// Outside calls
// ---------------------------------------------------------------------------

/// The standard base64 text of bytes.
pub uninterp spec fn base64_text(bytes: Seq<u8>) -> Seq<char>;

/// What standard base64 decoding gives for a text: the bytes, or the
/// rendered error.
pub uninterp spec fn base64_decoded(text: Seq<char>) -> Result<Seq<u8>, Seq<char>>;

/// The text decodes to exactly these bytes.
pub open spec fn decodes_to(text: Seq<char>, bytes: Seq<u8>) -> bool {
    base64_decoded(text) == Ok::<Seq<u8>, Seq<char>>(bytes)
}

/// Bytes or an error message, as plain values.
pub open spec fn bytes_or_message(r: Result<Vec<u8>, String>) -> Result<Seq<u8>, Seq<char>> {
    match r {
        Ok(b) => Ok(b@),
        Err(e) => Err(e@),
    }
}

/// Calls `Engine::encode` of `base64::engine::general_purpose::STANDARD`.
/// Claimed: the text is the named result `base64_text` of the bytes, and the
/// same engine decodes it back to them.
#[verifier::external_body]
fn base64_encode(bytes: &[u8]) -> (r: String)
    ensures
        r@ == base64_text(bytes@),
        decodes_to(r@, bytes@),
{
    base64::Engine::encode(&base64::engine::general_purpose::STANDARD, bytes)
}

/// Calls `Engine::decode` of `base64::engine::general_purpose::STANDARD` and
/// renders its error. Claimed: the outcome is the named result
/// `base64_decoded` of the text.
#[verifier::external_body]
fn base64_decode(text: &str) -> (r: Result<Vec<u8>, String>)
    ensures
        base64_decoded(text@) == bytes_or_message(r),
{
    base64::Engine::decode(&base64::engine::general_purpose::STANDARD, text).map_err(|error| error.to_string())
}

/// What sealing gives under AES-256-GCM with no associated data: the
/// ciphertext with its tag, or nothing where sealing fails.
pub uninterp spec fn aes_gcm_sealed(key: Seq<u8>, nonce: Seq<u8>, plaintext: Seq<u8>) -> Option<Seq<u8>>;

/// What opening gives under AES-256-GCM with no associated data: the
/// plaintext, or nothing where the ciphertext does not authenticate.
pub uninterp spec fn aes_gcm_opened(key: Seq<u8>, nonce: Seq<u8>, ciphertext: Seq<u8>) -> Option<Seq<u8>>;

/// Calls `LessSafeKey::seal_in_place_append_tag` of `ring::aead` with an
/// AES-256-GCM key and no associated data. Claimed: the outcome is the named
/// result `aes_gcm_sealed`, and opening it with the same key and nonce gives
/// the plaintext back.
#[verifier::external_body]
fn aes_gcm_seal(key: &[u8; 32], nonce: [u8; 12], plaintext: &[u8]) -> (r: Option<Vec<u8>>)
    ensures
        match r {
            Some(c) => aes_gcm_sealed(key@, nonce@, plaintext@) == Some(c@) && aes_gcm_opened(key@, nonce@, c@) == Some(plaintext@),
            None => aes_gcm_sealed(key@, nonce@, plaintext@) is None,
        },
{
    let sealing = ring::aead::LessSafeKey::new(ring::aead::UnboundKey::new(&ring::aead::AES_256_GCM, key).ok()?);
    let mut in_out = plaintext.to_vec();
    let nonce = ring::aead::Nonce::assume_unique_for_key(nonce);
    sealing.seal_in_place_append_tag(nonce, ring::aead::Aad::empty(), &mut in_out).ok()?;
    Some(in_out)
}

/// Calls `LessSafeKey::open_in_place` of `ring::aead` with an AES-256-GCM
/// key and no associated data. Claimed: the outcome is the named result
/// `aes_gcm_opened`.
#[verifier::external_body]
fn aes_gcm_open(key: &[u8; 32], nonce: [u8; 12], ciphertext: &[u8]) -> (r: Option<Vec<u8>>)
    ensures
        match r {
            Some(p) => aes_gcm_opened(key@, nonce@, ciphertext@) == Some(p@),
            None => aes_gcm_opened(key@, nonce@, ciphertext@) is None,
        },
{
    let opening = ring::aead::LessSafeKey::new(ring::aead::UnboundKey::new(&ring::aead::AES_256_GCM, key).ok()?);
    let mut in_out = ciphertext.to_vec();
    let nonce = ring::aead::Nonce::assume_unique_for_key(nonce);
    let plain = opening.open_in_place(nonce, ring::aead::Aad::empty(), &mut in_out).ok()?;
    Some(plain.to_vec())
}

/// Calls `SecureRandom::fill` of `ring::rand::SystemRandom` on twelve
/// bytes. Nothing is claimed of the bytes.
#[verifier::external_body]
pub(crate) fn random_nonce() -> (r: Option<[u8; 12]>) {
    let mut nonce = [0u8; 12];
    ring::rand::SecureRandom::fill(&ring::rand::SystemRandom::new(), &mut nonce).ok()?;
    Some(nonce)
}

/// The rendered error of `String::from_utf8` for bytes that are not UTF-8.
pub uninterp spec fn utf8_error_text(bytes: Seq<u8>) -> Seq<char>;

/// Calls `String::from_utf8`. Claimed, as its documentation says: it
/// succeeds exactly on valid UTF-8, with the text those bytes encode; its
/// error renders as the named result `utf8_error_text`.
#[verifier::external_body]
fn string_from_utf8(bytes: Vec<u8>) -> (r: Result<String, String>)
    ensures
        match r {
            Ok(s) => valid_utf8(bytes@) && s@ == decode_utf8(bytes@),
            Err(e) => !valid_utf8(bytes@) && e@ == utf8_error_text(bytes@),
        },
{
    String::from_utf8(bytes).map_err(|error| error.to_string())
}

// ---------------------------------------------------------------------------
// Keys
// ---------------------------------------------------------------------------

/// A 32-byte AES-256 key.
#[derive(Debug, Clone, PartialEq, Eq)]
pub struct EncryptionKey {
    bytes: [u8; 32],
}

impl View for EncryptionKey {
    type V = Seq<u8>;

    closed spec fn view(&self) -> Seq<u8> {
        self.bytes@
    }
}

pub open spec fn key_length_message() -> Seq<char> {
    "encryption key must be 32 bytes or base64-encoded 32 bytes"@
}

/// A key from an environment value: the trimmed text itself when it is 32
/// bytes long, else the bytes its base64 decodes to, which must be 32.
pub open spec fn key_from_env(value: Seq<char>) -> Result<Seq<u8>, Seq<char>> {
    let t = trim(value);
    if encode_utf8(t).len() == 32 {
        Ok(encode_utf8(t))
    } else {
        match base64_decoded(t) {
            Err(e) => Err("encryption key must be 32 raw bytes or base64-encoded 32 bytes: "@ + e),
            Ok(d) => if d.len() == 32 { Ok(d) } else { Err(key_length_message()) },
        }
    }
}

impl EncryptionKey {
    pub fn from_bytes(bytes: [u8; 32]) -> (r: EncryptionKey)
        ensures
            r@ == bytes@,
    {
        EncryptionKey { bytes }
    }

    pub fn as_bytes(&self) -> (r: &[u8; 32])
        ensures
            r@ == self@,
    {
        &self.bytes
    }

    /// A key from exactly 32 bytes.
    pub fn from_slice(bytes: &[u8]) -> (r: Result<EncryptionKey, RbmemError>)
        ensures
            match r {
                Ok(k) => bytes@.len() == 32 && k@ == bytes@,
                Err(e) => bytes@.len() != 32 && e is Crypto && e->Crypto_0@ == key_length_message(),
            },
    {
        if bytes.len() != 32 {
            return Err(RbmemError::Crypto("encryption key must be 32 bytes or base64-encoded 32 bytes".to_owned()));
        }
        let mut a = [0u8; 32];
        let mut i: usize = 0;
        while i < 32
            invariant
                i <= 32,
                bytes@.len() == 32,
                forall|j: int| 0 <= j < i ==> a@[j] == bytes@[j],
            decreases 32 - i,
        {
            a[i] = bytes[i];
            i += 1;
        }
        assert(a@ =~= bytes@);
        Ok(EncryptionKey { bytes: a })
    }

    /// A key from the value of `RBMEM_ENCRYPTION_KEY` or a key file.
    pub fn from_env_value(value: &str) -> (r: Result<EncryptionKey, RbmemError>)
        ensures
            match (r, key_from_env(value@)) {
                (Ok(k), Ok(b)) => k@ == b,
                (Err(e), Err(m)) => e is Crypto && e->Crypto_0@ == m,
                _ => false,
            },
    {
        let t = string_of(&trimmed(&chars_of(value)));
        let tb = t.as_str().as_bytes();
        if tb.len() == 32 {
            return EncryptionKey::from_slice(tb);
        }
        match base64_decode(t.as_str()) {
            Err(error) => {
                let mut msg = String::new();
                msg.push_str("encryption key must be 32 raw bytes or base64-encoded 32 bytes: ");
                msg.push_str(error.as_str());
                Err(RbmemError::Crypto(msg))
            },
            Ok(decoded) => EncryptionKey::from_slice(decoded.as_slice()),
        }
    }
}

// ---------------------------------------------------------------------------
// Sealing and opening section contents
// ---------------------------------------------------------------------------

/// Opening a payload: both base64 fields decoded, a 12-byte nonce, the
/// ciphertext authenticated, and UTF-8 text inside.
pub open spec fn decrypted(p: EncryptedPayloadV, key: Seq<u8>) -> Result<Seq<char>, Seq<char>> {
    match base64_decoded(p.nonce) {
        Err(e) => Err("invalid encrypted section nonce: "@ + e),
        Ok(n) => if n.len() != 12 {
            Err("encrypted section nonce must be 12 bytes"@)
        } else {
            match base64_decoded(p.ciphertext) {
                Err(e) => Err("invalid encrypted section ciphertext: "@ + e),
                Ok(c) => match aes_gcm_opened(key, n, c) {
                    None => Err("failed to decrypt section"@),
                    Some(b) => if valid_utf8(b) {
                        Ok(decode_utf8(b))
                    } else {
                        Err("decrypted section is not UTF-8: "@ + utf8_error_text(b))
                    },
                },
            }
        },
    }
}

/// Seals a text under the key with the given nonce: the payload holds the
/// nonce and the sealed bytes as base64 text and the given time; where
/// sealing fails, the error says so.
pub fn seal_with_nonce(plaintext: &str, key: &EncryptionKey, nonce: [u8; 12], encrypted_at: Timestamp) -> (r: Result<
    EncryptedPayload,
    RbmemError,
>)
    ensures
        match aes_gcm_sealed(key@, nonce@, encode_utf8(plaintext@)) {
            Some(c) => r is Ok && r->Ok_0@.nonce == base64_text(nonce@) && r->Ok_0@.ciphertext == base64_text(c)
                && r->Ok_0@.encrypted_at == encrypted_at && decrypted(r->Ok_0@, key@) == Ok::<Seq<char>, Seq<char>>(
                plaintext@,
            ),
            None => r is Err && r->Err_0 is Crypto && r->Err_0->Crypto_0@ == "failed to encrypt section"@,
        },
{
    let bytes = plaintext.as_bytes();
    let sealed = match aes_gcm_seal(&key.bytes, nonce, bytes) {
        Some(c) => c,
        None => {
            return Err(RbmemError::Crypto("failed to encrypt section".to_owned()));
        },
    };
    let nonce_text = base64_encode(nonce.as_slice());
    let cipher_text = base64_encode(sealed.as_slice());
    proof {
        vstd::utf8::encode_utf8_decode_utf8(plaintext@);
        vstd::utf8::encode_utf8_valid_utf8(plaintext@);
    }
    let p = EncryptedPayload { nonce: nonce_text, ciphertext: cipher_text, encrypted_at };
    assert(p@.nonce == base64_text(nonce@));
    assert(p@.ciphertext == base64_text(sealed@));
    Ok(p)
}

/// Seals a text under the key with a fresh random nonce. What comes back
/// opens to the text again under the same key. It fails where no random
/// nonce can be had, or where sealing under the drawn nonce fails.
pub fn encrypt_content(plaintext: &str, key: &EncryptionKey, encrypted_at: Timestamp) -> (r: Result<EncryptedPayload, RbmemError>)
    ensures
        match r {
            Ok(p) => {
                &&& p@.encrypted_at == encrypted_at
                &&& decrypted(p@, key@) == Ok::<Seq<char>, Seq<char>>(plaintext@)
                &&& exists|n: Seq<u8>, c: Seq<u8>| #![trigger base64_text(n), base64_text(c)] n.len() == 12
                    && aes_gcm_sealed(key@, n, encode_utf8(plaintext@)) == Some(c) && p@.nonce == base64_text(n)
                    && p@.ciphertext == base64_text(c)
            },
            Err(e) => e is Crypto && (e->Crypto_0@ == "failed to generate encryption nonce"@ || (e->Crypto_0@
                == "failed to encrypt section"@ && exists|n: Seq<u8>|
                n.len() == 12 && (#[trigger] aes_gcm_sealed(key@, n, encode_utf8(plaintext@))) is None)),
        },
{
    let nonce = match random_nonce() {
        Some(n) => n,
        None => {
            return Err(RbmemError::Crypto("failed to generate encryption nonce".to_owned()));
        },
    };
    let r = seal_with_nonce(plaintext, key, nonce, encrypted_at);
    proof {
        assert(nonce@.len() == 12);
        match aes_gcm_sealed(key@, nonce@, encode_utf8(plaintext@)) {
            Some(c) => {
                assert(base64_text(nonce@) == r->Ok_0@.nonce && base64_text(c) == r->Ok_0@.ciphertext);
            },
            None => {},
        }
    }
    r
}

/// Opens an encrypted payload under the key.
pub fn decrypt_content(payload: &EncryptedPayload, key: &EncryptionKey) -> (r: Result<String, RbmemError>)
    ensures
        match (r, decrypted(payload@, key@)) {
            (Ok(s), Ok(t)) => s@ == t,
            (Err(e), Err(m)) => e is Crypto && e->Crypto_0@ == m,
            _ => false,
        },
{
    let nonce_bytes = match base64_decode(payload.nonce.as_str()) {
        Ok(b) => b,
        Err(error) => {
            let mut msg = String::new();
            msg.push_str("invalid encrypted section nonce: ");
            msg.push_str(error.as_str());
            return Err(RbmemError::Crypto(msg));
        },
    };
    if nonce_bytes.len() != 12 {
        return Err(RbmemError::Crypto("encrypted section nonce must be 12 bytes".to_owned()));
    }
    let mut nonce = [0u8; 12];
    let mut i: usize = 0;
    while i < 12
        invariant
            i <= 12,
            nonce_bytes@.len() == 12,
            forall|j: int| 0 <= j < i ==> nonce@[j] == nonce_bytes@[j],
        decreases 12 - i,
    {
        nonce[i] = nonce_bytes[i];
        i += 1;
    }
    assert(nonce@ =~= nonce_bytes@);
    let cipher = match base64_decode(payload.ciphertext.as_str()) {
        Ok(b) => b,
        Err(error) => {
            let mut msg = String::new();
            msg.push_str("invalid encrypted section ciphertext: ");
            msg.push_str(error.as_str());
            return Err(RbmemError::Crypto(msg));
        },
    };
    let plain = match aes_gcm_open(&key.bytes, nonce, cipher.as_slice()) {
        Some(p) => p,
        None => {
            return Err(RbmemError::Crypto("failed to decrypt section".to_owned()));
        },
    };
    match string_from_utf8(plain) {
        Ok(s) => Ok(s),
        Err(error) => {
            let mut msg = String::new();
            msg.push_str("decrypted section is not UTF-8: ");
            msg.push_str(error.as_str());
            Err(RbmemError::Crypto(msg))
        },
    }
}

/// Sealing then opening under one key gives the text back: whatever payload
/// `encrypt_content` returns, `decrypt_content` opens it to the text.
pub proof fn lemma_encryption_round_trip(plaintext: Seq<char>, key: Seq<u8>, n: Seq<u8>, c: Seq<u8>)
    requires
        n.len() == 12,
        aes_gcm_opened(key, n, c) == Some(encode_utf8(plaintext)),
        base64_decoded(base64_text(n)) == Ok::<Seq<u8>, Seq<char>>(n),
        base64_decoded(base64_text(c)) == Ok::<Seq<u8>, Seq<char>>(c),
    ensures
        forall|t: Timestamp| #[trigger] decrypted(EncryptedPayloadV { nonce: base64_text(n), ciphertext: base64_text(c), encrypted_at: t }, key)
            == Ok::<Seq<char>, Seq<char>>(plaintext),
{
    vstd::utf8::encode_utf8_decode_utf8(plaintext);
    vstd::utf8::encode_utf8_valid_utf8(plaintext);
}

} // verus!
