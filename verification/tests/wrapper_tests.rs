use base64::engine::general_purpose::STANDARD;
use base64::Engine;
use rbmem::crypto::{encrypt_content, EncryptionKey};
use rbmem::document::{RbmemDocument, SectionType};
use rbmem::steps::plan_slug_exec;
use rbmem::sync::source_info;
use rbmem::time::{read_time, Timestamp};

fn now() -> Timestamp {
    read_time("2026-05-07T12:00:00Z").unwrap()
}

#[test]
fn ciphertext_is_sealed_not_copied() {
    let key = EncryptionKey::from_bytes([1u8; 32]);
    let payload = encrypt_content("secret", &key, now()).unwrap();
    let sealed = STANDARD.decode(&payload.ciphertext).unwrap();
    assert_eq!(sealed.len(), "secret".len() + 16);
    assert_ne!(&sealed[..6], b"secret");
    assert_eq!(STANDARD.decode(&payload.nonce).unwrap().len(), 12);
}

#[test]
fn source_hash_is_sha256_of_the_text() {
    let info = source_info("markdown", None, "sync", Some("abc"));
    assert_eq!(
        info.hash.as_deref(),
        Some("sha256:ba7816bf8f01cfea414140de5dae2223b00361a396177a9cb410ff61f20015ad")
    );
    assert_eq!(info.actor.as_deref(), Some("sync"));
}

#[test]
fn invalid_json_sections_are_reported() {
    let t = now();
    let mut doc = RbmemDocument::new(t, "me");
    doc.upsert_section("cfg", SectionType::Json, "{\"a\":".to_string(), t);
    let warnings = doc.validate();
    assert!(warnings.iter().any(|w| w.starts_with("section 'cfg' is type json but content is not valid JSON: ")));
    doc.upsert_section("cfg", SectionType::Json, "{\"a\":1}".to_string(), t);
    assert!(doc.validate().is_empty());
}

#[test]
fn written_times_are_rfc3339() {
    let t = now();
    let doc = RbmemDocument::new(t, "me");
    let text = doc.to_rbmem_string();
    assert!(text.contains("2026-05-07T12:00:00+00:00"));
}

#[test]
fn plan_slug_ends_with_the_compact_time() {
    assert_eq!(plan_slug_exec("Deploy the release now", &now()), "deploy-the-release-now-20260507120000");
    assert_eq!(plan_slug_exec("", &now()), "goal-20260507120000");
}

#[test]
fn leap_second_instants_are_kept() {
    let t = rbmem::time::read_time("2016-12-31T23:59:60Z").unwrap();
    assert_eq!(t.secs, 1483228799);
    assert_eq!(t.nanos, 1_000_000_000);
    assert!(rbmem::time::read_time("2016-12-31T23:59:59.5Z").unwrap().nanos == 500_000_000);
}
