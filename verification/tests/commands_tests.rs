use rbmem::commands::{
    apply_update, clear_guard, commit_reviews, count_conflicts, count_orphaned_edges, count_stale,
    created_document, decrypt_section_in, document_is_valid, encrypt_section_in, guards_content,
    parse_u64_text, prepare_encrypted_sections, remove_section, render_read_document,
    render_resolved_sections, review_document, set_guard, should_flag, store_guards, GuardConstraint,
};
use rbmem::crypto::EncryptionKey;
use rbmem::document::{GraphInfo, GraphRelation, RbmemDocument, RbmemError, Section, SectionType, SourceInfo};
use rbmem::report::memory_file_name;
use rbmem::time::{plus_days, read_time, Timestamp};

fn now() -> Timestamp {
    read_time("2026-05-07T12:00:00Z").unwrap()
}

fn relation(to: &str, inferred: bool) -> GraphRelation {
    GraphRelation {
        to: to.to_string(),
        relation_type: "uses".to_string(),
        valid_from: None,
        valid_until: None,
        inferred,
        confidence: None,
    }
}

fn source(kind: &str) -> SourceInfo {
    SourceInfo { kind: kind.to_string(), path: None, actor: None, hash: None }
}

#[test]
fn delete_section_drops_the_section_and_relations_to_it() {
    let t = now();
    let mut doc = RbmemDocument::new(t, "me");
    doc.upsert_section("a", SectionType::Text, "A".to_string(), t);
    doc.upsert_section("b", SectionType::Text, "B".to_string(), t);
    doc.sections[0].graph = Some(GraphInfo { node_type: None, relations: vec![relation("b", false), relation("c", false)] });
    let later = plus_days(&t, 1);

    remove_section(&mut doc, "b", later).unwrap();

    assert_eq!(doc.sections.len(), 1);
    assert_eq!(doc.sections[0].path, "a");
    let relations = &doc.sections[0].graph.as_ref().unwrap().relations;
    assert_eq!(relations.len(), 1);
    assert_eq!(relations[0].to, "c");
    assert_eq!(doc.meta.last_updated, later);
}

#[test]
fn delete_missing_section_is_a_parse_error_and_changes_nothing() {
    let t = now();
    let mut doc = RbmemDocument::new(t, "me");
    doc.upsert_section("a", SectionType::Text, "A".to_string(), t);
    let before = doc.clone();

    let error = remove_section(&mut doc, "missing", plus_days(&t, 1)).unwrap_err();

    assert_eq!(error, RbmemError::Parse("section 'missing' not found".to_string()));
    assert_eq!(doc, before);
}

#[test]
fn update_records_cli_source_and_reads_back() {
    let t = now();
    let mut doc = created_document(t, "me", "notes", Some(30));
    assert_eq!(doc.meta.purpose, "notes");
    assert_eq!(doc.meta.default_expiry_days, Some(30));

    apply_update(&mut doc, "rules", SectionType::List, "- first".to_string(), "alice", t);
    apply_update(&mut doc, "rules", SectionType::List, "- second".to_string(), "bob", t);
    apply_update(&mut doc, "note", SectionType::Text, "old".to_string(), "alice", t);
    apply_update(&mut doc, "note", SectionType::Text, "new".to_string(), "alice", t);

    let rules = doc.sections.iter().find(|s| s.path == "rules").unwrap();
    assert_eq!(rules.content, "- first\n- second");
    let src = rules.source.as_ref().unwrap();
    assert_eq!(src.kind, "cli");
    assert_eq!(src.actor.as_deref(), Some("bob"));
    let note = doc.sections.iter().find(|s| s.path == "note").unwrap();
    assert_eq!(note.content, "new");
    assert_eq!(note.temporal.updated_at, t);
    assert_eq!(note.temporal.expires_at, Some(plus_days(&t, 30)));
}

#[test]
fn encrypt_then_decrypt_section_restores_content() {
    let t = now();
    let key = EncryptionKey::from_bytes([3u8; 32]);
    let mut doc = RbmemDocument::new(t, "me");
    doc.upsert_section("secret", SectionType::Text, "the phrase".to_string(), t);

    assert_eq!(encrypt_section_in(&mut doc, "secret", &key, t), Ok(true));
    assert_eq!(doc.sections[0].section_type, SectionType::Encrypted);
    assert_eq!(doc.sections[0].content, "");
    assert!(doc.sections[0].encrypted.is_some());
    assert_eq!(encrypt_section_in(&mut doc, "secret", &key, t), Ok(false));

    decrypt_section_in(&mut doc, "secret", &key, t).unwrap();
    assert_eq!(doc.sections[0].content, "the phrase");
    assert_eq!(doc.sections[0].section_type, SectionType::Text);
    assert!(doc.sections[0].encrypted.is_none());
}

#[test]
fn encrypt_and_decrypt_report_missing_and_plain_sections() {
    let t = now();
    let key = EncryptionKey::from_bytes([3u8; 32]);
    let mut doc = RbmemDocument::new(t, "me");
    doc.upsert_section("plain", SectionType::Text, "x".to_string(), t);

    assert_eq!(
        encrypt_section_in(&mut doc, "nope", &key, t),
        Err(RbmemError::NotFound("section 'nope' not found".to_string()))
    );
    assert_eq!(
        decrypt_section_in(&mut doc, "nope", &key, t),
        Err(RbmemError::NotFound("section 'nope' not found".to_string()))
    );
    assert_eq!(
        decrypt_section_in(&mut doc, "plain", &key, t),
        Err(RbmemError::Parse("section 'plain' is not encrypted".to_string()))
    );
}

#[test]
fn decrypting_with_the_wrong_key_is_a_crypto_error() {
    let t = now();
    let key = EncryptionKey::from_bytes([3u8; 32]);
    let wrong = EncryptionKey::from_bytes([4u8; 32]);
    let mut doc = RbmemDocument::new(t, "me");
    doc.upsert_section("secret", SectionType::Text, "x".to_string(), t);
    encrypt_section_in(&mut doc, "secret", &key, t).unwrap();
    let before = doc.clone();

    let error = decrypt_section_in(&mut doc, "secret", &wrong, t).unwrap_err();
    assert!(matches!(error, RbmemError::Crypto(_)));
    assert_eq!(doc, before);
}

#[test]
fn reading_hides_or_opens_encrypted_sections() {
    let t = now();
    let key = EncryptionKey::from_bytes([5u8; 32]);
    let mut doc = RbmemDocument::new(t, "me");
    doc.upsert_section("open", SectionType::Text, "visible".to_string(), t);
    doc.upsert_section("secret", SectionType::Text, "hidden".to_string(), t);
    encrypt_section_in(&mut doc, "secret", &key, t).unwrap();

    let hidden = prepare_encrypted_sections(doc.clone(), None).unwrap();
    assert_eq!(hidden.sections.len(), 1);
    assert_eq!(hidden.sections[0].path, "open");

    let opened = prepare_encrypted_sections(doc.clone(), Some(&key)).unwrap();
    let secret = opened.sections.iter().find(|s| s.path == "secret").unwrap();
    assert_eq!(secret.content, "hidden");
    assert_eq!(secret.section_type, SectionType::Text);

    let mut broken = doc.clone();
    broken.sections.iter_mut().find(|s| s.path == "secret").unwrap().encrypted = None;
    assert_eq!(
        prepare_encrypted_sections(broken, Some(&key)).unwrap_err(),
        RbmemError::Crypto("encrypted section 'secret' is missing encrypted payload fields".to_string())
    );
}

#[test]
fn read_rendering_follows_the_flags() {
    let t = now();
    let mut doc = RbmemDocument::new(t, "me");
    doc.upsert_section("prefs", SectionType::List, "- coffee".to_string(), t);
    doc.upsert_section("prefs.morning", SectionType::List, "- tea".to_string(), t);
    assert!(document_is_valid(&doc));

    let resolved = render_read_document(&doc, true, false, false, false, t);
    assert_eq!(resolved, render_resolved_sections(&doc));
    assert!(resolved.contains("[prefs.morning] type=list\n- coffee\n- tea\n\n"));
    assert_eq!(render_read_document(&doc, false, false, false, false, t), doc.to_rbmem_string());
    assert_eq!(render_read_document(&doc, false, false, true, false, t), doc.to_minified_string(false));
    assert_eq!(render_read_document(&doc, false, true, false, false, t), doc.to_compact_string(false, t));
    assert_eq!(
        render_read_document(&doc, false, false, false, true, t),
        doc.to_rbmem_string_hiding_empty_temporal()
    );
}

#[test]
fn invalid_instants_are_reported() {
    let t = now();
    let mut doc = RbmemDocument::new(t, "me");
    doc.upsert_section("a", SectionType::Text, "A".to_string(), t);
    assert!(document_is_valid(&doc));
    doc.sections[0].temporal.updated_at = Timestamp { secs: i64::MAX, nanos: 0 };
    assert!(!document_is_valid(&doc));
}

#[test]
fn health_counts_orphans_conflicts_and_stale_sections() {
    let t = now();
    let mut doc = RbmemDocument::new(t, "me");
    doc.upsert_section("a", SectionType::Text, "A".to_string(), t);
    doc.sections[0].graph = Some(GraphInfo { node_type: None, relations: vec![relation("a", false), relation("gone", false)] });
    let mut dup1 = Section::new("dup", SectionType::Text, t);
    dup1.content = "one".to_string();
    let mut dup2 = Section::new("dup", SectionType::Text, t);
    dup2.content = "two".to_string();
    let mut dup3 = Section::new("dup", SectionType::Text, t);
    dup3.content = "one".to_string();
    doc.sections.push(dup1);
    doc.sections.push(dup2);
    doc.sections.push(dup3);
    let mut old = Section::new("old", SectionType::Text, plus_days(&t, -40));
    old.content = "stale".to_string();
    doc.sections.push(old);

    assert_eq!(count_orphaned_edges(&doc), 1);
    assert_eq!(count_conflicts(&doc), 2);
    assert_eq!(count_stale(&doc, t, 30), 1);
    assert_eq!(count_stale(&doc, t, 50), 0);
}

#[test]
fn u64_text_parses_as_std_does() {
    assert_eq!(parse_u64_text("42"), Ok(42));
    assert_eq!(parse_u64_text("+7"), Ok(7));
    assert_eq!(parse_u64_text("18446744073709551615"), Ok(u64::MAX));
    assert_eq!(
        parse_u64_text(""),
        Err(RbmemError::Parse("cannot parse integer from empty string".to_string()))
    );
    assert_eq!(parse_u64_text("+"), Err(RbmemError::Parse("invalid digit found in string".to_string())));
    assert_eq!(parse_u64_text("-1"), Err(RbmemError::Parse("invalid digit found in string".to_string())));
    assert_eq!(parse_u64_text("12a"), Err(RbmemError::Parse("invalid digit found in string".to_string())));
    assert_eq!(
        parse_u64_text("18446744073709551616"),
        Err(RbmemError::Parse("number too large to fit in target type".to_string()))
    );
    for text in ["0", "+1", "99999999999999999999x", "x9", "007"] {
        let ours = parse_u64_text(text);
        match text.parse::<u64>() {
            Ok(n) => assert_eq!(ours, Ok(n)),
            Err(e) => assert_eq!(ours, Err(RbmemError::Parse(e.to_string()))),
        }
    }
}

#[test]
fn guards_are_set_cleared_and_stored() {
    let mut guards = GuardConstraint::default();
    set_guard(&mut guards, "max-tokens", "500").unwrap();
    set_guard(&mut guards, "output-validation", "json").unwrap();
    assert_eq!(guards.max_tokens, Some(500));
    assert_eq!(guards.output_validation.as_deref(), Some("json"));
    assert_eq!(
        set_guard(&mut guards, "max-retries", "many"),
        Err(RbmemError::Parse("invalid digit found in string".to_string()))
    );
    assert_eq!(guards.max_retries, None);
    assert_eq!(
        set_guard(&mut guards, "speed", "1"),
        Err(RbmemError::Parse("unknown guard type: speed".to_string()))
    );
    clear_guard(&mut guards, "max-tokens").unwrap();
    assert_eq!(guards.max_tokens, None);
    assert_eq!(clear_guard(&mut guards, "nope"), Err(RbmemError::Parse("unknown guard type: nope".to_string())));

    let t = now();
    let mut doc = RbmemDocument::new(t, "me");
    assert_eq!(guards_content(&doc), Err(RbmemError::Parse("no guards section found".to_string())));
    doc.upsert_section("limits", SectionType::Guards, "{}".to_string(), t);
    store_guards(&mut doc, "{\"max_tokens\":5}".to_string(), t, true).unwrap();
    assert_eq!(guards_content(&doc).unwrap(), "{\"max_tokens\":5}");
    let src = doc.sections[0].source.as_ref().unwrap();
    assert_eq!(src.kind, "cli");
    assert_eq!(src.actor.as_deref(), Some("user"));
}

#[test]
fn review_round_trip_commits_flagged_sections() {
    let t = now();
    let mut doc = RbmemDocument::new(t, "me");
    doc.upsert_section("agent.note", SectionType::List, "- from agent".to_string(), t);
    doc.upsert_section("sync.note", SectionType::Text, "from sync".to_string(), t);
    doc.upsert_section("plain", SectionType::Text, "no source".to_string(), t);
    doc.sections[0].source = Some(source("agent"));
    doc.sections[1].source = Some(source("sync"));
    assert!(should_flag(&doc.sections[0]));
    assert!(!should_flag(&doc.sections[1]));
    assert!(!should_flag(&doc.sections[2]));

    let (pending, review) = review_document(&doc, t);
    assert_eq!(pending.len(), 1);
    assert_eq!(review.sections.len(), 1);
    assert_eq!(review.sections[0].section_type, SectionType::Review);
    assert_eq!(review.sections[0].content, "[REVIEW] type=list\n- from agent\n");
    assert_eq!(review.meta.created_by, "review");

    let mut target = RbmemDocument::new(t, "me");
    assert_eq!(commit_reviews(&review, &mut target, t), 1);
    assert_eq!(target.sections[0].path, "agent.note");
    assert_eq!(target.sections[0].section_type, SectionType::List);
    // The entry has no "]" directly before a newline, so nothing follows it.
    assert_eq!(target.sections[0].content, "");
}

#[test]
fn memory_names_are_single_file_names() {
    assert_eq!(memory_file_name("notes").unwrap(), "notes.rbmem");
    assert_eq!(memory_file_name(" notes.rbmem ").unwrap(), "notes.rbmem");
    assert_eq!(memory_file_name("").unwrap_err(), RbmemError::Parse("memory name must not be empty".to_string()));
    for bad in ["../etc", "/abs", "a/b", "..", ".", "notes/", "notes/.", "a\\b"] {
        assert_eq!(
            memory_file_name(bad).unwrap_err(),
            RbmemError::Parse(format!("invalid memory name '{bad}': must be a single filename without path separators"))
        );
    }
}
