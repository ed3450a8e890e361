use rbmem::commands::review_report;
use rbmem::diff::{diff_documents, diff_documents_typed, render_diff_text};
use rbmem::document::{CompactMode, GraphInfo, GraphRelation, RbmemDocument, SectionType, SourceInfo};
use rbmem::hermes::{apply_hermes_payload, hermes_starter_document, HermesPayload, HermesSectionPatch, HermesWriteMode};
use rbmem::markdown::convert_markdown_to_rbmem;
use rbmem::pack::{pack_document, parse_pack_config};
use rbmem::time::{read_time, Timestamp};

fn fixed_time() -> Timestamp {
    read_time("2026-04-27T13:10:00Z").unwrap()
}

#[test]
fn markdown_converter_preserves_heading_hierarchy() {
    let document = convert_markdown_to_rbmem(
        r#"# Agents
Root body.

## Reader
Reader body.

### Capabilities
Uses Writer.

## Writer
Writer body.
"#,
        fixed_time(),
    );

    let paths = document.sections.iter().map(|section| section.path.as_str()).collect::<Vec<_>>();

    assert_eq!(paths, vec!["agents", "agents.reader", "agents.reader.capabilities", "agents.writer"]);
}

#[test]
fn markdown_heading_words_stay_inside_one_path_segment() {
    let document = convert_markdown_to_rbmem(
        r#"# Inhibition of Return

## How It Works

### Theoretical Mechanisms
Body.
"#,
        fixed_time(),
    );

    let paths = document.sections.iter().map(|section| section.path.as_str()).collect::<Vec<_>>();

    assert_eq!(paths, vec!["inhibition.of.return.how.it.works.theoretical.mechanisms"]);
}

#[test]
fn markdown_converter_preserves_frontmatter_as_meta_section() {
    let document = convert_markdown_to_rbmem(
        r#"---
title: Test
---

# Agents
Body.
"#,
        fixed_time(),
    );

    let meta = document.sections.iter().find(|section| section.path == "meta.markdown").unwrap();

    assert!(meta.content.contains("title: Test"));
}

#[test]
fn hermes_starter_has_standard_sections() {
    let document = hermes_starter_document("Demo Project", fixed_time());
    let paths = document.sections.iter().map(|section| section.path.as_str()).collect::<Vec<_>>();

    assert!(paths.contains(&"goals"));
    assert!(paths.contains(&"rules"));
    assert!(paths.contains(&"memory"));
    assert!(paths.contains(&"tasks"));
    assert!(paths.contains(&"architecture"));
    assert!(paths.contains(&"timeline"));
    assert!(paths.contains(&"graph"));
    assert!(document.sections.iter().any(|section| section.section_type == SectionType::HermesMemory));
}

#[test]
fn main_diff_reports_added_and_changed_sections() {
    let now = fixed_time();
    let mut before = RbmemDocument::new(now, "me");
    before.upsert_section("rules", SectionType::Text, "old".to_string(), now);

    let mut after = before.clone();
    after.upsert_section("rules", SectionType::Text, "new".to_string(), now);
    after.upsert_section("memory", SectionType::Text, "added".to_string(), now);

    let diff = render_diff_text(&diff_documents_typed(&before, &after));

    assert!(diff.contains("added: memory"));
    assert!(diff.contains("changed content: rules"));
}

#[test]
fn commands_diff_reports_added_and_changed_sections() {
    let now = read_time("2026-05-07T12:00:00Z").unwrap();
    let mut before = RbmemDocument::new(now, "me");
    before.upsert_section("rules", SectionType::Text, "old".to_string(), now);

    let mut after = before.clone();
    after.upsert_section("rules", SectionType::Text, "new".to_string(), now);
    after.upsert_section("memory", SectionType::Text, "added".to_string(), now);

    let diff = diff_documents(&before, &after);

    assert!(diff.contains("added: memory"));
    assert!(diff.contains("changed content: rules"));
}

#[test]
fn review_flags_hermes_sources_and_inferred_edges() {
    let now = fixed_time();
    let mut document = RbmemDocument::new(now, "me");
    document.upsert_section("memory", SectionType::HermesMemory, "- fact".to_string(), now);
    let memory = document.sections.iter_mut().find(|section| section.path == "memory").unwrap();
    memory.source = Some(SourceInfo {
        kind: "hermes".to_string(),
        path: None,
        actor: Some("hermes".to_string()),
        hash: None,
    });
    memory.graph = Some(GraphInfo {
        node_type: None,
        relations: vec![GraphRelation {
            to: "rules".to_string(),
            relation_type: "references".to_string(),
            valid_from: Some(now),
            valid_until: None,
            inferred: true,
            confidence: Some(72),
        }],
    });

    let review = review_report(&document, Vec::new());

    assert!(review.contains("review source: memory from hermes"));
    assert!(review.contains("review inferred edge: memory -> rules"));
}

#[test]
fn pack_config_selects_includes_query_and_mode() {
    let now = fixed_time();
    let mut document = RbmemDocument::new(now, "me");
    document.upsert_section("rules", SectionType::List, "- Base rule".to_string(), now);
    document.upsert_section("rules.review", SectionType::Text, "Review pull requests.".to_string(), now);
    document.upsert_section("memory.testing", SectionType::Text, "Run Rust tests.".to_string(), now);

    let pack = parse_pack_config(
        r#"[pack: code_review]
include:
  - rules
query: "Rust tests"
graph_depth: 0
mode: minified

[pack: other]
include:
  - memory
"#,
        "code_review",
    )
    .unwrap();
    assert_eq!(pack.query.as_deref(), Some("Rust tests"));
    // What the query "Rust tests" selects in this document.
    let query_paths = vec!["memory.testing".to_string()];
    let context = pack_document(&document, &pack, true, None, &query_paths);
    let paths = context.sections.iter().map(|section| section.path.as_str()).collect::<Vec<_>>();

    assert_eq!(paths, vec!["memory.testing", "rules", "rules.review"]);
    assert_eq!(pack.mode, Some(CompactMode::Minified));
}

fn memory_patch(content: &str, mode: HermesWriteMode) -> HermesPayload {
    HermesPayload {
        sections: vec![HermesSectionPatch {
            path: "memory".to_string(),
            section_type: "hermes:memory".to_string(),
            content: content.to_string(),
            mode,
            source: None,
        }],
    }
}

#[test]
fn hermes_save_payload_appends_hermes_memory() {
    let now = fixed_time();
    let mut document = hermes_starter_document("Demo Project", now);
    let payload = memory_patch("- User prefers compact context.", HermesWriteMode::Auto);

    apply_hermes_payload(&mut document, payload, now).unwrap();
    apply_hermes_payload(&mut document, memory_patch("- User prefers compact context.", HermesWriteMode::Auto), now)
        .unwrap();

    let memory = document.sections.iter().find(|section| section.path == "memory").unwrap();
    assert_eq!(memory.content.matches("User prefers compact context").count(), 1);
    assert_eq!(memory.section_type, SectionType::HermesMemory);
}

#[test]
fn hermes_save_rejects_replace_for_append_only_memory() {
    let now = fixed_time();
    let mut document = hermes_starter_document("Demo Project", now);
    let payload = memory_patch("replacement", HermesWriteMode::Replace);

    let error = apply_hermes_payload(&mut document, payload, now).unwrap_err();

    assert!(format!("{:?}", error).contains("append-only"));
}
