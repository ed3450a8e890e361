use rbmem::diff::{diff_documents_typed, merge_documents, render_diff_text, MergeStrategy};
use rbmem::document::{GraphInfo, GraphRelation, RbmemDocument, SectionType};
use rbmem::export::{export_gexf, export_mermaid};
use rbmem::index::SectionIndex;
use rbmem::time::{read_time, Timestamp};

fn merge_time() -> Timestamp {
    read_time("2026-05-07T13:00:00Z").unwrap()
}

#[test]
fn typed_diff_renders_json_and_text() {
    let now = merge_time();
    let mut before = RbmemDocument::new(now, "me");
    before.upsert_section("rules", SectionType::Text, "old".to_string(), now);

    let mut after = before.clone();
    after.upsert_section("rules", SectionType::Text, "new".to_string(), now);
    after.upsert_section("memory", SectionType::Text, "added".to_string(), now);

    let diff = diff_documents_typed(&before, &after);
    let text = render_diff_text(&diff);
    assert!(text.contains("added: memory"));
    assert!(text.contains("changed content: rules"));

    assert_eq!(diff.schema, "rbmem.diff.v1");
    assert!(diff.changes.iter().any(|change| change.path == "memory"));
}

#[test]
fn three_way_merge_auto_resolves_theirs_when_local_matches_base() {
    let now = merge_time();
    let mut base = RbmemDocument::new(now, "me");
    base.upsert_section("rules", SectionType::Text, "base".to_string(), now);
    let local = base.clone();
    let mut remote = base.clone();
    remote.upsert_section("rules", SectionType::Text, "remote".to_string(), now);

    let merged = merge_documents(&base, &local, &remote, MergeStrategy::Manual, now);
    let section = merged.sections.iter().find(|section| section.path == "rules").unwrap();

    assert_eq!(section.content, "remote");
    assert_eq!(section.section_type, SectionType::Text);
}

#[test]
fn three_way_merge_manual_emits_conflict_section_for_true_conflict() {
    let now = merge_time();
    let mut base = RbmemDocument::new(now, "me");
    base.upsert_section("rules", SectionType::Text, "base".to_string(), now);
    let mut local = base.clone();
    local.upsert_section("rules", SectionType::Text, "local".to_string(), now);
    let mut remote = base.clone();
    remote.upsert_section("rules", SectionType::Text, "remote".to_string(), now);

    let merged = merge_documents(&base, &local, &remote, MergeStrategy::Manual, now);
    let section = merged.sections.iter().find(|section| section.path == "rules").unwrap();

    assert_eq!(section.section_type, SectionType::Conflict);
    assert!(section.content.contains("local_version:"));
    assert!(section.content.contains("remote_version:"));
}

#[test]
fn exports_graph_visualization_formats() {
    let now = read_time("2026-05-07T14:00:00Z").unwrap();
    let mut document = RbmemDocument::new(now, "me");
    document.upsert_section("agents.reader", SectionType::Text, "Reader.".to_string(), now);
    document.upsert_section("agents.writer", SectionType::Text, "Writer.".to_string(), now);

    let mermaid = export_mermaid(&document);
    assert!(mermaid.contains("graph TD"));
    assert!(mermaid.contains("agents.reader"));

    let gexf = export_gexf(&document);
    assert!(gexf.contains("<gexf"));
    assert!(gexf.contains("<edges>"));
}

#[test]
fn index_finds_keywords_prefixes_and_related_sections() {
    let now = read_time("2026-05-07T13:30:00Z").unwrap();
    let mut document = RbmemDocument::new(now, "me");
    document.upsert_section("agents.reader", SectionType::Text, "Performs careful github review.".to_string(), now);
    document.upsert_section("agents.writer", SectionType::Text, "Writes summaries.".to_string(), now);
    document.upsert_section("memory.testing", SectionType::Text, "Run tests.".to_string(), now);
    document.sections[0].graph = Some(GraphInfo {
        node_type: None,
        relations: vec![GraphRelation {
            to: "memory.testing".to_string(),
            relation_type: "depends_on".to_string(),
            valid_from: Some(now),
            valid_until: None,
            inferred: false,
            confidence: None,
        }],
    });

    let index = SectionIndex::build(&document);

    assert_eq!(index.keyword("github"), vec!["agents.reader"]);
    assert_eq!(index.prefix("agents.*"), vec!["agents.reader", "agents.writer"]);
    assert_eq!(index.related("agents.reader", 1), vec!["memory.testing"]);
}

#[test]
fn related_lookup_follows_relations_both_ways() {
    let now = read_time("2026-05-07T13:30:00Z").unwrap();
    let mut document = RbmemDocument::new(now, "me");
    document.upsert_section("agents.reader", SectionType::Text, "Reads.".to_string(), now);
    document.upsert_section("memory.testing", SectionType::Text, "Run tests.".to_string(), now);
    document.sections[0].graph = Some(GraphInfo {
        node_type: None,
        relations: vec![GraphRelation {
            to: "memory.testing".to_string(),
            relation_type: "depends_on".to_string(),
            valid_from: None,
            valid_until: None,
            inferred: false,
            confidence: None,
        }],
    });
    let index = SectionIndex::build(&document);
    assert!(index.related("agents.reader", 0).is_empty());
    assert_eq!(index.related("memory.testing", 1), vec!["agents.reader"]);
    assert_eq!(index.related("memory.testing", 3), vec!["agents.reader"]);
}

#[test]
fn related_lookup_follows_dotted_parents_both_ways() {
    let now = read_time("2026-05-07T13:30:00Z").unwrap();
    let mut document = RbmemDocument::new(now, "me");
    document.upsert_section("agents", SectionType::Text, "All agents.".to_string(), now);
    document.upsert_section("agents.reader", SectionType::Text, "Reads.".to_string(), now);
    let index = SectionIndex::build(&document);
    assert_eq!(index.related("agents.reader", 1), vec!["agents"]);
    assert_eq!(index.related("agents", 1), vec!["agents.reader"]);
}
