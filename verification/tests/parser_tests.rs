use rbmem::document::{CompactMode, SectionType, TimestampPolicy};
use rbmem::parser::parse_document;
use rbmem::time::{read_time, Timestamp};

fn fixed_time() -> Timestamp {
    read_time("2026-04-27T13:10:00Z").unwrap()
}

#[test]
fn parses_canonical_document_round_trip_shape() {
    let parsed = parse_document(
        r#"aif# AIF v1.3

meta:
  version: 1.3
  purpose: "personal-agent-memory"
  generated_at: "2020-01-01T00:00:00Z"
  last_updated: "2020-01-01T00:00:00Z"
  valid_until: null
  created_by: "me"
  default_expiry_days: null

text[SECTION: memory.core]
type: text
temporal:
  created_at: "2020-01-01T00:00:00Z"
  updated_at: "2020-01-01T00:00:00Z"
  expires_at: null
graph:
  node_type: "Module"
  relations:
    - to: "memory.tools"
      type: "uses"
      valid_from: "2020-01-01T00:00:00Z"
      valid_until: null
content: |
  hello
[END SECTION]
"#,
        TimestampPolicy::Preserve,
    )
    .unwrap();

    assert_eq!(parsed.document.sections.len(), 1);
    assert_eq!(parsed.document.sections[0].path, "memory.core");
    assert_eq!(parsed.document.sections[0].content, "hello");
    assert_eq!(
        parsed.document.sections[0].graph.as_ref().unwrap().relations[0].relation_type,
        "uses"
    );
}

#[test]
fn protected_policy_replaces_llm_timestamps() {
    let now = fixed_time();
    let parsed = parse_document(
        r#"meta:
  version: 1.3
  generated_at: "1900-01-01T00:00:00Z"
  last_updated: "1900-01-01T00:00:00Z"
[SECTION: x]
type: text
temporal:
  created_at: "1900-01-01T00:00:00Z"
  updated_at: "1900-01-01T00:00:00Z"
content: |
  repaired
[END SECTION]
"#,
        TimestampPolicy::Protect { now },
    )
    .unwrap();

    assert_eq!(parsed.document.meta.generated_at, now);
    assert_eq!(parsed.document.sections[0].temporal.updated_at, now);
    assert!(parsed.warnings.iter().any(|warning| warning.contains("protected")));
}

#[test]
fn forgiving_parser_repairs_missing_temporal_and_type() {
    let parsed = parse_document(
        r#"meta:
  version: 1.3
[SECTION: loose]
content: |
  missing fields are okay
[END SECTION]
"#,
        TimestampPolicy::Preserve,
    )
    .unwrap();

    assert_eq!(parsed.document.sections[0].section_type, SectionType::Text);
    assert!(parsed.warnings.iter().any(|warning| warning.contains("missing type")));
}

#[test]
fn markdown_like_text_inside_content_does_not_confuse_section_parser() {
    let parsed = parse_document(
        r#"meta:
  version: 1.3
[SECTION: note]
type: text
content: |
  # Heading
  - item
  ```rust
  fn main() {}
  ```
[END SECTION]
"#,
        TimestampPolicy::Preserve,
    )
    .unwrap();

    assert!(parsed.document.sections[0].content.contains("fn main"));
}

#[test]
fn parses_human_mode_delimiters_and_inline_content() {
    let parsed = parse_document(
        r#"meta:
  version: 1.3
=== SECTION: notes.today
type: text
content: Single-line note.
=== END SECTION
"#,
        TimestampPolicy::Preserve,
    )
    .unwrap();

    assert_eq!(parsed.document.sections[0].path, "notes.today");
    assert_eq!(parsed.document.sections[0].content, "Single-line note.");
}

#[test]
fn parses_float_and_legacy_integer_confidence_scores() {
    let parsed = parse_document(
        r#"meta:
  version: 1.3
[SECTION: agent.reader]
type: text
graph:
  relations:
    - to: "agent.writer"
      type: "uses"
      inferred: true
      confidence: 0.87
    - to: "agent.cache"
      type: "references"
      inferred: true
      confidence: 60
content: |
  reader
[END SECTION]
"#,
        TimestampPolicy::Preserve,
    )
    .unwrap();

    let relations = &parsed.document.sections[0].graph.as_ref().unwrap().relations;
    assert_eq!(relations[0].confidence, Some(87));
    assert_eq!(relations[1].confidence, Some(60));
}

#[test]
fn parses_meta_compact_mode() {
    let parsed = parse_document(
        r#"meta:
  version: 1.3
  compact_mode: minified
[SECTION: note]
type: text
content: |
  hello
[END SECTION]
"#,
        TimestampPolicy::Preserve,
    )
    .unwrap();

    assert_eq!(parsed.document.meta.compact_mode, CompactMode::Minified);
}

fn regression_time() -> Timestamp {
    read_time("2026-05-12T09:00:00Z").unwrap()
}

#[test]
fn parser_survives_common_llm_output_variants() {
    let now = regression_time();
    let cases = [
        "meta:\n  version: 1.3\n[SECTION: a]\ntype: text\ncontent: |\n  hello\n[END SECTION]\n",
        "meta:\n  version: 1.2\n[SECTION: a]\ntype: text\ncontent: hi\n[END SECTION]\n",
        "meta:\n[SECTION: missing.type]\ncontent: |\n  defaults\n[END SECTION]\n",
        "meta:\n  version: 1.3\ntext[SECTION: prefixed]\ntype: list\ncontent: |\n  - one\n[END SECTION]\n",
        "meta:\n  version: 1.3\n=== SECTION: human\ncontent: Human note.\n=== END SECTION\n",
        "meta:\n  version: 1.3\n[SECTION: json]\ntype: json\ncontent: |\n  {\"a\":1}\n[END SECTION]\n",
        "meta:\n  version: 1.3\n[SECTION: timeline]\ntype: timeline\ncontent: |\n  2026: event\n[END SECTION]\n",
        "meta:\n  version: 1.3\n[SECTION: template]\ntype: template\ncontent: |\n  Hello {{name}}\n[END SECTION]\n",
        "meta:\n  version: 1.3\n[SECTION: memory]\ntype: hermes:memory\ncontent: |\n  - fact\n[END SECTION]\n",
        "meta:\n  version: 1.3\n[SECTION: encrypted]\ntype: encrypted\nnonce: \"aaaaaaaaaaaaaaaa\"\nciphertext: \"bbbb\"\nencrypted_at: \"2026-05-12T09:00:00Z\"\n[END SECTION]\n",
        "meta:\n  version: 1.3\n[SECTION: conflict]\ntype: conflict\ncontent: |\n  conflict_at: now\n[END SECTION]\n",
        "meta:\n  version: 1.3\n[SECTION: source]\ntype: text\nsource:\n  kind: \"markdown\"\n  path: \"notes/a.md\"\n  actor: \"sync\"\n  hash: \"sha256:abc\"\ncontent: |\n  sourced\n[END SECTION]\n",
        "meta:\n  version: 1.3\n[SECTION: graph]\ntype: text\ngraph:\n  node_type: \"Rule\"\n  relations:\n    - to: \"other\"\n      type: \"depends_on\"\ncontent: |\n  linked\n[END SECTION]\n",
        "meta:\n  version: 1.3\n  compact_mode: minified\n[SECTION: compact]\ncontent: compact\n[END SECTION]\n",
        "meta:\n  version: 1.3\n  default_expiry_days: 7\n[SECTION: expiry]\ncontent: expires\n[END SECTION]\n",
        "meta:\n  version: 1.3\n[SECTION: markdown]\ntype: text\ncontent: |\n  # This is content\n  [not a section]\n[END SECTION]\n",
        "meta:\n  version: 1.3\r\n[SECTION: crlf]\r\ntype: text\r\ncontent: |\r\n  ok\r\n[END SECTION]\r\n",
        "meta:\n  version: 1.3\n\n\n[SECTION: blanks]\n\ncontent: |\n\n  ok\n\n[END SECTION]\n",
        "# preface\nmeta:\n  version: 1.3\n[SECTION: preface]\ncontent: ok\n[END SECTION]\n",
        "meta:\n  version: 1.3\n[SECTION: duplicate]\ncontent: one\n[END SECTION]\n[SECTION: duplicate]\ncontent: two\n[END SECTION]\n",
    ];

    for (index, input) in cases.iter().enumerate() {
        let parsed = parse_document(input, TimestampPolicy::Protect { now })
            .unwrap_or_else(|error| panic!("case {index} failed: {error:?}"));
        assert!(!parsed.document.sections.is_empty(), "case {index} produced no sections");
    }
}

#[test]
fn parser_tracks_source_version_and_source_hash() {
    let parsed = parse_document(
        r#"meta:
  version: 1.2
[SECTION: synced]
type: text
source:
  kind: "markdown"
  path: "notes/a.md"
  actor: "sync"
  hash: "sha256:abc"
content: |
  hello
[END SECTION]
"#,
        TimestampPolicy::Preserve,
    )
    .unwrap();

    assert_eq!(parsed.document.meta.version, "1.4.0");
    assert_eq!(parsed.document.meta.source_version.as_deref(), Some("1.2"));
    assert_eq!(
        parsed.document.sections[0].source.as_ref().and_then(|source| source.hash.as_deref()),
        Some("sha256:abc")
    );
}

#[test]
fn parser_accepts_new_section_types() {
    assert_eq!(SectionType::from_str("encrypted").unwrap(), SectionType::Encrypted);
    assert_eq!(SectionType::from_str("conflict").unwrap(), SectionType::Conflict);
}
