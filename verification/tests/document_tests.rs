use rbmem::document::{
    GraphInfo, GraphRelation, InferenceStrategy, RbmemDocument, Section, SectionType,
};
use rbmem::graph::graph_edge_source;
use rbmem::time::{plus_days, read_time, Timestamp};
use serde_json::Value;

fn fixed_time() -> Timestamp {
    read_time("2026-04-27T13:10:00Z").unwrap()
}

#[test]
fn list_children_append_parent_items() {
    let now = fixed_time();
    let mut doc = RbmemDocument::new(now, "me");
    doc.upsert_section("prefs", SectionType::List, "- coffee".to_string(), now);
    doc.upsert_section("prefs.morning", SectionType::List, "- tea".to_string(), now);

    let resolved = doc
        .resolved_sections()
        .into_iter()
        .find(|section| section.path == "prefs.morning")
        .unwrap();

    assert_eq!(resolved.content, "- coffee\n- tea");
}

#[test]
fn json_children_deep_merge_objects_and_append_arrays() {
    let now = fixed_time();
    let mut doc = RbmemDocument::new(now, "me");
    doc.upsert_section(
        "agent",
        SectionType::Json,
        r#"{"settings":{"voice":"quiet"},"tags":["base"]}"#.to_string(),
        now,
    );
    doc.upsert_section(
        "agent.home",
        SectionType::Json,
        r#"{"settings":{"speed":"fast"},"tags":["home"]}"#.to_string(),
        now,
    );

    let resolved = doc
        .resolved_sections()
        .into_iter()
        .find(|section| section.path == "agent.home")
        .unwrap();
    let json: Value = serde_json::from_str(&resolved.content).unwrap();

    assert_eq!(json["settings"]["voice"], "quiet");
    assert_eq!(json["settings"]["speed"], "fast");
    assert_eq!(
        json["tags"],
        Value::Array(vec![Value::String("base".to_string()), Value::String("home".to_string())])
    );
}

#[test]
fn graph_view_contains_implicit_and_explicit_edges() {
    let now = fixed_time();
    let mut section = Section::new("agent.memory.core", SectionType::Text, now);
    section.graph = Some(GraphInfo {
        node_type: Some("Module".to_string()),
        relations: vec![GraphRelation {
            to: "agent.tools".to_string(),
            relation_type: "uses".to_string(),
            valid_from: Some(now),
            valid_until: None,
            inferred: false,
            confidence: None,
        }],
    });

    let mut doc = RbmemDocument::new(now, "me");
    doc.sections.push(section);

    let graph = doc.graph_view();
    assert!(graph.edges.iter().any(|edge| {
        edge.from == "agent.memory" && edge.to == "agent.memory.core" && edge.edge_type == "contains"
    }));
    assert!(graph.edges.iter().any(|edge| {
        edge.from == "agent.memory.core" && edge.to == "agent.tools" && edge.edge_type == "uses"
    }));
}

#[test]
fn prune_removes_expired_sections() {
    let now = fixed_time();
    let mut doc = RbmemDocument::new(now, "me");
    let mut expired = Section::new("old", SectionType::Text, now);
    expired.temporal.expires_at = Some(plus_days(&now, -1));
    doc.sections.push(expired);

    assert_eq!(doc.prune_expired(now), 1);
    assert!(doc.sections.is_empty());
}

#[test]
fn relation_inference_adds_non_destructive_inferred_edges() {
    let now = fixed_time();
    let mut doc = RbmemDocument::new(now, "me");
    doc.upsert_section("agents.reader", SectionType::Text, "The reader uses writer.".to_string(), now);
    doc.upsert_section("agents.writer", SectionType::Text, "The writer emits canonical RBMEM.".to_string(), now);

    assert_eq!(doc.infer_relations(now, 60), 1);

    let relation = &doc.sections[0].graph.as_ref().unwrap().relations[0];
    assert_eq!(relation.to, "agents.writer");
    assert_eq!(relation.relation_type, "uses");
    assert!(relation.inferred);
    assert_eq!(relation.confidence, Some(92));
}

#[test]
fn relation_inference_detects_multiple_verbs_with_confidence() {
    let now = fixed_time();
    let mut doc = RbmemDocument::new(now, "me");
    doc.upsert_section(
        "runtime.loader",
        SectionType::Text,
        "The loader imports parser, calls executor, and references cache.".to_string(),
        now,
    );
    doc.upsert_section("runtime.parser", SectionType::Text, "Parser.".to_string(), now);
    doc.upsert_section("runtime.executor", SectionType::Text, "Executor.".to_string(), now);
    doc.upsert_section("runtime.cache", SectionType::Text, "Cache.".to_string(), now);

    assert_eq!(doc.infer_relations(now, 80), 3);

    let loader = doc.sections.iter().find(|section| section.path == "runtime.loader").unwrap();
    let relations = &loader.graph.as_ref().unwrap().relations;
    assert!(relations.iter().any(|relation| {
        relation.to == "runtime.parser" && relation.relation_type == "imports" && relation.confidence == Some(91)
    }));
    assert!(relations.iter().any(|relation| {
        relation.to == "runtime.executor" && relation.relation_type == "calls" && relation.confidence == Some(90)
    }));
    assert!(relations.iter().any(|relation| {
        relation.to == "runtime.cache" && relation.relation_type == "references" && relation.confidence == Some(88)
    }));
}

#[test]
fn relation_inference_threshold_filters_weak_mentions() {
    let now = fixed_time();
    let mut doc = RbmemDocument::new(now, "me");
    doc.upsert_section(
        "notes.alpha",
        SectionType::Text,
        "Alpha mentions beta without an action verb.".to_string(),
        now,
    );
    doc.upsert_section("notes.beta", SectionType::Text, "Beta.".to_string(), now);

    assert_eq!(doc.infer_relations(now, 70), 0);
    let alpha_index = doc.sections.iter().position(|section| section.path == "notes.alpha").unwrap();
    assert!(doc.sections[alpha_index].graph.is_none());
    assert_eq!(doc.infer_relations(now, 60), 1);
}

#[test]
fn relation_inference_strategy_off_disables_edges() {
    let now = fixed_time();
    let mut doc = RbmemDocument::new(now, "me");
    doc.upsert_section("agents.reader", SectionType::Text, "The reader uses writer.".to_string(), now);
    doc.upsert_section("agents.writer", SectionType::Text, "Writer.".to_string(), now);

    assert_eq!(doc.infer_relations_with_strategy(now, 60, InferenceStrategy::Off), 0);
    assert!(doc.sections[0].graph.is_none());
}

#[test]
fn relation_inference_explicit_strategy_ignores_mentions() {
    let now = fixed_time();
    let mut doc = RbmemDocument::new(now, "me");
    doc.upsert_section(
        "notes.alpha",
        SectionType::Text,
        "Alpha mentions beta without an action verb.".to_string(),
        now,
    );
    doc.upsert_section("notes.beta", SectionType::Text, "Beta.".to_string(), now);

    assert_eq!(doc.infer_relations_with_strategy(now, 60, InferenceStrategy::Explicit), 0);
}

#[test]
fn relation_inference_aggressive_strategy_lowers_threshold() {
    let now = fixed_time();
    let mut balanced = RbmemDocument::new(now, "me");
    balanced.upsert_section(
        "notes.alpha",
        SectionType::Text,
        "Alpha mentions beta without an action verb.".to_string(),
        now,
    );
    balanced.upsert_section("notes.beta", SectionType::Text, "Beta.".to_string(), now);
    assert_eq!(balanced.infer_relations_with_strategy(now, 69, InferenceStrategy::Balanced), 0);

    let mut aggressive = RbmemDocument::new(now, "me");
    aggressive.upsert_section(
        "notes.alpha",
        SectionType::Text,
        "Alpha mentions beta without an action verb.".to_string(),
        now,
    );
    aggressive.upsert_section("notes.beta", SectionType::Text, "Beta.".to_string(), now);
    assert_eq!(aggressive.infer_relations_with_strategy(now, 69, InferenceStrategy::Aggressive), 1);
}

#[test]
fn relation_inference_never_overwrites_manual_relations() {
    let now = fixed_time();
    let mut section = Section::new("agent.reader", SectionType::Text, now);
    section.content = "The reader uses writer.".to_string();
    section.graph = Some(GraphInfo {
        node_type: None,
        relations: vec![GraphRelation {
            to: "agent.writer".to_string(),
            relation_type: "manual_link".to_string(),
            valid_from: Some(now),
            valid_until: None,
            inferred: false,
            confidence: None,
        }],
    });

    let mut doc = RbmemDocument::new(now, "me");
    doc.sections.push(section);
    doc.upsert_section("agent.writer", SectionType::Text, "Writer.".to_string(), now);

    assert_eq!(doc.infer_relations(now, 60), 0);
    let relations = &doc.sections[0].graph.as_ref().unwrap().relations;
    assert_eq!(relations.len(), 1);
    assert_eq!(relations[0].relation_type, "manual_link");
    assert!(!relations[0].inferred);
}

#[test]
fn graph_json_marks_inferred_manual_and_implicit_edges() {
    let now = fixed_time();
    let mut section = Section::new("agent.reader", SectionType::Text, now);
    section.graph = Some(GraphInfo {
        node_type: None,
        relations: vec![
            GraphRelation {
                to: "agent.writer".to_string(),
                relation_type: "uses".to_string(),
                valid_from: Some(now),
                valid_until: None,
                inferred: true,
                confidence: Some(92),
            },
            GraphRelation {
                to: "agent.policy".to_string(),
                relation_type: "depends_on".to_string(),
                valid_from: Some(now),
                valid_until: None,
                inferred: false,
                confidence: None,
            },
        ],
    });

    let mut doc = RbmemDocument::new(now, "me");
    doc.sections.push(section);
    let graph = doc.graph_view();

    assert!(graph
        .edges
        .iter()
        .any(|edge| edge.edge_type == "contains" && graph_edge_source(edge) == "implicit"));
    assert!(graph.edges.iter().any(|edge| {
        edge.edge_type == "uses"
            && graph_edge_source(edge) == "inferred"
            && edge.inferred
            && edge.confidence == Some(92)
    }));
    assert!(graph.edges.iter().any(|edge| {
        edge.edge_type == "depends_on" && graph_edge_source(edge) == "manual" && !edge.inferred
    }));
}

#[test]
fn minified_output_is_substantially_smaller_than_compact_output() {
    let now = fixed_time();
    let mut doc = RbmemDocument::new(now, "me");
    doc.upsert_section(
        "agent.reader",
        SectionType::Text,
        "The reader validates memory.\n\n# comment removed\nIt uses writer.".to_string(),
        now,
    );
    doc.upsert_section("agent.writer", SectionType::Text, "The writer emits canonical RBMEM.".to_string(), now);

    let compact = doc.to_compact_string(true, now);
    let minified = doc.to_minified_string(true);

    assert!(!minified.contains("type: text"));
    assert!(!minified.contains("content:"));
    assert!(!minified.contains("# comment removed"));
    assert!(minified.len() <= compact.len() * 7 / 10);
}

#[test]
fn hide_empty_temporal_omits_default_temporal_blocks() {
    let now = fixed_time();
    let mut doc = RbmemDocument::new(now, "me");
    doc.upsert_section("note", SectionType::Text, "hello".to_string(), now);

    let hidden = doc.to_rbmem_string_hiding_empty_temporal();
    assert!(!hidden.contains("temporal:"));
    assert!(hidden.contains("compact_mode: full"));
}

#[test]
fn section_type_accepts_hermes_memory() {
    assert_eq!(SectionType::from_str("hermes:memory").unwrap(), SectionType::HermesMemory);
    assert_eq!(SectionType::HermesMemory.as_str(), "hermes:memory");
}
