use rbmem::markdown::title_to_path_str;
use rbmem::diff::{diff_documents_typed, merge_documents, MergeStrategy};
use rbmem::document::{append_memory_entries, RbmemDocument, SectionType};
use rbmem::export::{escape_xml, export_gexf, stable_id};
use rbmem::hermes::{apply_hermes_payload, HermesPayload, HermesSectionPatch, HermesWriteMode};
use rbmem::report::{render_plan_report, PlanReport, ProofReport};
use rbmem::planner::SatStatus;
use rbmem::steps::PlanStep;
use rbmem::time::{read_time, Timestamp};

fn now() -> Timestamp {
    read_time("2026-05-07T12:00:00Z").unwrap()
}

#[test]
fn upsert_reads_back_what_was_written() {
    let t = now();
    let mut doc = RbmemDocument::new(t, "me");
    doc.upsert_section("b.note", SectionType::Text, "first".to_string(), t);
    doc.upsert_section("a.note", SectionType::Text, "other".to_string(), t);
    doc.upsert_section("b.note", SectionType::Text, "second".to_string(), t);
    let section = doc.sections.iter().find(|s| s.path == "b.note").unwrap();
    assert_eq!(section.content, "second");
    assert_eq!(doc.sections.len(), 2);
    assert_eq!(doc.sections[0].path, "a.note");
}

#[test]
fn a_document_differs_from_itself_in_nothing() {
    let t = now();
    let mut doc = RbmemDocument::new(t, "me");
    doc.upsert_section("a", SectionType::Text, "A".to_string(), t);
    doc.upsert_section("b", SectionType::List, "- b".to_string(), t);
    assert!(diff_documents_typed(&doc, &doc).changes.is_empty());
}

#[test]
fn one_sided_merge_takes_the_local_change() {
    let t = now();
    let mut base = RbmemDocument::new(t, "me");
    base.upsert_section("rules", SectionType::Text, "base".to_string(), t);
    let mut local = base.clone();
    local.upsert_section("rules", SectionType::Text, "local".to_string(), t);
    let remote = base.clone();
    for strategy in [MergeStrategy::Ours, MergeStrategy::Theirs, MergeStrategy::Union, MergeStrategy::Manual] {
        let merged = merge_documents(&base, &local, &remote, strategy, t);
        assert_eq!(merged.sections[0].content, "local");
    }
}

#[test]
fn memory_stays_append_only_across_patches() {
    let t = now();
    let mut doc = RbmemDocument::new(t, "me");
    doc.upsert_section("memory", SectionType::HermesMemory, "- one".to_string(), t);
    let patch = |content: &str, mode: HermesWriteMode| HermesPayload {
        sections: vec![HermesSectionPatch {
            path: "memory".to_string(),
            section_type: "text".to_string(),
            content: content.to_string(),
            mode,
            source: None,
        }],
    };
    apply_hermes_payload(&mut doc, patch("- two", HermesWriteMode::Append), t).unwrap();
    assert!(apply_hermes_payload(&mut doc, patch("gone", HermesWriteMode::Replace), t).is_err());
    let memory = doc.sections.iter().find(|s| s.path == "memory").unwrap();
    assert_eq!(memory.section_type, SectionType::HermesMemory);
    assert_eq!(memory.content, "- one\n- two");
    assert_eq!(memory.source.as_ref().unwrap().kind, "hermes");
}

#[test]
fn export_escapes_and_numbers_nodes() {
    assert_eq!(stable_id("a.b-c d"), "a_b_c_d");
    assert_eq!(escape_xml("<a & \"b\">"), "&lt;a &amp; &quot;b&quot;&gt;");
    let t = now();
    let mut doc = RbmemDocument::new(t, "me");
    doc.upsert_section("a.b", SectionType::Text, "x".to_string(), t);
    let gexf = export_gexf(&doc);
    assert!(gexf.contains("<node id=\"0\" label=\"a\" />"));
    assert!(gexf.contains("<node id=\"1\" label=\"a.b\" />"));
    assert!(gexf.contains("<edge id=\"0\" source=\"0\" target=\"1\" label=\"contains\" />"));
}

#[test]
fn plan_report_lists_steps() {
    let report = PlanReport {
        schema: "rbmem.plan.v1".to_string(),
        goal: "ship".to_string(),
        memory_file: "m.rbmem".to_string(),
        discovered_files: vec![],
        plan_path: "plans.ship".to_string(),
        status: SatStatus::Sat,
        solver: "internal-dpll".to_string(),
        cube_and_conquer: false,
        variables: 2,
        clauses: 3,
        selected: 1,
        steps: vec![PlanStep { order: 1, action: "Run tests".to_string(), source: Some("tasks".to_string()), score: 4 }],
        context_sections: vec![],
        proof: ProofReport {
            requested: false,
            path: None,
            generated: false,
            verified: false,
            verifier: String::new(),
            note: String::new(),
        },
        dry_run: true,
    };
    assert_eq!(
        render_plan_report(&report),
        "rbmem SAT plan\ngoal: ship\nstatus: Sat\nsolver: internal-dpll\nmemory: m.rbmem\nstored: plans.ship\ncnf: 2 variable(s), 3 clause(s)\ndry-run: plan was not written\n\nsteps:\n1. Run tests [tasks]\n"
    );
}

#[test]
fn tree_draws_each_path_part_once_in_order() {
    let t = now();
    let mut doc = RbmemDocument::new(t, "me");
    doc.upsert_section("memory", SectionType::Text, "m".to_string(), t);
    doc.upsert_section("agents.writer", SectionType::Text, "w".to_string(), t);
    doc.upsert_section("agents.reader.tools", SectionType::Text, "r".to_string(), t);
    assert_eq!(doc.tree(), "agents\n  reader\n    tools\n  writer\nmemory\n");
}

#[test]
fn petgraph_holds_the_graph_view() {
    let t = now();
    let mut doc = RbmemDocument::new(t, "me");
    doc.upsert_section("a.b", SectionType::Text, "x".to_string(), t);
    let view = doc.graph_view();
    let graph = doc.petgraph();
    assert_eq!(graph.node_count(), view.nodes.len());
    assert_eq!(graph.edge_count(), 1);
    let edge = graph.edge_indices().next().unwrap();
    let (from, to) = graph.edge_endpoints(edge).unwrap();
    assert_eq!(graph[from], "a");
    assert_eq!(graph[to], "a.b");
    assert_eq!(graph[edge], "contains");
}

#[test]
fn append_skips_only_whole_line_duplicates() {
    assert_eq!(append_memory_entries("- teapot", "- tea"), "- teapot\n- tea");
    assert_eq!(append_memory_entries("- tea\n- teapot", " - tea "), "- tea\n- teapot");
    assert_eq!(append_memory_entries("  - tea  \n- cup", "- tea"), "  - tea  \n- cup");
    assert_eq!(append_memory_entries("", " - tea "), "- tea");
}

#[test]
fn context_subset_leaves_out_expired_sections() {
    let t = now();
    let mut doc = RbmemDocument::new(t, "me");
    doc.upsert_section("a.fresh", SectionType::Text, "kept".to_string(), t);
    doc.upsert_section("b.stale", SectionType::Text, "gone".to_string(), t);
    doc.sections[1].temporal.expires_at = Some(read_time("2026-05-01T00:00:00Z").unwrap());
    let selected = vec!["a.fresh".to_string(), "b.stale".to_string()];
    let sub = rbmem::query::subset_current_document(&doc, &selected, t);
    assert_eq!(sub.sections.len(), 1);
    assert_eq!(sub.sections[0].path, "a.fresh");
    let later = read_time("2026-04-01T00:00:00Z").unwrap();
    let all = rbmem::query::subset_current_document(&doc, &selected, later);
    assert_eq!(all.sections.len(), 2);
}

#[test]
fn upsert_keeps_paths_sorted_and_distinct() {
    let t = now();
    let mut doc = RbmemDocument::new(t, "me");
    for p in ["m.b", "a.z", "m.a", "a.z", "z", "b"] {
        doc.upsert_section(p, SectionType::Text, "x".to_string(), t);
    }
    let paths: Vec<&str> = doc.sections.iter().map(|s| s.path.as_str()).collect();
    assert_eq!(paths, vec!["a.z", "b", "m.a", "m.b", "z"]);
}

#[test]
fn heading_titles_become_dotted_path_parts() {
    assert_eq!(title_to_path_str("  Hello,  World!! v2 "), "hello.world.v2");
    assert_eq!(title_to_path_str("!!!"), "document");
    assert_eq!(title_to_path_str("-- A --"), "a");
    let once = title_to_path_str("Deploy: the Release (v2)");
    assert_eq!(once, "deploy.the.release.v2");
    assert_eq!(title_to_path_str(&once), once);
}
