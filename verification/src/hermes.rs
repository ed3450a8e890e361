//! Hermes agent memory: patches an agent sends, applied with
//! `hermes:memory` sections kept append-only; the starter document; the
//! context text an agent loads.
use vstd::prelude::*;
use crate::compact::{compact_text, minified_text};
use crate::document::{
    dup_opt_source, has_entry_line, has_entry_line_exec, parse_section_type, protected_section, section_type_name, section_views, spec_append_memory_entries,
    CompactMode, DocumentV, MetaV, RbmemDocument, RbmemError, Section, SectionType, SectionV, SourceInfo,
    SourceInfoV, Temporal, opt_source_view,
};
use crate::resolve::{resolved, resolved_views};
use crate::text::{chars_of, contains, contains_chars, is_blank, join, join_chars, lower_seq, push_chars, str_eq, string_of, trim, trimmed, views};
use crate::time::{expiry_fits, rfc3339, Timestamp};
use crate::writer::{document_text, time_text, RbmemWriteOptions, RbmemWriteStyle};

verus! {

/// How a patch writes its content.
#[derive(Debug, Clone, Copy, PartialEq, Eq, Structural, Default)]
pub enum HermesWriteMode {
    #[default]
    Auto,
    Append,
    Replace,
}

/// One section an agent writes.
#[derive(Debug, Clone)]
pub struct HermesSectionPatch {
    pub path: String,
    pub section_type: String,
    pub content: String,
    pub mode: HermesWriteMode,
    pub source: Option<SourceInfo>,
}

pub struct PatchV {
    pub path: Seq<char>,
    pub section_type: Seq<char>,
    pub content: Seq<char>,
    pub mode: HermesWriteMode,
    pub source: Option<SourceInfoV>,
}

impl View for HermesSectionPatch {
    type V = PatchV;

    open spec fn view(&self) -> PatchV {
        PatchV {
            path: self.path@,
            section_type: self.section_type@,
            content: self.content@,
            mode: self.mode,
            source: opt_source_view(self.source),
        }
    }
}

/// The sections an agent writes in one go.
#[derive(Debug, Clone)]
pub struct HermesPayload {
    pub sections: Vec<HermesSectionPatch>,
}

pub open spec fn patch_views(v: Seq<HermesSectionPatch>) -> Seq<PatchV> {
    v.map_values(|p: HermesSectionPatch| p@)
}

// ---------------------------------------------------------------------------
// Sources
// ---------------------------------------------------------------------------

/// The first section with the path given this provenance.
pub open spec fn with_source(d: DocumentV, path: Seq<char>, source: SourceInfoV) -> DocumentV {
    match d.first_index_of(path) {
        Some(i) => DocumentV { sections: d.sections.update(i, SectionV { source: Some(source), ..d.sections[i] }), ..d },
        None => d,
    }
}

pub fn set_section_source(document: &mut RbmemDocument, path: &str, source: SourceInfo)
    ensures
        final(document)@ == with_source(old(document)@, path@, source@),
{
    proof {
        crate::document::lemma_first_index_in_range(document@, path@);
    }
    match document.find_index(path) {
        Some(i) => {
            let mut s = document.sections[i].duplicate();
            s.source = Some(source);
            let ghost before = section_views(document.sections@);
            document.sections.set(i, s);
            assert(section_views(document.sections@) =~= before.update(i as int, s@));
        },
        None => {},
    }
}

/// The provenance of a patch written by Hermes without one.
pub open spec fn hermes_source() -> SourceInfoV {
    SourceInfoV { kind: "hermes"@, path: None, actor: Some("hermes"@), hash: None }
}

fn hermes_source_exec() -> (r: SourceInfo)
    ensures
        r@ == hermes_source(),
{
    SourceInfo { kind: "hermes".to_owned(), path: None, actor: Some("hermes".to_owned()), hash: None }
}

// ---------------------------------------------------------------------------
// Appending
// ---------------------------------------------------------------------------

/// A section's content with an entry appended unless the entry is blank or
/// already a whole line of it: on a new line when the content is not blank.
pub open spec fn appended(existing: Seq<char>, entry: Seq<char>) -> Seq<char> {
    let e = trim(entry);
    if e.len() == 0 || has_entry_line(existing, e) {
        existing
    } else if trim(existing).len() > 0 {
        existing + "\n"@ + e
    } else {
        existing + e
    }
}

/// Appends to the first section with the path, or creates it with the
/// trimmed content.
pub open spec fn spec_append_or_create(d: DocumentV, path: Seq<char>, t: SectionType, content: Seq<char>, now: Timestamp) -> DocumentV {
    match d.first_index_of(path) {
        Some(i) => {
            let s = d.sections[i];
            DocumentV {
                meta: MetaV { last_updated: now, ..d.meta },
                sections: d.sections.update(i, SectionV {
                    content: appended(s.content, content),
                    section_type: t,
                    temporal: Temporal { updated_at: now, ..s.temporal },
                    ..s
                }),
                ..d
            }
        },
        None => RbmemDocument::spec_upsert(d, path, t, trim(content), now),
    }
}

pub fn append_or_create_section(document: &mut RbmemDocument, path: &str, section_type: SectionType, content: &str, now: Timestamp)
    requires
        now.valid(),
        expiry_fits(now, old(document)@.meta.default_expiry_days),
    ensures
        final(document)@ == spec_append_or_create(old(document)@, path@, section_type, content@, now),
{
    proof {
        crate::document::lemma_first_index_in_range(document@, path@);
    }
    let entry = trimmed(&chars_of(content));
    match document.find_index(path) {
        Some(i) => {
            let mut s = document.sections[i].duplicate();
            let existing = chars_of(s.content.as_str());
            if entry.len() > 0 && !has_entry_line_exec(&existing, &entry) {
                let mut c = s.content.clone();
                if !is_blank(&existing) {
                    c.push('\n');
                }
                push_chars(&mut c, &entry);
                proof {
                    reveal_strlit("\n");
                }
                assert(c@ =~= appended(existing@, content@));
                s.content = c;
            }
            s.section_type = section_type;
            s.temporal.updated_at = now;
            let ghost before = section_views(document.sections@);
            document.sections.set(i, s);
            document.meta.last_updated = now;
            assert(section_views(document.sections@) =~= before.update(i as int, s@));
        },
        None => {
            document.upsert_section(path, section_type, string_of(&entry), now);
        },
    }
}

// ---------------------------------------------------------------------------
// Patches
// ---------------------------------------------------------------------------

/// Why a patch is refused: its type is unknown, or it would replace a
/// `hermes:memory` section.
pub enum PatchFailure {
    BadType(Seq<char>),
    AppendOnly(Seq<char>),
}

/// One patch applied: the document after it, or why it was refused.
pub open spec fn patch_step(d: DocumentV, p: PatchV, now: Timestamp) -> Result<DocumentV, PatchFailure> {
    match parse_section_type(p.section_type) {
        None => Err(PatchFailure::BadType(lower_seq(trim(p.section_type)))),
        Some(t) => {
            let existing = match d.first_index_of(p.path) {
                Some(i) => Some(d.sections[i].section_type),
                None => None,
            };
            let is_memory = t == SectionType::HermesMemory || existing == Some(SectionType::HermesMemory);
            if is_memory && p.mode == HermesWriteMode::Replace {
                Err(PatchFailure::AppendOnly("hermes:memory section '"@ + p.path + "' is append-only; use mode auto or append"@))
            } else {
                let effective = if existing == Some(SectionType::HermesMemory) { SectionType::HermesMemory } else { t };
                let append = p.mode == HermesWriteMode::Append || (p.mode == HermesWriteMode::Auto && is_memory);
                let d1 = if append {
                    spec_append_or_create(d, p.path, effective, p.content, now)
                } else {
                    RbmemDocument::spec_upsert(d, p.path, effective, p.content, now)
                };
                Ok(with_source(d1, p.path, match p.source { Some(s) => s, None => hermes_source() }))
            }
        },
    }
}

/// The patches applied in order; the document as the refused patch found
/// it, and why, or the document with every section's timestamps protected.
pub open spec fn patches_applied(d: DocumentV, ps: Seq<PatchV>, now: Timestamp) -> (DocumentV, Option<PatchFailure>)
    decreases ps.len(),
{
    if ps.len() == 0 {
        (d, None)
    } else {
        let (prev, failed) = patches_applied(d, ps.drop_last(), now);
        if failed is Some {
            (prev, failed)
        } else {
            match patch_step(prev, ps.last(), now) {
                Ok(next) => (next, None),
                Err(f) => (prev, Some(f)),
            }
        }
    }
}

pub open spec fn protected_doc(d: DocumentV, now: Timestamp) -> DocumentV {
    DocumentV {
        meta: MetaV { last_updated: now, ..d.meta },
        sections: d.sections.map_values(|s: SectionV| protected_section(s, now)),
        ..d
    }
}

fn apply_patch(document: &mut RbmemDocument, patch: &HermesSectionPatch, now: Timestamp) -> (r: Result<(), RbmemError>)
    requires
        now.valid(),
        expiry_fits(now, old(document)@.meta.default_expiry_days),
    ensures
        final(document)@.meta.default_expiry_days == old(document)@.meta.default_expiry_days,
        match (r, patch_step(old(document)@, patch@, now)) {
            (Ok(()), Ok(d)) => final(document)@ == d,
            (Err(e), Err(PatchFailure::BadType(m))) => final(document)@ == old(document)@ && e is InvalidSectionType
                && e->InvalidSectionType_0@ == m,
            (Err(e), Err(PatchFailure::AppendOnly(m))) => final(document)@ == old(document)@ && e is Parse && e->Parse_0@ == m,
            _ => false,
        },
{
    let section_type = match SectionType::from_str(patch.section_type.as_str()) {
        Ok(t) => t,
        Err(e) => {
            return Err(e);
        },
    };
    proof {
        crate::document::lemma_first_index_in_range(document@, patch@.path);
    }
    let existing = match document.find_index(patch.path.as_str()) {
        Some(i) => Some(document.sections[i].section_type),
        None => None,
    };
    let existing_memory = match existing {
        Some(t) => t == SectionType::HermesMemory,
        None => false,
    };
    let is_memory = section_type == SectionType::HermesMemory || existing_memory;
    if is_memory && patch.mode == HermesWriteMode::Replace {
        let mut msg = String::new();
        msg.push_str("hermes:memory section '");
        msg.push_str(patch.path.as_str());
        msg.push_str("' is append-only; use mode auto or append");
        return Err(RbmemError::Parse(msg));
    }
    let effective = if existing_memory { SectionType::HermesMemory } else { section_type };
    let append = patch.mode == HermesWriteMode::Append || (patch.mode == HermesWriteMode::Auto && is_memory);
    if append {
        append_or_create_section(document, patch.path.as_str(), effective, patch.content.as_str(), now);
    } else {
        document.upsert_section(patch.path.as_str(), effective, patch.content.clone(), now);
    }
    let source = match &patch.source {
        Some(s) => s.duplicate(),
        None => hermes_source_exec(),
    };
    set_section_source(document, patch.path.as_str(), source);
    Ok(())
}

/// Applies an agent's patches in order, then protects every section's
/// timestamps. A refused patch stops the run with
/// the earlier patches applied.
pub fn apply_hermes_payload(document: &mut RbmemDocument, payload: HermesPayload, now: Timestamp) -> (r: Result<(), RbmemError>)
    requires
        now.valid(),
        expiry_fits(now, old(document)@.meta.default_expiry_days),
    ensures
        ({
            let (d, failed) = patches_applied(old(document)@, patch_views(payload.sections@), now);
            match (r, failed) {
                (Ok(()), None) => final(document)@ == protected_doc(d, now),
                (Err(e), Some(PatchFailure::BadType(m))) => final(document)@ == d && e is InvalidSectionType && e->InvalidSectionType_0@ == m,
                (Err(e), Some(PatchFailure::AppendOnly(m))) => final(document)@ == d && e is Parse && e->Parse_0@ == m,
                _ => false,
            }
        }),
{
    let ghost ps = patch_views(payload.sections@);
    let ghost d0 = document@;
    let mut i: usize = 0;
    assert(ps.take(0) =~= Seq::<PatchV>::empty());
    while i < payload.sections.len()
        invariant
            i <= payload.sections@.len(),
            ps == patch_views(payload.sections@),
            d0 == old(document)@,
            now.valid(),
            document@.meta.default_expiry_days == d0.meta.default_expiry_days,
            expiry_fits(now, d0.meta.default_expiry_days),
            patches_applied(d0, ps.take(i as int), now) == (document@, None::<PatchFailure>),
        decreases payload.sections@.len() - i,
    {
        assert(ps.take(i + 1).drop_last() =~= ps.take(i as int));
        assert(ps.take(i + 1).last() == payload.sections@[i as int]@);
        match apply_patch(document, &payload.sections[i], now) {
            Ok(()) => {},
            Err(e) => {
                proof {
                    lemma_patches_stop(d0, ps, now, i as int + 1);
                }
                return Err(e);
            },
        }
        i += 1;
    }
    assert(ps.take(ps.len() as int) =~= ps);
    document.enforce_protected_timestamps(now);
    Ok(())
}

proof fn lemma_patches_stop(d: DocumentV, ps: Seq<PatchV>, now: Timestamp, k: int)
    requires
        0 < k <= ps.len(),
        patches_applied(d, ps.take(k), now).1 is Some,
    ensures
        patches_applied(d, ps, now) == patches_applied(d, ps.take(k), now),
    decreases ps.len() - k,
{
    if k < ps.len() {
        assert(ps.take(k + 1).drop_last() =~= ps.take(k));
        lemma_patches_stop(d, ps, now, k + 1);
    } else {
        assert(ps.take(k) =~= ps);
    }
}

// ---------------------------------------------------------------------------
// Validation as an error
// ---------------------------------------------------------------------------

/// The document's warnings as one error, joined with `; `.
pub fn validate_or_error(document: &RbmemDocument) -> (r: Result<(), RbmemError>)
    ensures
        match r {
            Ok(()) => crate::graph::validation_warnings(document@).len() == 0,
            Err(e) => crate::graph::validation_warnings(document@).len() > 0 && e is Parse
                && e->Parse_0@ == join(crate::graph::validation_warnings(document@), "; "@),
        },
{
    let warnings = document.validate();
    if warnings.len() == 0 {
        return Ok(());
    }
    let mut parts: Vec<Vec<char>> = Vec::new();
    let mut i: usize = 0;
    while i < warnings.len()
        invariant
            i <= warnings@.len(),
            views(parts@) == crate::plan::string_views(warnings@).take(i as int),
        decreases warnings@.len() - i,
    {
        let ghost before = parts@;
        parts.push(chars_of(warnings[i].as_str()));
        assert(views(parts@) =~= views(before).push(warnings@[i as int]@));
        assert(crate::plan::string_views(warnings@).take(i + 1) =~= crate::plan::string_views(warnings@).take(i as int).push(warnings@[i as int]@));
        i += 1;
    }
    assert(crate::plan::string_views(warnings@).take(warnings@.len() as int) =~= crate::plan::string_views(warnings@));
    Err(RbmemError::Parse(string_of(&join_chars(&parts, &chars_of("; ")))))
}


// ---------------------------------------------------------------------------
// Starter document and context
// ---------------------------------------------------------------------------

/// The memory document a Hermes project starts from.
pub open spec fn starter(project: Seq<char>, now: Timestamp) -> DocumentV {
    let d0 = RbmemDocument::spec_new(now, "hermes"@);
    let d1 = DocumentV { meta: MetaV { purpose: "hermes-agent-memory:"@ + project, compact_mode: CompactMode::Minified, ..d0.meta }, ..d0 };
    let d2 = RbmemDocument::spec_upsert(d1, "goals"@, SectionType::HermesMemory, "- Maintain working context for "@ + project + "."@, now);
    let d3 = RbmemDocument::spec_upsert(
        d2,
        "rules"@,
        SectionType::HermesMemory,
        "- Preserve user intent.\n- Prefer append-only memory updates unless replacing stale facts."@,
        now,
    );
    let d4 = RbmemDocument::spec_upsert(d3, "memory"@, SectionType::HermesMemory, ""@, now);
    let d5 = RbmemDocument::spec_upsert(d4, "tasks"@, SectionType::List, "- Initialize Hermes RBMEM memory."@, now);
    let d6 = RbmemDocument::spec_upsert(d5, "architecture"@, SectionType::Text, "Project architecture notes go here."@, now);
    let d7 = RbmemDocument::spec_upsert(d6, "timeline"@, SectionType::Timeline, time_text(now) + ": Hermes RBMEM memory initialized."@, now);
    RbmemDocument::spec_upsert(
        d7,
        "graph"@,
        SectionType::Json,
        "{\n  \"notes\": \"Explicit graph relations can be added per section.\"\n}"@,
        now,
    )
}

pub fn hermes_starter_document(project_name: &str, now: Timestamp) -> (r: RbmemDocument)
    requires
        now.valid(),
    ensures
        r@ == starter(project_name@, now),
{
    let mut document = RbmemDocument::new(now, "hermes");
    let mut purpose = String::new();
    purpose.push_str("hermes-agent-memory:");
    purpose.push_str(project_name);
    document.meta.purpose = purpose;
    document.meta.compact_mode = CompactMode::Minified;
    let mut goals = String::new();
    goals.push_str("- Maintain working context for ");
    goals.push_str(project_name);
    goals.push_str(".");
    document.upsert_section("goals", SectionType::HermesMemory, goals, now);
    document.upsert_section(
        "rules",
        SectionType::HermesMemory,
        "- Preserve user intent.\n- Prefer append-only memory updates unless replacing stale facts.".to_owned(),
        now,
    );
    document.upsert_section("memory", SectionType::HermesMemory, "".to_owned(), now);
    document.upsert_section("tasks", SectionType::List, "- Initialize Hermes RBMEM memory.".to_owned(), now);
    document.upsert_section("architecture", SectionType::Text, "Project architecture notes go here.".to_owned(), now);
    let mut stamp = rfc3339(&now);
    stamp.push_str(": Hermes RBMEM memory initialized.");
    document.upsert_section("timeline", SectionType::Timeline, stamp, now);
    document.upsert_section(
        "graph",
        SectionType::Json,
        "{\n  \"notes\": \"Explicit graph relations can be added per section.\"\n}".to_owned(),
        now,
    );
    document
}

/// A resolved section as Hermes shows it: `[path] type`, then its content.
pub open spec fn resolved_entry(s: SectionV) -> Seq<char> {
    "["@ + s.path + "] "@ + section_type_name(s.section_type) + "\n"@ + s.content
}

/// The context text Hermes loads: minified, compact, the resolved sections,
/// or the canonical form.
pub open spec fn hermes_context(d: DocumentV, resolve: bool, compact: bool, minified: bool, now: Timestamp) -> Seq<char> {
    if minified {
        minified_text(d, resolve)
    } else if compact {
        compact_text(d, resolve, now)
    } else if resolve {
        join(resolved(d.sections).map_values(|s: SectionV| resolved_entry(s)), "\n\n"@)
    } else {
        document_text(d, RbmemWriteOptions { style: RbmemWriteStyle::Canonical, hide_empty_temporal: false })
    }
}

pub fn hermes_context_text(document: &RbmemDocument, resolve: bool, compact: bool, minified: bool, now: Timestamp) -> (r: String)
    requires
        document@.valid(),
    ensures
        r@ == hermes_context(document@, resolve, compact, minified, now),
{
    if minified {
        document.to_minified_string(resolve)
    } else if compact {
        document.to_compact_string(resolve, now)
    } else if resolve {
        let rs = document.resolved_sections();
        let ghost rv = resolved_views(rs@);
        let mut parts: Vec<Vec<char>> = Vec::new();
        let mut i: usize = 0;
        while i < rs.len()
            invariant
                i <= rs@.len(),
                rv == resolved_views(rs@),
                views(parts@) == rv.take(i as int).map_values(|s: SectionV| resolved_entry(s)),
            decreases rs@.len() - i,
        {
            let s = &rs[i];
            let mut e = String::new();
            e.push_str("[");
            e.push_str(s.path.as_str());
            e.push_str("] ");
            e.push_str(s.section_type.as_str());
            e.push_str("\n");
            e.push_str(s.content.as_str());
            assert(e@ =~= resolved_entry(s@));
            let ghost before = parts@;
            parts.push(chars_of(e.as_str()));
            assert(views(parts@) =~= views(before).push(e@));
            assert(rv.take(i + 1).map_values(|s: SectionV| resolved_entry(s)) =~= rv.take(i as int).map_values(|s: SectionV| resolved_entry(s)).push(
                resolved_entry(rv[i as int]),
            ));
            i += 1;
        }
        assert(rv.take(rv.len() as int) =~= rv);
        string_of(&join_chars(&parts, &chars_of("\n\n")))
    } else {
        document.to_rbmem_string()
    }
}

/// A `hermes:memory` section is append-only: a patch on a path whose first
/// section is one either fails, or leaves that section first at the path,
/// still `hermes:memory`, with its old content as the start of the new one.
pub proof fn lemma_memory_append_only(d: DocumentV, p: PatchV, now: Timestamp, i: int)
    requires
        0 <= i < d.sections.len(),
        d.sections[i].path == p.path,
        forall|k: int| 0 <= k < i ==> d.sections[k].path != p.path,
        d.sections[i].section_type == SectionType::HermesMemory,
    ensures
        patch_step(d, p, now) matches Ok(d2) ==> {
            &&& d2.first_index_of(p.path) == Some(i)
            &&& d2.sections[i].section_type == SectionType::HermesMemory
            &&& d.sections[i].content.is_prefix_of(d2.sections[i].content)
        },
{
    crate::document::lemma_first_index(d, p.path, i);
    if let Ok(d2) = patch_step(d, p, now) {
        let d1 = spec_append_or_create(d, p.path, SectionType::HermesMemory, p.content, now);
        lemma_append_existing(d, p.path, p.content, now, i);
        let src = match p.source { Some(x) => x, None => hermes_source() };
        assert(d2 == with_source(d1, p.path, src));
        lemma_source_keeps(d1, p.path, src, i);
    }
}

proof fn lemma_append_existing(d: DocumentV, path: Seq<char>, content: Seq<char>, now: Timestamp, i: int)
    requires
        0 <= i < d.sections.len(),
        d.sections[i].path == path,
        forall|k: int| 0 <= k < i ==> d.sections[k].path != path,
    ensures
        ({
            let d1 = spec_append_or_create(d, path, SectionType::HermesMemory, content, now);
            &&& d1.sections.len() == d.sections.len()
            &&& d1.sections[i].path == path
            &&& forall|k: int| 0 <= k < i ==> d1.sections[k].path != path
            &&& d1.sections[i].section_type == SectionType::HermesMemory
            &&& d.sections[i].content.is_prefix_of(d1.sections[i].content)
        }),
{
    crate::document::lemma_first_index(d, path, i);
    let s = d.sections[i];
    let entry = appended(s.content, content);
    let d1 = spec_append_or_create(d, path, SectionType::HermesMemory, content, now);
    assert(d1.sections == d.sections.update(i, SectionV {
        content: entry,
        section_type: SectionType::HermesMemory,
        temporal: Temporal { updated_at: now, ..s.temporal },
        ..s
    }));
    assert forall|k: int| 0 <= k < i implies #[trigger] d1.sections[k].path != path by {
        assert(d1.sections[k] == d.sections[k]);
    }
    assert(s.content.is_prefix_of(entry)) by {
        assert(entry.subrange(0, s.content.len() as int) =~= s.content);
    }
}

proof fn lemma_source_keeps(d1: DocumentV, path: Seq<char>, src: SourceInfoV, i: int)
    requires
        0 <= i < d1.sections.len(),
        d1.sections[i].path == path,
        forall|k: int| 0 <= k < i ==> d1.sections[k].path != path,
    ensures
        ({
            let d2 = with_source(d1, path, src);
            &&& d2.first_index_of(path) == Some(i)
            &&& d2.sections[i].section_type == d1.sections[i].section_type
            &&& d2.sections[i].content == d1.sections[i].content
        }),
{
    crate::document::lemma_first_index(d1, path, i);
    let d2 = with_source(d1, path, src);
    assert(d2.sections == d1.sections.update(i, SectionV { source: Some(src), ..d1.sections[i] }));
    assert forall|k: int| 0 <= k < i implies #[trigger] d2.sections[k].path != path by {
        assert(d2.sections[k] == d1.sections[k]);
    }
    crate::document::lemma_first_index(d2, path, i);
}


/// In auto mode a patch replaces content unless `hermes:memory` is
/// involved: where the first section at the patch's path is not a
/// `hermes:memory` section and the patch's type is one whose update
/// replaces content (neither `hermes:memory` nor a list or timeline, which
/// append), the patch succeeds and that section, still first at the path,
/// holds the patch's type and exactly the patch's content.
pub proof fn lemma_auto_patch_replaces(d: DocumentV, p: PatchV, now: Timestamp, t: SectionType, j: int)
    requires
        p.mode == HermesWriteMode::Auto,
        parse_section_type(p.section_type) == Some(t),
        t != SectionType::HermesMemory,
        t != SectionType::List,
        t != SectionType::Timeline,
        0 <= j < d.sections.len(),
        d.sections[j].path == p.path,
        forall|k: int| 0 <= k < j ==> d.sections[k].path != p.path,
        d.sections[j].section_type != SectionType::HermesMemory,
    ensures
        patch_step(d, p, now) is Ok,
        patch_step(d, p, now)->Ok_0.first_index_of(p.path) == Some(j),
        patch_step(d, p, now)->Ok_0.sections[j].content == p.content,
        patch_step(d, p, now)->Ok_0.sections[j].section_type == t,
        patch_step(d, p, now)->Ok_0.sections.len() == d.sections.len(),
        forall|k: int| 0 <= k < j ==> patch_step(d, p, now)->Ok_0.sections[k] == d.sections[k],
{
    crate::document::lemma_first_index(d, p.path, j);
    crate::document::lemma_upsert_existing(d, p.path, t, p.content, now, j);
    let d1 = RbmemDocument::spec_upsert(d, p.path, t, p.content, now);
    assert(d1.sections[j] == RbmemDocument::upserted(d.sections[j], t, p.content, now));
    assert(d1.sections[j].path == p.path);
    assert forall|k: int| 0 <= k < j implies d1.sections[k].path != p.path by {
        assert(d1.sections[k] == d.sections[k]);
    }
    let src = match p.source { Some(x) => x, None => hermes_source() };
    assert(patch_step(d, p, now) == Ok::<DocumentV, PatchFailure>(with_source(d1, p.path, src)));
    lemma_source_keeps(d1, p.path, src, j);
    crate::document::lemma_first_index(d1, p.path, j);
    let d2 = with_source(d1, p.path, src);
    assert(d2.sections == d1.sections.update(j, SectionV { source: Some(src), ..d1.sections[j] }));
    assert forall|k: int| 0 <= k < j implies d2.sections[k] == d.sections[k] by {
        assert(d2.sections[k] == d1.sections[k]);
        assert(d1.sections[k] == d.sections[k]);
    }
}


proof fn lemma_first_index_minimal(d: DocumentV, path: Seq<char>, k: int, w: int)
    requires
        0 <= k <= w < d.sections.len(),
        d.sections[w].path == path,
        forall|j: int| 0 <= j < k ==> d.sections[j].path != path,
    ensures
        exists|i: int| 0 <= i < d.sections.len() && d.sections[i].path == path
            && forall|j: int| 0 <= j < i ==> d.sections[j].path != path,
    decreases w - k,
{
    if d.sections[k].path != path {
        lemma_first_index_minimal(d, path, k + 1, w);
    }
}

proof fn lemma_first_index_before(d: DocumentV, path: Seq<char>)
    requires
        d.has_path(path),
    ensures
        d.first_index_of(path) is Some,
        forall|k: int| 0 <= k < d.first_index_of(path)->0 ==> d.sections[k].path != path,
{
    let w = choose|w: int| 0 <= w < d.sections.len() && d.sections[w].path == path;
    lemma_first_index_minimal(d, path, 0, w);
}

/// In auto mode a patch of a type other than `hermes:memory` on a path that
/// has no section yet succeeds and adds the section: the first section at
/// the path then holds the patch's type and exactly the patch's content.
pub proof fn lemma_auto_patch_creates(d: DocumentV, p: PatchV, now: Timestamp, t: SectionType)
    requires
        p.mode == HermesWriteMode::Auto,
        parse_section_type(p.section_type) == Some(t),
        t != SectionType::HermesMemory,
        !d.has_path(p.path),
    ensures
        patch_step(d, p, now) is Ok,
        patch_step(d, p, now)->Ok_0.sections.len() == d.sections.len() + 1,
        patch_step(d, p, now)->Ok_0.first_index_of(p.path) matches Some(i)
            && patch_step(d, p, now)->Ok_0.sections[i].content == p.content
            && patch_step(d, p, now)->Ok_0.sections[i].section_type == t,
{
    lemma_auto_new_step(d, p, now, t);
    let d1 = RbmemDocument::spec_upsert(d, p.path, t, p.content, now);
    crate::document::lemma_upsert_new(d, p.path, t, p.content, now);
    let i = d1.first_index_of(p.path)->0;
    crate::document::lemma_first_index_in_range(d1, p.path);
    assert(d1.has_path(p.path));
    lemma_first_index_before(d1, p.path);
    let src = match p.source { Some(x) => x, None => hermes_source() };
    lemma_source_keeps(d1, p.path, src, i);
}

proof fn lemma_auto_new_step(d: DocumentV, p: PatchV, now: Timestamp, t: SectionType)
    requires
        p.mode == HermesWriteMode::Auto,
        parse_section_type(p.section_type) == Some(t),
        t != SectionType::HermesMemory,
        !d.has_path(p.path),
    ensures
        patch_step(d, p, now) == Ok::<DocumentV, PatchFailure>(with_source(
            RbmemDocument::spec_upsert(d, p.path, t, p.content, now),
            p.path,
            match p.source { Some(x) => x, None => hermes_source() },
        )),
{
    crate::document::lemma_first_index_in_range(d, p.path);
}

} // verus!
