//! The document edits behind the command-line operations: deleting, updating
//! and creating documents and sections, encrypting and decrypting sections,
//! and hiding or opening the encrypted sections of a document that is read.
use vstd::prelude::*;
use vstd::utf8::encode_utf8;
use crate::crypto::{aes_gcm_sealed, base64_text, decrypt_content, decrypted, random_nonce, seal_with_nonce, EncryptionKey};
use crate::document::{
    section_views, EncryptedPayloadV, GraphInfo, GraphInfoV, GraphRelation, GraphRelationV, Meta, MetaV,
    RbmemDocument, RbmemError, DocumentV, Section, SectionType, SectionV, SourceInfo, SourceInfoV,
    Temporal, relation_views,
};
use crate::hermes::{protected_doc, set_section_source, with_source};
use crate::text::str_eq;
use crate::time::{days_fit, expiry_fits, plus_days, spec_plus_days, Timestamp};
use crate::compact::{compact_text, minified_text};
use crate::document::{section_type_name, CompactMode};
use crate::resolve::{resolved, resolved_views};
use crate::writer::{document_text, RbmemWriteOptions, RbmemWriteStyle};
use crate::graph::validation_warnings;
use crate::plan::string_views;

verus! {

// ---------------------------------------------------------------------------
// Outcomes
// ---------------------------------------------------------------------------

/// `r` failed with a parse error carrying this message.
pub open spec fn parse_err<T>(r: Result<T, RbmemError>, msg: Seq<char>) -> bool {
    match r {
        Err(RbmemError::Parse(m)) => m@ == msg,
        _ => false,
    }
}

/// `r` failed with a not-found error carrying this message.
pub open spec fn not_found_err<T>(r: Result<T, RbmemError>, msg: Seq<char>) -> bool {
    match r {
        Err(RbmemError::NotFound(m)) => m@ == msg,
        _ => false,
    }
}

/// `r` failed with a crypto error carrying this message.
pub open spec fn crypto_err<T>(r: Result<T, RbmemError>, msg: Seq<char>) -> bool {
    match r {
        Err(RbmemError::Crypto(m)) => m@ == msg,
        _ => false,
    }
}

/// `r` holds a document with this view.
pub open spec fn ok_doc(r: Result<RbmemDocument, RbmemError>, d: DocumentV) -> bool {
    match r {
        Ok(x) => x@ == d,
        Err(_) => false,
    }
}

/// The message of a section that is not there.
pub open spec fn missing_text(path: Seq<char>) -> Seq<char> {
    "section '"@ + path + "' not found"@
}

/// `prefix`, then `rest`.
fn prefixed(prefix: &str, rest: &str) -> (r: String)
    ensures
        r@ == prefix@ + rest@,
{
    let mut s = String::new();
    s.push_str(prefix);
    s.push_str(rest);
    s
}

/// `prefix`, the path, then `suffix`.
fn quoted(prefix: &str, path: &str, suffix: &str) -> (r: String)
    ensures
        r@ == prefix@ + path@ + suffix@,
{
    let mut s = String::new();
    s.push_str(prefix);
    s.push_str(path);
    s.push_str(suffix);
    s
}

// ---------------------------------------------------------------------------
// Deleting a section
// ---------------------------------------------------------------------------

/// The relations that do not point at `path`, in order.
pub open spec fn relations_not_to(rs: Seq<GraphRelationV>, path: Seq<char>) -> Seq<GraphRelationV>
    decreases rs.len(),
{
    if rs.len() == 0 {
        rs
    } else {
        let prev = relations_not_to(rs.drop_last(), path);
        if rs.last().to == path {
            prev
        } else {
            prev.push(rs.last())
        }
    }
}

/// A section with its relations to `path` dropped.
pub open spec fn detached(s: SectionV, path: Seq<char>) -> SectionV {
    match s.graph {
        Some(g) => SectionV {
            graph: Some(GraphInfoV { relations: relations_not_to(g.relations, path), ..g }),
            ..s
        },
        None => s,
    }
}

/// The sections whose path is not `path`, each with its relations to `path`
/// dropped, in order.
pub open spec fn pruned(ss: Seq<SectionV>, path: Seq<char>) -> Seq<SectionV>
    decreases ss.len(),
{
    if ss.len() == 0 {
        ss
    } else {
        let prev = pruned(ss.drop_last(), path);
        if ss.last().path == path {
            prev
        } else {
            prev.push(detached(ss.last(), path))
        }
    }
}

/// The document once every section at `path` is deleted.
pub open spec fn removed(d: DocumentV, path: Seq<char>, now: Timestamp) -> DocumentV {
    DocumentV { meta: MetaV { last_updated: now, ..d.meta }, sections: pruned(d.sections, path), ..d }
}

fn detach_section(s: &Section, path: &str) -> (r: Section)
    ensures
        r@ == detached(s@, path@),
{
    let mut r = s.duplicate();
    match &s.graph {
        Some(g) => {
            let mut kept: Vec<GraphRelation> = Vec::new();
            let ghost all = relation_views(g.relations@);
            let mut i: usize = 0;
            assert(all.take(0) =~= Seq::<GraphRelationV>::empty());
            while i < g.relations.len()
                invariant
                    all == relation_views(g.relations@),
                    i <= all.len(),
                    relation_views(kept@) == relations_not_to(all.take(i as int), path@),
                decreases all.len() - i,
            {
                assert(all.take(i + 1).drop_last() =~= all.take(i as int));
                assert(all.take(i + 1).last() == g.relations@[i as int]@);
                if !str_eq(g.relations[i].to.as_str(), path) {
                    let ghost prev = relation_views(kept@);
                    kept.push(g.relations[i].duplicate());
                    assert(relation_views(kept@) =~= prev.push(g.relations@[i as int]@));
                }
                i += 1;
            }
            assert(all.take(all.len() as int) =~= all);
            let node_type = match &g.node_type {
                Some(t) => Some(t.clone()),
                None => None,
            };
            r.graph = Some(GraphInfo { node_type, relations: kept });
        },
        None => {},
    }
    r
}

/// Deletes every section at `section_path` and every relation pointing at
/// it, and marks the document updated; fails, changing nothing, where no
/// section has the path.
pub fn remove_section(document: &mut RbmemDocument, section_path: &str, now: Timestamp) -> (r: Result<(), RbmemError>)
    ensures
        old(document)@.has_path(section_path@) ==> r is Ok && final(document)@ == removed(old(document)@, section_path@, now),
        !old(document)@.has_path(section_path@) ==> parse_err(r, missing_text(section_path@)) && final(document)@ == old(document)@,
{
    let ghost all = section_views(document.sections@);
    let mut kept: Vec<Section> = Vec::new();
    let mut found = false;
    let mut i: usize = 0;
    assert(all.take(0) =~= Seq::<SectionV>::empty());
    while i < document.sections.len()
        invariant
            all == section_views(document.sections@),
            i <= all.len(),
            section_views(kept@) == pruned(all.take(i as int), section_path@),
            found <==> exists|k: int| 0 <= k < i && all[k].path == section_path@,
        decreases all.len() - i,
    {
        assert(all.take(i + 1).drop_last() =~= all.take(i as int));
        assert(all.take(i + 1).last() == document.sections@[i as int]@);
        if str_eq(document.sections[i].path.as_str(), section_path) {
            found = true;
        } else {
            let ghost prev = section_views(kept@);
            let s = detach_section(&document.sections[i], section_path);
            kept.push(s);
            assert(section_views(kept@) =~= prev.push(detached(all[i as int], section_path@)));
        }
        i += 1;
    }
    assert(all.take(all.len() as int) =~= all);
    if !found {
        return Err(RbmemError::Parse(quoted("section '", section_path, "' not found")));
    }
    document.sections = kept;
    document.meta.last_updated = now;
    Ok(())
}

proof fn lemma_relations_not_to(rs: Seq<GraphRelationV>, path: Seq<char>)
    ensures
        forall|j: int| 0 <= j < relations_not_to(rs, path).len() ==> (#[trigger] relations_not_to(rs, path)[j]).to != path,
    decreases rs.len(),
{
    if rs.len() > 0 {
        lemma_relations_not_to(rs.drop_last(), path);
        let prev = relations_not_to(rs.drop_last(), path);
        assert forall|j: int| 0 <= j < relations_not_to(rs, path).len() implies (#[trigger] relations_not_to(rs, path)[j]).to != path by {
            if j < prev.len() {
                assert(relations_not_to(rs, path)[j] == prev[j]);
            }
        }
    }
}

proof fn lemma_pruned_clean(ss: Seq<SectionV>, path: Seq<char>)
    ensures
        forall|i: int| 0 <= i < pruned(ss, path).len() ==> {
            &&& (#[trigger] pruned(ss, path)[i]).path != path
            &&& pruned(ss, path)[i].graph matches Some(g) ==> forall|j: int| 0 <= j < g.relations.len() ==> (#[trigger] g.relations[j]).to != path
        },
    decreases ss.len(),
{
    if ss.len() > 0 {
        lemma_pruned_clean(ss.drop_last(), path);
        let prev = pruned(ss.drop_last(), path);
        let last = ss.last();
        match last.graph {
            Some(g) => lemma_relations_not_to(g.relations, path),
            None => {},
        }
        assert forall|i: int| 0 <= i < pruned(ss, path).len() implies {
            &&& (#[trigger] pruned(ss, path)[i]).path != path
            &&& pruned(ss, path)[i].graph matches Some(g) ==> forall|j: int| 0 <= j < g.relations.len() ==> (#[trigger] g.relations[j]).to != path
        } by {
            if i < prev.len() {
                assert(pruned(ss, path)[i] == prev[i]);
            }
        }
    }
}

proof fn lemma_pruned_keeps(ss: Seq<SectionV>, path: Seq<char>, q: Seq<char>)
    requires
        q != path,
        path_known(ss, q),
    ensures
        path_known(pruned(ss, path), q),
    decreases ss.len(),
{
    let prev = pruned(ss.drop_last(), path);
    let last = ss.last();
    let k = choose|k: int| 0 <= k < ss.len() && ss[k].path == q;
    if k < ss.len() - 1 {
        assert(ss.drop_last()[k].path == q);
        lemma_pruned_keeps(ss.drop_last(), path, q);
        let m = choose|m: int| 0 <= m < prev.len() && prev[m].path == q;
        assert(pruned(ss, path)[m] == prev[m]);
    } else {
        assert(last.path == q);
        assert(pruned(ss, path)[prev.len() as int] == detached(last, path));
    }
}

/// After a section is deleted no section has its path and no relation points
/// at it, and every other path that had a section still has one.
pub proof fn lemma_delete_leaves_no_trace(d: DocumentV, path: Seq<char>, now: Timestamp)
    ensures
        !removed(d, path, now).has_path(path),
        forall|i: int| #![trigger removed(d, path, now).sections[i]] 0 <= i < removed(d, path, now).sections.len()
            ==> (removed(d, path, now).sections[i].graph matches Some(g) ==> forall|j: int|
            0 <= j < g.relations.len() ==> (#[trigger] g.relations[j]).to != path),
        forall|q: Seq<char>| q != path && d.has_path(q) ==> #[trigger] removed(d, path, now).has_path(q),
{
    lemma_pruned_clean(d.sections, path);
    assert forall|q: Seq<char>| q != path && d.has_path(q) implies #[trigger] removed(d, path, now).has_path(q) by {
        assert(path_known(d.sections, q));
        lemma_pruned_keeps(d.sections, path, q);
    }
    if removed(d, path, now).has_path(path) {
        let i = choose|i: int| 0 <= i < removed(d, path, now).sections.len() && removed(d, path, now).sections[i].path == path;
        assert(pruned(d.sections, path)[i].path != path);
    }
}

// ---------------------------------------------------------------------------
// Creating and updating
// ---------------------------------------------------------------------------

/// A new empty document with its purpose and default expiry.
pub open spec fn created(now: Timestamp, created_by: Seq<char>, purpose: Seq<char>, days: Option<i64>) -> DocumentV {
    let d = RbmemDocument::spec_new(now, created_by);
    DocumentV { meta: MetaV { purpose, default_expiry_days: days, ..d.meta }, ..d }
}

pub fn created_document(now: Timestamp, created_by: &str, purpose: &str, default_expiry_days: Option<i64>) -> (r: RbmemDocument)
    ensures
        r@ == created(now, created_by@, purpose@, default_expiry_days),
{
    let mut d = RbmemDocument::new(now, created_by);
    d.meta.purpose = purpose.to_owned();
    d.meta.default_expiry_days = default_expiry_days;
    d
}

/// The provenance of a section written from the command line.
pub open spec fn cli_source(actor: Seq<char>) -> SourceInfoV {
    SourceInfoV { kind: "cli"@, path: None, actor: Some(actor), hash: None }
}

/// The document after a command-line update: the upsert, the
/// section's provenance set to the actor, and the protected timestamps.
pub open spec fn cli_updated(
    d: DocumentV,
    path: Seq<char>,
    t: SectionType,
    content: Seq<char>,
    actor: Seq<char>,
    now: Timestamp,
) -> DocumentV {
    protected_doc(with_source(RbmemDocument::spec_upsert(d, path, t, content, now), path, cli_source(actor)), now)
}

/// Upserts the section, records the actor as its source, and enforces the
/// protected timestamps.
pub fn apply_update(
    document: &mut RbmemDocument,
    section: &str,
    section_type: SectionType,
    content: String,
    actor: &str,
    now: Timestamp,
)
    requires
        now.valid(),
        expiry_fits(now, old(document)@.meta.default_expiry_days),
    ensures
        final(document)@ == cli_updated(old(document)@, section@, section_type, content@, actor@, now),
{
    document.upsert_section(section, section_type, content, now);
    let source = SourceInfo { kind: "cli".to_owned(), path: None, actor: Some(actor.to_owned()), hash: None };
    set_section_source(document, section, source);
    document.enforce_protected_timestamps(now);
    assert(document@.sections =~= protected_doc(with_source(
        RbmemDocument::spec_upsert(old(document)@, section@, section_type, content@, now), section@, cli_source(actor@)), now).sections);
}

// ---------------------------------------------------------------------------
// Encrypting and decrypting one section
// ---------------------------------------------------------------------------

/// A section sealed into this payload: type `encrypted`, content cleared.
pub open spec fn sealed(s: SectionV, p: EncryptedPayloadV, now: Timestamp) -> SectionV {
    SectionV {
        section_type: SectionType::Encrypted,
        encrypted: Some(p),
        content: Seq::empty(),
        temporal: Temporal { updated_at: now, ..s.temporal },
        ..s
    }
}

/// `after` is `before` with the section at `i` sealed into a payload made
/// now that opens, under the key, to the section's old content.
pub open spec fn sealed_at(before: DocumentV, after: DocumentV, i: int, key: Seq<u8>, now: Timestamp) -> bool {
    match after.sections[i].encrypted {
        Some(p) => {
            &&& p.encrypted_at == now
            &&& decrypted(p, key) == Ok::<Seq<char>, Seq<char>>(before.sections[i].content)
            &&& after == DocumentV {
                meta: MetaV { last_updated: now, ..before.meta },
                sections: before.sections.update(i, sealed(before.sections[i], p, now)),
                ..before
            }
        },
        None => false,
    }
}

/// The document with the section at `i` sealed into this payload now.
pub open spec fn sealed_doc(before: DocumentV, i: int, p: EncryptedPayloadV, now: Timestamp) -> DocumentV {
    DocumentV {
        meta: MetaV { last_updated: now, ..before.meta },
        sections: before.sections.update(i, sealed(before.sections[i], p, now)),
        ..before
    }
}

/// Encrypts the first section at `section_path` with the given nonce:
/// `Ok(true)` where it was sealed, `Ok(false)` where it already was
/// encrypted; the payload holds the nonce and the sealed content as base64
/// text and the time now.
pub fn encrypt_section_with_nonce(
    document: &mut RbmemDocument,
    section_path: &str,
    key: &EncryptionKey,
    nonce: [u8; 12],
    now: Timestamp,
) -> (r: Result<bool, RbmemError>)
    ensures
        match old(document)@.first_index_of(section_path@) {
            None => not_found_err(r, missing_text(section_path@)) && final(document)@ == old(document)@,
            Some(i) => if old(document)@.sections[i].section_type == SectionType::Encrypted {
                r == Ok::<bool, RbmemError>(false) && final(document)@ == old(document)@
            } else {
                match aes_gcm_sealed(key@, nonce@, encode_utf8(old(document)@.sections[i].content)) {
                    Some(c) => r == Ok::<bool, RbmemError>(true) && final(document)@ == sealed_doc(
                        old(document)@,
                        i,
                        EncryptedPayloadV { nonce: base64_text(nonce@), ciphertext: base64_text(c), encrypted_at: now },
                        now,
                    ) && sealed_at(old(document)@, final(document)@, i, key@, now),
                    None => crypto_err(r, "failed to encrypt section"@) && final(document)@ == old(document)@,
                }
            },
        },
{
    proof {
        crate::document::lemma_first_index_in_range(document@, section_path@);
    }
    let i = match document.find_index(section_path) {
        Some(i) => i,
        None => {
            return Err(RbmemError::NotFound(quoted("section '", section_path, "' not found")));
        },
    };
    if document.sections[i].section_type == SectionType::Encrypted {
        return Ok(false);
    }
    let payload = match seal_with_nonce(document.sections[i].content.as_str(), key, nonce, now) {
        Ok(p) => p,
        Err(e) => {
            return Err(e);
        },
    };
    let ghost before = section_views(document.sections@);
    let ghost pv = payload@;
    let mut s = document.sections[i].duplicate();
    s.section_type = SectionType::Encrypted;
    s.encrypted = Some(payload);
    s.content = String::new();
    s.temporal.updated_at = now;
    document.sections.set(i, s);
    document.meta.last_updated = now;
    assert(section_views(document.sections@) =~= before.update(i as int, sealed(before[i as int], pv, now)));
    Ok(true)
}

/// Encrypts the first section at `section_path` with a fresh random nonce:
/// `Ok(true)` where it was sealed, `Ok(false)` where it already was
/// encrypted. The payload opens, under the key, to the old content; sealing
/// fails only where no random nonce can be had, or where sealing under the
/// drawn nonce fails.
pub fn encrypt_section_in(document: &mut RbmemDocument, section_path: &str, key: &EncryptionKey, now: Timestamp) -> (r: Result<bool, RbmemError>)
    ensures
        match old(document)@.first_index_of(section_path@) {
            None => not_found_err(r, missing_text(section_path@)) && final(document)@ == old(document)@,
            Some(i) => if old(document)@.sections[i].section_type == SectionType::Encrypted {
                r == Ok::<bool, RbmemError>(false) && final(document)@ == old(document)@
            } else {
                match r {
                    Ok(changed) => changed && sealed_at(old(document)@, final(document)@, i, key@, now),
                    Err(e) => final(document)@ == old(document)@ && (crypto_err(r, "failed to generate encryption nonce"@)
                        || (crypto_err(r, "failed to encrypt section"@) && exists|n: Seq<u8>|
                        n.len() == 12 && (#[trigger] aes_gcm_sealed(key@, n, encode_utf8(old(document)@.sections[i].content))) is None)),
                }
            },
        },
{
    proof {
        crate::document::lemma_first_index_in_range(document@, section_path@);
    }
    let i = match document.find_index(section_path) {
        Some(i) => i,
        None => {
            return Err(RbmemError::NotFound(quoted("section '", section_path, "' not found")));
        },
    };
    if document.sections[i].section_type == SectionType::Encrypted {
        return Ok(false);
    }
    let nonce = match random_nonce() {
        Some(n) => n,
        None => {
            return Err(RbmemError::Crypto("failed to generate encryption nonce".to_owned()));
        },
    };
    let ghost d0 = document@;
    let r = encrypt_section_with_nonce(document, section_path, key, nonce, now);
    proof {
        assert(nonce@.len() == 12);
    }
    r
}

/// A section opened to this plaintext: type `text`, payload dropped.
pub open spec fn opened(s: SectionV, text: Seq<char>, now: Timestamp) -> SectionV {
    SectionV {
        section_type: SectionType::Text,
        encrypted: None,
        content: text,
        temporal: Temporal { updated_at: now, ..s.temporal },
        ..s
    }
}

/// Decrypts the first section at `section_path`.
pub fn decrypt_section_in(document: &mut RbmemDocument, section_path: &str, key: &EncryptionKey, now: Timestamp) -> (r: Result<(), RbmemError>)
    ensures
        match old(document)@.first_index_of(section_path@) {
            None => not_found_err(r, missing_text(section_path@)) && final(document)@ == old(document)@,
            Some(i) => match old(document)@.sections[i].encrypted {
                None => parse_err(r, "section '"@ + section_path@ + "' is not encrypted"@)
                    && final(document)@ == old(document)@,
                Some(p) => match decrypted(p, key@) {
                    Err(m) => crypto_err(r, m) && final(document)@ == old(document)@,
                    Ok(text) => r is Ok && final(document)@ == (DocumentV {
                        meta: MetaV { last_updated: now, ..old(document)@.meta },
                        sections: old(document)@.sections.update(i, opened(old(document)@.sections[i], text, now)),
                        ..old(document)@
                    }),
                },
            },
        },
{
    proof {
        crate::document::lemma_first_index_in_range(document@, section_path@);
    }
    let i = match document.find_index(section_path) {
        Some(i) => i,
        None => {
            return Err(RbmemError::NotFound(quoted("section '", section_path, "' not found")));
        },
    };
    let text = match &document.sections[i].encrypted {
        None => {
            return Err(RbmemError::Parse(quoted("section '", section_path, "' is not encrypted")));
        },
        Some(p) => match decrypt_content(p, key) {
            Ok(t) => t,
            Err(e) => {
                return Err(e);
            },
        },
    };
    let ghost before = section_views(document.sections@);
    let ghost tv = text@;
    let mut s = document.sections[i].duplicate();
    s.content = text;
    s.section_type = SectionType::Text;
    s.encrypted = None;
    s.temporal.updated_at = now;
    document.sections.set(i, s);
    document.meta.last_updated = now;
    assert(section_views(document.sections@) =~= before.update(i as int, opened(before[i as int], tv, now)));
    Ok(())
}

// ---------------------------------------------------------------------------
// Encrypted sections of a document that is read
// ---------------------------------------------------------------------------

/// The sections that are not encrypted, in order.
pub open spec fn unencrypted(ss: Seq<SectionV>) -> Seq<SectionV>
    decreases ss.len(),
{
    if ss.len() == 0 {
        ss
    } else {
        let prev = unencrypted(ss.drop_last());
        if ss.last().section_type == SectionType::Encrypted {
            prev
        } else {
            prev.push(ss.last())
        }
    }
}

/// One section opened for reading: an encrypted one becomes `text` with its
/// plaintext as content (its payload stays); others are kept.
pub open spec fn opened_for_reading(s: SectionV, key: Seq<u8>) -> Result<SectionV, Seq<char>> {
    if s.section_type != SectionType::Encrypted {
        Ok(s)
    } else {
        match s.encrypted {
            None => Err("encrypted section '"@ + s.path + "' is missing encrypted payload fields"@),
            Some(p) => match decrypted(p, key) {
                Err(m) => Err(m),
                Ok(t) => Ok(SectionV { content: t, section_type: SectionType::Text, ..s }),
            },
        }
    }
}

/// Every section opened for reading, in order; the first failure wins.
pub open spec fn all_opened(ss: Seq<SectionV>, key: Seq<u8>) -> Result<Seq<SectionV>, Seq<char>>
    decreases ss.len(),
{
    if ss.len() == 0 {
        Ok(ss)
    } else {
        match all_opened(ss.drop_last(), key) {
            Err(m) => Err(m),
            Ok(prev) => match opened_for_reading(ss.last(), key) {
                Err(m) => Err(m),
                Ok(s) => Ok(prev.push(s)),
            },
        }
    }
}

/// A document to be read with its encrypted sections opened under the key,
/// or, without one, left out.
pub fn prepare_encrypted_sections(document: RbmemDocument, key: Option<&EncryptionKey>) -> (r: Result<RbmemDocument, RbmemError>)
    ensures
        match key {
            None => ok_doc(r, DocumentV { sections: unencrypted(document@.sections), ..document@ }),
            Some(k) => match all_opened(document@.sections, k@) {
                Ok(ss) => ok_doc(r, DocumentV { sections: ss, ..document@ }),
                Err(m) => crypto_err(r, m),
            },
        },
{
    let ghost all = section_views(document.sections@);
    let mut out: Vec<Section> = Vec::new();
    let mut i: usize = 0;
    assert(all.take(0) =~= Seq::<SectionV>::empty());
    match key {
        None => {
            while i < document.sections.len()
                invariant
                    all == section_views(document.sections@),
                    i <= all.len(),
                    section_views(out@) == unencrypted(all.take(i as int)),
                decreases all.len() - i,
            {
                assert(all.take(i + 1).drop_last() =~= all.take(i as int));
                assert(all.take(i + 1).last() == document.sections@[i as int]@);
                if document.sections[i].section_type != SectionType::Encrypted {
                    let ghost prev = section_views(out@);
                    out.push(document.sections[i].duplicate());
                    assert(section_views(out@) =~= prev.push(all[i as int]));
                }
                i += 1;
            }
        },
        Some(k) => {
            assert(section_views(out@) =~= Seq::<SectionV>::empty());
            while i < document.sections.len()
                invariant
                    all == section_views(document.sections@),
                    i <= all.len(),
                    key == Some(k),
                    all_opened(all.take(i as int), k@) == Ok::<Seq<SectionV>, Seq<char>>(section_views(out@)),
                decreases all.len() - i,
            {
                assert(all.take(i + 1).drop_last() =~= all.take(i as int));
                assert(all.take(i + 1).last() == document.sections@[i as int]@);
                let s = &document.sections[i];
                let ghost prev = section_views(out@);
                if s.section_type != SectionType::Encrypted {
                    out.push(s.duplicate());
                    assert(section_views(out@) =~= prev.push(all[i as int]));
                } else {
                    match &s.encrypted {
                        None => {
                            let m = quoted("encrypted section '", s.path.as_str(), "' is missing encrypted payload fields");
                            proof {
                                lemma_opened_stops(all, k@, (i + 1) as int);
                            }
                            assert(all.take(all.len() as int) =~= all);
                            return Err(RbmemError::Crypto(m));
                        },
                        Some(p) => match decrypt_content(p, k) {
                            Err(e) => {
                                proof {
                                    lemma_opened_stops(all, k@, (i + 1) as int);
                                }
                                assert(all.take(all.len() as int) =~= all);
                                return Err(e);
                            },
                            Ok(t) => {
                                let mut c = s.duplicate();
                                c.content = t;
                                c.section_type = SectionType::Text;
                                out.push(c);
                                assert(section_views(out@) =~= prev.push(
                                    SectionV { content: t@, section_type: SectionType::Text, ..all[i as int] }));
                            },
                        },
                    }
                }
                i += 1;
            }
        },
    }
    assert(all.take(all.len() as int) =~= all);
    Ok(RbmemDocument { meta: document.meta, sections: out, warnings: document.warnings })
}

/// Once opening fails on a prefix, it fails with the same message on every
/// longer prefix.
proof fn lemma_opened_stops(all: Seq<SectionV>, key: Seq<u8>, n: int)
    requires
        0 < n <= all.len(),
        all_opened(all.take(n), key) is Err,
    ensures
        all_opened(all, key) == all_opened(all.take(n), key),
    decreases all.len() - n,
{
    if n < all.len() {
        assert(all.take(n + 1).drop_last() =~= all.take(n));
        lemma_opened_stops(all, key, n + 1);
    } else {
        assert(all.take(n) =~= all);
    }
}

// ---------------------------------------------------------------------------
// Checking that a document can be written
// ---------------------------------------------------------------------------

fn time_ok(t: &Timestamp) -> (r: bool)
    ensures
        r == t.valid(),
{
    crate::time::MIN_SECS <= t.secs && t.secs <= crate::time::MAX_SECS && (t.nanos < 1_000_000_000 || (t.nanos
        < 2_000_000_000 && crate::time::last_second_of_minute(t.secs)))
}

fn opt_time_ok(t: &Option<Timestamp>) -> (r: bool)
    ensures
        r == (t matches Some(x) ==> x.valid()),
{
    match t {
        Some(x) => time_ok(x),
        None => true,
    }
}

fn section_ok(s: &Section) -> (r: bool)
    ensures
        r == s@.valid(),
{
    if !(time_ok(&s.temporal.created_at) && time_ok(&s.temporal.updated_at) && opt_time_ok(&s.temporal.expires_at)) {
        return false;
    }
    match &s.encrypted {
        Some(p) => {
            if !time_ok(&p.encrypted_at) {
                return false;
            }
        },
        None => {},
    }
    match &s.graph {
        Some(g) => {
            let ghost rs = relation_views(g.relations@);
            let mut i: usize = 0;
            while i < g.relations.len()
                invariant
                    rs == relation_views(g.relations@),
                    s@.graph == Some(g@),
                    i <= rs.len(),
                    forall|j: int| 0 <= j < i ==> {
                        &&& (#[trigger] rs[j]).valid_from matches Some(t) ==> t.valid()
                        &&& rs[j].valid_until matches Some(t) ==> t.valid()
                    },
                decreases rs.len() - i,
            {
                if !(opt_time_ok(&g.relations[i].valid_from) && opt_time_ok(&g.relations[i].valid_until)) {
                    assert(rs[i as int] == g.relations@[i as int]@);
                    assert(s@.graph == Some(g@));
                    assert(g@.relations[i as int] == rs[i as int]);
                    return false;
                }
                i += 1;
            }
            true
        },
        None => true,
    }
}

/// Whether every instant in the document lies in the range that the
/// writers render: what writing a document asks of it.
pub fn document_is_valid(document: &RbmemDocument) -> (r: bool)
    ensures
        r == document@.valid(),
{
    if !(time_ok(&document.meta.generated_at) && time_ok(&document.meta.last_updated)
        && opt_time_ok(&document.meta.valid_until)) {
        return false;
    }
    let ghost ss = section_views(document.sections@);
    let mut i: usize = 0;
    while i < document.sections.len()
        invariant
            ss == section_views(document.sections@),
            i <= ss.len(),
            forall|j: int| 0 <= j < i ==> (#[trigger] ss[j]).valid(),
        decreases ss.len() - i,
    {
        if !section_ok(&document.sections[i]) {
            assert(document@.sections[i as int] == ss[i as int]);
            assert(!ss[i as int].valid());
            return false;
        }
        i += 1;
    }
    true
}

// ---------------------------------------------------------------------------
// Rendering a document that is read
// ---------------------------------------------------------------------------

/// Each resolved section as `[path] type=T`, its content, and a blank line.
pub open spec fn resolved_listing(ss: Seq<SectionV>) -> Seq<char>
    decreases ss.len(),
{
    if ss.len() == 0 {
        Seq::empty()
    } else {
        let s = ss.last();
        resolved_listing(ss.drop_last()) + "["@ + s.path + "] type="@ + section_type_name(s.section_type) + "\n"@
            + s.content + "\n\n"@
    }
}

pub fn render_resolved_sections(document: &RbmemDocument) -> (r: String)
    ensures
        r@ == resolved_listing(resolved(document@.sections)),
{
    let rs = document.resolved_sections();
    let ghost all = resolved_views(rs@);
    let mut out = String::new();
    let mut i: usize = 0;
    assert(all.take(0) =~= Seq::<SectionV>::empty());
    while i < rs.len()
        invariant
            all == resolved_views(rs@),
            i <= all.len(),
            out@ == resolved_listing(all.take(i as int)),
        decreases all.len() - i,
    {
        assert(all.take(i + 1).drop_last() =~= all.take(i as int));
        assert(all.take(i + 1).last() == rs@[i as int]@);
        out.push_str("[");
        out.push_str(rs[i].path.as_str());
        out.push_str("] type=");
        out.push_str(rs[i].section_type.as_str());
        out.push_str("\n");
        out.push_str(rs[i].content.as_str());
        out.push_str("\n\n");
        i += 1;
    }
    assert(all.take(all.len() as int) =~= all);
    out
}

/// What `read` prints: minified, compact, the
/// resolved listing, or the canonical text with or without empty temporal
/// blocks, by the flags and the document's compact mode.
pub open spec fn read_text(
    d: DocumentV,
    resolve: bool,
    compact: bool,
    minified: bool,
    hide_empty_temporal: bool,
    now: Timestamp,
) -> Seq<char> {
    if minified || (resolve && !compact && d.meta.compact_mode == CompactMode::Minified) {
        minified_text(d, resolve)
    } else if compact || (resolve && d.meta.compact_mode == CompactMode::Compact) {
        compact_text(d, resolve, now)
    } else if resolve {
        resolved_listing(resolved(d.sections))
    } else {
        document_text(d, RbmemWriteOptions { style: RbmemWriteStyle::Canonical, hide_empty_temporal })
    }
}

pub fn render_read_document(
    document: &RbmemDocument,
    resolve: bool,
    compact: bool,
    minified: bool,
    hide_empty_temporal: bool,
    now: Timestamp,
) -> (r: String)
    requires
        document@.valid(),
    ensures
        r@ == read_text(document@, resolve, compact, minified, hide_empty_temporal, now),
{
    if minified || (resolve && !compact && document.meta.compact_mode == CompactMode::Minified) {
        document.to_minified_string(resolve)
    } else if compact || (resolve && document.meta.compact_mode == CompactMode::Compact) {
        document.to_compact_string(resolve, now)
    } else if resolve {
        render_resolved_sections(document)
    } else if hide_empty_temporal {
        document.to_rbmem_string_hiding_empty_temporal()
    } else {
        document.to_rbmem_string()
    }
}

/// What a context prints: minified, compact,
/// or the canonical text without empty temporal blocks.
pub open spec fn context_text(d: DocumentV, resolve: bool, compact: bool, minified: bool, now: Timestamp) -> Seq<char> {
    if minified || (!compact && d.meta.compact_mode == CompactMode::Minified) {
        minified_text(d, resolve)
    } else if compact || d.meta.compact_mode == CompactMode::Compact {
        compact_text(d, resolve, now)
    } else {
        document_text(d, RbmemWriteOptions { style: RbmemWriteStyle::Canonical, hide_empty_temporal: true })
    }
}

pub fn render_context_at(document: &RbmemDocument, resolve: bool, compact: bool, minified: bool, now: Timestamp) -> (r: String)
    requires
        document@.valid(),
    ensures
        r@ == context_text(document@, resolve, compact, minified, now),
{
    if minified || (!compact && document.meta.compact_mode == CompactMode::Minified) {
        document.to_minified_string(resolve)
    } else if compact || document.meta.compact_mode == CompactMode::Compact {
        document.to_compact_string(resolve, now)
    } else {
        document.to_rbmem_string_hiding_empty_temporal()
    }
}

/// The context text as of the clock's reading (compact output is stamped
/// with it).
pub fn render_context_document(document: &RbmemDocument, resolve: bool, compact: bool, minified: bool) -> (r: String)
    requires
        document@.valid(),
    ensures
        exists|now: Timestamp| now.valid() && r@ == context_text(document@, resolve, compact, minified, now),
{
    let now = crate::time::now();
    render_context_at(document, resolve, compact, minified, now)
}

// ---------------------------------------------------------------------------
// Health counts
// ---------------------------------------------------------------------------

/// Whether some section has this path.
pub open spec fn path_known(ss: Seq<SectionV>, path: Seq<char>) -> bool {
    exists|i: int| 0 <= i < ss.len() && ss[i].path == path
}

/// How many of these relations point at no section of `all`.
pub open spec fn dangling(rs: Seq<GraphRelationV>, all: Seq<SectionV>) -> nat
    decreases rs.len(),
{
    if rs.len() == 0 {
        0
    } else {
        dangling(rs.drop_last(), all) + if path_known(all, rs.last().to) { 0nat } else { 1nat }
    }
}

/// How many relations of these sections point at no section of `all`.
pub open spec fn orphaned(ss: Seq<SectionV>, all: Seq<SectionV>) -> nat
    decreases ss.len(),
{
    if ss.len() == 0 {
        0
    } else {
        orphaned(ss.drop_last(), all) + match ss.last().graph {
            Some(g) => dangling(g.relations, all),
            None => 0nat,
        }
    }
}

/// `n`, or `usize::MAX` where it is larger.
pub open spec fn capped(n: nat) -> usize {
    if n > usize::MAX { usize::MAX } else { n as usize }
}

fn path_known_exec(sections: &Vec<Section>, path: &str) -> (r: bool)
    ensures
        r == path_known(section_views(sections@), path@),
{
    let ghost ss = section_views(sections@);
    let mut i: usize = 0;
    while i < sections.len()
        invariant
            ss == section_views(sections@),
            i <= ss.len(),
            forall|j: int| 0 <= j < i ==> ss[j].path != path@,
        decreases ss.len() - i,
    {
        if str_eq(sections[i].path.as_str(), path) {
            assert(ss[i as int].path == path@);
            return true;
        }
        i += 1;
    }
    false
}

/// The relations that point at no section.
pub fn count_orphaned_edges(document: &RbmemDocument) -> (r: usize)
    ensures
        r == capped(orphaned(document@.sections, document@.sections)),
{
    let ghost all = section_views(document.sections@);
    let mut count: usize = 0;
    let mut i: usize = 0;
    assert(all.take(0) =~= Seq::<SectionV>::empty());
    while i < document.sections.len()
        invariant
            all == section_views(document.sections@),
            i <= all.len(),
            count == capped(orphaned(all.take(i as int), all)),
        decreases all.len() - i,
    {
        assert(all.take(i + 1).drop_last() =~= all.take(i as int));
        assert(all.take(i + 1).last() == document.sections@[i as int]@);
        let ghost before = orphaned(all.take(i as int), all);
        match &document.sections[i].graph {
            Some(g) => {
                let ghost rs = relation_views(g.relations@);
                let mut j: usize = 0;
                assert(rs.take(0) =~= Seq::<GraphRelationV>::empty());
                while j < g.relations.len()
                    invariant
                        all == section_views(document.sections@),
                        rs == relation_views(g.relations@),
                        j <= rs.len(),
                        count == capped(before + dangling(rs.take(j as int), all)),
                    decreases rs.len() - j,
                {
                    assert(rs.take(j + 1).drop_last() =~= rs.take(j as int));
                    assert(rs.take(j + 1).last() == g.relations@[j as int]@);
                    if !path_known_exec(&document.sections, g.relations[j].to.as_str()) {
                        if count < usize::MAX {
                            count += 1;
                        }
                    }
                    j += 1;
                }
                assert(rs.take(rs.len() as int) =~= rs);
            },
            None => {},
        }
        i += 1;
    }
    assert(all.take(all.len() as int) =~= all);
    count
}

/// How many earlier sections share this section's path but not its content.
pub open spec fn clashes(prefix: Seq<SectionV>, s: SectionV) -> nat
    decreases prefix.len(),
{
    if prefix.len() == 0 {
        0
    } else {
        clashes(prefix.drop_last(), s) + if prefix.last().path == s.path && prefix.last().content != s.content {
            1nat
        } else {
            0nat
        }
    }
}

/// The pairs of sections with one path and different content.
pub open spec fn conflict_pairs(ss: Seq<SectionV>) -> nat
    decreases ss.len(),
{
    if ss.len() == 0 {
        0
    } else {
        conflict_pairs(ss.drop_last()) + clashes(ss.drop_last(), ss.last())
    }
}

pub fn count_conflicts(document: &RbmemDocument) -> (r: usize)
    ensures
        r == capped(conflict_pairs(document@.sections)),
{
    let ghost all = section_views(document.sections@);
    let mut count: usize = 0;
    let mut i: usize = 0;
    assert(all.take(0) =~= Seq::<SectionV>::empty());
    while i < document.sections.len()
        invariant
            all == section_views(document.sections@),
            i <= all.len(),
            count == capped(conflict_pairs(all.take(i as int))),
        decreases all.len() - i,
    {
        let ghost pre = all.take(i as int);
        assert(all.take(i + 1).drop_last() =~= pre);
        assert(all.take(i + 1).last() == document.sections@[i as int]@);
        let ghost before = conflict_pairs(pre);
        let mut k: usize = 0;
        assert(pre.take(0) =~= Seq::<SectionV>::empty());
        while k < i
            invariant
                all == section_views(document.sections@),
                i < all.len(),
                pre == all.take(i as int),
                k <= i,
                count == capped(before + clashes(pre.take(k as int), all[i as int])),
            decreases i - k,
        {
            assert(pre.take(k + 1).drop_last() =~= pre.take(k as int));
            assert(pre.take(k + 1).last() == document.sections@[k as int]@);
            if str_eq(document.sections[k].path.as_str(), document.sections[i].path.as_str())
                && !str_eq(document.sections[k].content.as_str(), document.sections[i].content.as_str()) {
                if count < usize::MAX {
                    count += 1;
                }
            }
            k += 1;
        }
        assert(pre.take(i as int) =~= pre);
        i += 1;
    }
    assert(all.take(all.len() as int) =~= all);
    count
}

/// How many sections were last updated before the cutoff.
pub open spec fn updated_before(ss: Seq<SectionV>, cutoff: Timestamp) -> nat
    decreases ss.len(),
{
    if ss.len() == 0 {
        0
    } else {
        updated_before(ss.drop_last(), cutoff) + if ss.last().temporal.updated_at.lt(cutoff) { 1nat } else { 0nat }
    }
}

/// The sections not updated within `stale_days` days of `now`.
pub fn count_stale(document: &RbmemDocument, now: Timestamp, stale_days: u64) -> (r: usize)
    requires
        now.valid(),
        stale_days <= i64::MAX,
        days_fit(now, (-(stale_days as int)) as i64),
    ensures
        r == updated_before(document@.sections, spec_plus_days(now, (-(stale_days as int)) as i64)),
{
    let days: i64 = stale_days as i64;
    let cutoff = plus_days(&now, -days);
    let ghost all = section_views(document.sections@);
    let mut count: usize = 0;
    let mut i: usize = 0;
    assert(all.take(0) =~= Seq::<SectionV>::empty());
    while i < document.sections.len()
        invariant
            all == section_views(document.sections@),
            i <= all.len(),
            count == updated_before(all.take(i as int), cutoff),
            count <= i,
        decreases all.len() - i,
    {
        assert(all.take(i + 1).drop_last() =~= all.take(i as int));
        assert(all.take(i + 1).last() == document.sections@[i as int]@);
        if document.sections[i].temporal.updated_at.is_before(&cutoff) {
            count += 1;
        }
        i += 1;
    }
    assert(all.take(all.len() as int) =~= all);
    count
}

// ---------------------------------------------------------------------------
// Guards
// ---------------------------------------------------------------------------

/// The limits that a guards section holds.
#[derive(Debug, Clone, PartialEq, Eq, Default)]
pub struct GuardConstraint {
    pub max_tokens: Option<u64>,
    pub max_iterations: Option<u64>,
    pub max_retries: Option<u64>,
    pub output_validation: Option<String>,
}

pub struct GuardConstraintV {
    pub max_tokens: Option<u64>,
    pub max_iterations: Option<u64>,
    pub max_retries: Option<u64>,
    pub output_validation: Option<Seq<char>>,
}

impl View for GuardConstraint {
    type V = GuardConstraintV;

    open spec fn view(&self) -> GuardConstraintV {
        GuardConstraintV {
            max_tokens: self.max_tokens,
            max_iterations: self.max_iterations,
            max_retries: self.max_retries,
            output_validation: match self.output_validation {
                Some(s) => Some(s@),
                None => None,
            },
        }
    }
}

pub open spec fn empty_text() -> Seq<char> {
    "cannot parse integer from empty string"@
}

pub open spec fn bad_digit_text() -> Seq<char> {
    "invalid digit found in string"@
}

pub open spec fn too_large_text() -> Seq<char> {
    "number too large to fit in target type"@
}

/// Decimal digits read left to right onto `acc`; the first character that is
/// no digit, or the first digit that takes the value past `u64::MAX`, fails.
pub open spec fn scan_digits(s: Seq<char>, acc: nat) -> Result<nat, Seq<char>>
    decreases s.len(),
{
    if s.len() == 0 {
        Ok(acc)
    } else if !('0' <= s[0] && s[0] <= '9') {
        Err(bad_digit_text())
    } else {
        let v = acc * 10 + ((s[0] as u32) - ('0' as u32));
        if v > u64::MAX {
            Err(too_large_text())
        } else {
            scan_digits(s.drop_first(), v as nat)
        }
    }
}

/// What `str::parse::<u64>` gives, with its error's message: one leading `+`
/// is allowed before the digits.
pub open spec fn parsed_u64(s: Seq<char>) -> Result<nat, Seq<char>> {
    if s.len() == 0 {
        Err(empty_text())
    } else if s.len() == 1 && (s[0] == '+' || s[0] == '-') {
        Err(bad_digit_text())
    } else if s[0] == '+' {
        scan_digits(s.drop_first(), 0)
    } else {
        scan_digits(s, 0)
    }
}

proof fn lemma_scan_bound(s: Seq<char>, acc: nat)
    ensures
        scan_digits(s, acc) matches Ok(n) ==> n <= u64::MAX || s.len() == 0,
    decreases s.len(),
{
    if s.len() > 0 && '0' <= s[0] && s[0] <= '9' {
        let v = acc * 10 + ((s[0] as u32) - ('0' as u32));
        if v <= u64::MAX {
            lemma_scan_bound(s.drop_first(), v as nat);
        }
    }
}

/// Reads a decimal `u64` as `str::parse` does.
pub fn parse_u64_text(value: &str) -> (r: Result<u64, RbmemError>)
    ensures
        match parsed_u64(value@) {
            Ok(n) => r == Ok::<u64, RbmemError>(n as u64),
            Err(m) => parse_err(r, m),
        },
{
    let v = crate::text::chars_of(value);
    let n = v.len();
    if n == 0 {
        return Err(RbmemError::Parse("cannot parse integer from empty string".to_owned()));
    }
    if n == 1 && (v[0] == '+' || v[0] == '-') {
        return Err(RbmemError::Parse("invalid digit found in string".to_owned()));
    }
    let mut i: usize = if v[0] == '+' { 1 } else { 0 };
    let ghost body = if v@[0] == '+' { v@.drop_first() } else { v@ };
    let mut acc: u64 = 0;
    assert(v@.skip(i as int) =~= body);
    while i < n
        invariant
            n == v@.len(),
            i <= n,
            n > 0,
            v@ == value@,
            parsed_u64(value@) == scan_digits(v@.skip(i as int), acc as nat),
        decreases n - i,
    {
        let c = v[i];
        assert(v@.skip(i as int)[0] == c);
        assert(v@.skip(i as int).drop_first() =~= v@.skip(i + 1));
        if !('0' <= c && c <= '9') {
            return Err(RbmemError::Parse("invalid digit found in string".to_owned()));
        }
        let d: u64 = (c as u32 - '0' as u32) as u64;
        let next = match acc.checked_mul(10) {
            Some(m) => m.checked_add(d),
            None => None,
        };
        match next {
            Some(x) => {
                acc = x;
            },
            None => {
                return Err(RbmemError::Parse("number too large to fit in target type".to_owned()));
            },
        }
        i += 1;
    }
    assert(v@.skip(n as int) =~= Seq::<char>::empty());
    Ok(acc)
}

/// The limits with one of them set from text.
pub open spec fn guard_set(g: GuardConstraintV, kind: Seq<char>, value: Seq<char>) -> Result<GuardConstraintV, Seq<char>> {
    if kind == "max-tokens"@ {
        match parsed_u64(value) {
            Ok(n) => Ok(GuardConstraintV { max_tokens: Some(n as u64), ..g }),
            Err(m) => Err(m),
        }
    } else if kind == "max-iterations"@ {
        match parsed_u64(value) {
            Ok(n) => Ok(GuardConstraintV { max_iterations: Some(n as u64), ..g }),
            Err(m) => Err(m),
        }
    } else if kind == "max-retries"@ {
        match parsed_u64(value) {
            Ok(n) => Ok(GuardConstraintV { max_retries: Some(n as u64), ..g }),
            Err(m) => Err(m),
        }
    } else if kind == "output-validation"@ {
        Ok(GuardConstraintV { output_validation: Some(value), ..g })
    } else {
        Err("unknown guard type: "@ + kind)
    }
}

pub fn set_guard(guards: &mut GuardConstraint, guard_type: &str, value: &str) -> (r: Result<(), RbmemError>)
    ensures
        match guard_set(old(guards)@, guard_type@, value@) {
            Ok(g) => r is Ok && final(guards)@ == g,
            Err(m) => parse_err(r, m) && final(guards)@ == old(guards)@,
        },
{
    if str_eq(guard_type, "max-tokens") {
        guards.max_tokens = Some(parse_u64_text(value)?);
    } else if str_eq(guard_type, "max-iterations") {
        guards.max_iterations = Some(parse_u64_text(value)?);
    } else if str_eq(guard_type, "max-retries") {
        guards.max_retries = Some(parse_u64_text(value)?);
    } else if str_eq(guard_type, "output-validation") {
        guards.output_validation = Some(value.to_owned());
    } else {
        return Err(RbmemError::Parse(prefixed("unknown guard type: ", guard_type)));
    }
    Ok(())
}

/// The limits with one of them cleared.
pub open spec fn guard_cleared(g: GuardConstraintV, kind: Seq<char>) -> Result<GuardConstraintV, Seq<char>> {
    if kind == "max-tokens"@ {
        Ok(GuardConstraintV { max_tokens: None, ..g })
    } else if kind == "max-iterations"@ {
        Ok(GuardConstraintV { max_iterations: None, ..g })
    } else if kind == "max-retries"@ {
        Ok(GuardConstraintV { max_retries: None, ..g })
    } else if kind == "output-validation"@ {
        Ok(GuardConstraintV { output_validation: None, ..g })
    } else {
        Err("unknown guard type: "@ + kind)
    }
}

pub fn clear_guard(guards: &mut GuardConstraint, guard_type: &str) -> (r: Result<(), RbmemError>)
    ensures
        match guard_cleared(old(guards)@, guard_type@) {
            Ok(g) => r is Ok && final(guards)@ == g,
            Err(m) => parse_err(r, m) && final(guards)@ == old(guards)@,
        },
{
    if str_eq(guard_type, "max-tokens") {
        guards.max_tokens = None;
    } else if str_eq(guard_type, "max-iterations") {
        guards.max_iterations = None;
    } else if str_eq(guard_type, "max-retries") {
        guards.max_retries = None;
    } else if str_eq(guard_type, "output-validation") {
        guards.output_validation = None;
    } else {
        return Err(RbmemError::Parse(prefixed("unknown guard type: ", guard_type)));
    }
    Ok(())
}

/// The index of the first section of this type.
pub open spec fn first_of_type(ss: Seq<SectionV>, t: SectionType) -> Option<int> {
    if exists|i: int| 0 <= i < ss.len() && ss[i].section_type == t {
        Some(choose|i: int| 0 <= i < ss.len() && ss[i].section_type == t && forall|j: int| 0 <= j < i ==> ss[j].section_type != t)
    } else {
        None
    }
}

/// The index of the first guards section.
pub fn guards_index(document: &RbmemDocument) -> (r: Option<usize>)
    ensures
        r matches Some(i) ==> first_of_type(document@.sections, SectionType::Guards) == Some(i as int) && i < document@.sections.len(),
        r is None ==> first_of_type(document@.sections, SectionType::Guards) is None,
{
    let ghost ss = document@.sections;
    let mut i: usize = 0;
    while i < document.sections.len()
        invariant
            ss == document@.sections,
            i <= ss.len(),
            forall|j: int| 0 <= j < i ==> ss[j].section_type != SectionType::Guards,
        decreases ss.len() - i,
    {
        if document.sections[i].section_type == SectionType::Guards {
            assert(ss[i as int].section_type == SectionType::Guards);
            let ghost k = choose|k: int| 0 <= k < ss.len() && ss[k].section_type == SectionType::Guards
                && forall|j: int| 0 <= j < k ==> ss[j].section_type != SectionType::Guards;
            assert(k == i) by {
                if k < i {
                } else if k > i {
                    assert(ss[i as int].section_type != SectionType::Guards);
                }
            }
            return Some(i);
        }
        i += 1;
    }
    None
}

pub open spec fn no_guards_text() -> Seq<char> {
    "no guards section found"@
}

/// The text of the first guards section.
pub fn guards_content(document: &RbmemDocument) -> (r: Result<String, RbmemError>)
    ensures
        match first_of_type(document@.sections, SectionType::Guards) {
            Some(i) => r matches Ok(c) && c@ == document@.sections[i].content,
            None => parse_err(r, no_guards_text()),
        },
{
    match guards_index(document) {
        Some(i) => Ok(document.sections[i].content.clone()),
        None => Err(RbmemError::Parse("no guards section found".to_owned())),
    }
}

/// The provenance given to a guards section first written by a user.
pub open spec fn user_source() -> SourceInfoV {
    SourceInfoV { kind: "cli"@, path: None, actor: Some("user"@), hash: None }
}

/// The first guards section holding new text:
/// updated now, with the user as its source where it had none and
/// `mark_source` asks for it.
pub open spec fn guards_stored(d: DocumentV, i: int, content: Seq<char>, now: Timestamp, mark_source: bool) -> DocumentV {
    let s = d.sections[i];
    DocumentV {
        meta: MetaV { last_updated: now, ..d.meta },
        sections: d.sections.update(i, SectionV {
            content,
            temporal: Temporal { updated_at: now, ..s.temporal },
            source: if mark_source && s.source is None { Some(user_source()) } else { s.source },
            ..s
        }),
        ..d
    }
}

pub fn store_guards(document: &mut RbmemDocument, content: String, now: Timestamp, mark_source: bool) -> (r: Result<(), RbmemError>)
    ensures
        match first_of_type(old(document)@.sections, SectionType::Guards) {
            Some(i) => r is Ok && final(document)@ == guards_stored(old(document)@, i, content@, now, mark_source),
            None => parse_err(r, no_guards_text()) && final(document)@ == old(document)@,
        },
{
    let i = match guards_index(document) {
        Some(i) => i,
        None => {
            return Err(RbmemError::Parse("no guards section found".to_owned()));
        },
    };
    let ghost before = section_views(document.sections@);
    let mut s = document.sections[i].duplicate();
    s.content = content;
    s.temporal.updated_at = now;
    if mark_source && s.source.is_none() {
        s.source = Some(SourceInfo { kind: "cli".to_owned(), path: None, actor: Some("user".to_owned()), hash: None });
    }
    let ghost sv = s@;
    document.sections.set(i, s);
    document.meta.last_updated = now;
    assert(section_views(document.sections@) =~= before.update(i as int, sv));
    Ok(())
}

// ---------------------------------------------------------------------------
// Review
// ---------------------------------------------------------------------------

/// Whether a section from a source of this kind waits for review: written
/// by an agent, a model or automation, or by anything named for review.
pub open spec fn flags_review(kind: Option<Seq<char>>) -> bool {
    match kind {
        Some(k) => k == "agent"@ || k == "llm"@ || k == "auto"@ || crate::text::contains(k, "review"@),
        None => false,
    }
}

pub open spec fn source_kind(s: SectionV) -> Option<Seq<char>> {
    match s.source {
        Some(x) => Some(x.kind),
        None => None,
    }
}

pub fn should_flag(section: &Section) -> (r: bool)
    ensures
        r == flags_review(source_kind(section@)),
{
    match &section.source {
        Some(src) => {
            let k = src.kind.as_str();
            str_eq(k, "agent") || str_eq(k, "llm") || str_eq(k, "auto") || crate::text::contains_chars(
                &crate::text::chars_of(k), &crate::text::chars_of("review"))
        },
        None => false,
    }
}

/// The sections waiting for review, in order.
pub open spec fn pending_review(ss: Seq<SectionV>) -> Seq<SectionV>
    decreases ss.len(),
{
    if ss.len() == 0 {
        ss
    } else {
        let prev = pending_review(ss.drop_last());
        if flags_review(source_kind(ss.last())) {
            prev.push(ss.last())
        } else {
            prev
        }
    }
}

/// The text a pending section is written as in the review file.
pub open spec fn review_entry(s: SectionV) -> Seq<char> {
    "[REVIEW] type="@ + section_type_name(s.section_type) + "\n"@ + s.content + "\n"@
}

/// The review file: a document made now for `review`, with each pending
/// section upserted as a `review` section in turn.
pub open spec fn review_of(ps: Seq<SectionV>, now: Timestamp) -> DocumentV
    decreases ps.len(),
{
    if ps.len() == 0 {
        RbmemDocument::spec_new(now, "review"@)
    } else {
        let s = ps.last();
        RbmemDocument::spec_upsert(review_of(ps.drop_last(), now), s.path, SectionType::Review, review_entry(s), now)
    }
}

proof fn lemma_review_expiry(ps: Seq<SectionV>, now: Timestamp)
    ensures
        review_of(ps, now).meta.default_expiry_days is None,
    decreases ps.len(),
{
    if ps.len() > 0 {
        lemma_review_expiry(ps.drop_last(), now);
    }
}

/// The sections waiting for review and the review file for them.
pub fn review_document(document: &RbmemDocument, now: Timestamp) -> (r: (Vec<Section>, RbmemDocument))
    requires
        now.valid(),
    ensures
        section_views(r.0@) == pending_review(document@.sections),
        r.1@ == review_of(pending_review(document@.sections), now),
{
    let ghost all = section_views(document.sections@);
    let mut pending: Vec<Section> = Vec::new();
    let mut review = RbmemDocument::new(now, "review");
    let mut i: usize = 0;
    assert(all.take(0) =~= Seq::<SectionV>::empty());
    assert(section_views(pending@) =~= Seq::<SectionV>::empty());
    while i < document.sections.len()
        invariant
            all == section_views(document.sections@),
            i <= all.len(),
            now.valid(),
            section_views(pending@) == pending_review(all.take(i as int)),
            review@ == review_of(section_views(pending@), now),
        decreases all.len() - i,
    {
        assert(all.take(i + 1).drop_last() =~= all.take(i as int));
        assert(all.take(i + 1).last() == document.sections@[i as int]@);
        if should_flag(&document.sections[i]) {
            let s = &document.sections[i];
            let ghost prev = section_views(pending@);
            let mut entry = String::new();
            entry.push_str("[REVIEW] type=");
            entry.push_str(s.section_type.as_str());
            entry.push_str("\n");
            entry.push_str(s.content.as_str());
            entry.push_str("\n");
            proof {
                lemma_review_expiry(prev, now);
            }
            review.upsert_section(s.path.as_str(), SectionType::Review, entry, now);
            pending.push(s.duplicate());
            assert(section_views(pending@) =~= prev.push(all[i as int]));
            assert(section_views(pending@).drop_last() =~= prev);
        }
        i += 1;
    }
    assert(all.take(all.len() as int) =~= all);
    (pending, review)
}

/// The type named after `type=` on a review entry's first line, `text`
/// where there is none.
pub open spec fn review_type_name(content: Seq<char>) -> Seq<char> {
    let ls = crate::text::lines(content);
    if ls.len() == 0 {
        "text"@
    } else {
        match crate::text::split_once(ls[0], "type="@) {
            None => "text"@,
            Some(parts) => {
                let ws = crate::text::words(parts.1);
                if ws.len() == 0 {
                    "text"@
                } else {
                    ws[0]
                }
            },
        }
    }
}

/// What follows the first `]` and newline of a review entry, empty where
/// there is none.
pub open spec fn review_body(content: Seq<char>) -> Seq<char> {
    match crate::text::split_once(content, "]\n"@) {
        Some(parts) => parts.1,
        None => Seq::empty(),
    }
}

/// The type a review entry is committed with.
pub open spec fn review_type(content: Seq<char>) -> SectionType {
    match crate::document::parse_section_type(review_type_name(content)) {
        Some(t) => t,
        None => SectionType::Text,
    }
}

/// The target with every review section of the pending file committed, in
/// order.
pub open spec fn committed(ss: Seq<SectionV>, target: DocumentV, now: Timestamp) -> DocumentV
    decreases ss.len(),
{
    if ss.len() == 0 {
        target
    } else {
        let prev = committed(ss.drop_last(), target, now);
        let s = ss.last();
        if s.section_type == SectionType::Review {
            RbmemDocument::spec_upsert(prev, s.path, review_type(s.content), review_body(s.content), now)
        } else {
            prev
        }
    }
}

/// How many review sections there are.
pub open spec fn review_count(ss: Seq<SectionV>) -> nat
    decreases ss.len(),
{
    if ss.len() == 0 {
        0
    } else {
        review_count(ss.drop_last()) + if ss.last().section_type == SectionType::Review { 1nat } else { 0nat }
    }
}

proof fn lemma_committed_expiry(ss: Seq<SectionV>, target: DocumentV, now: Timestamp)
    ensures
        committed(ss, target, now).meta.default_expiry_days == target.meta.default_expiry_days,
    decreases ss.len(),
{
    if ss.len() > 0 {
        lemma_committed_expiry(ss.drop_last(), target, now);
    }
}

fn review_type_exec(content: &str) -> (r: SectionType)
    ensures
        r == review_type(content@),
{
    let c = crate::text::chars_of(content);
    let ls = crate::text::split_lines(&c);
    let mut name: Vec<char> = crate::text::chars_of("text");
    if ls.len() > 0 {
        assert(crate::text::views(ls@)[0] == ls@[0]@);
        let pat = crate::text::chars_of("type=");
        match crate::text::split_once_chars(&ls[0], &pat) {
            Some((_, after)) => {
                let ws = crate::text::split_words(&after);
                if ws.len() > 0 {
                    assert(crate::text::views(ws@)[0] == ws@[0]@);
                    name = crate::text::copy_range(&ws[0], 0, ws[0].len());
                    assert(name@ =~= ws@[0]@);
                }
            },
            None => {},
        }
    }
    let text = crate::text::string_of(&name);
    match SectionType::from_str(text.as_str()) {
        Ok(t) => t,
        Err(_) => SectionType::Text,
    }
}

fn review_body_exec(content: &str) -> (r: String)
    ensures
        r@ == review_body(content@),
{
    let c = crate::text::chars_of(content);
    let pat = crate::text::chars_of("]\n");
    match crate::text::split_once_chars(&c, &pat) {
        Some((_, after)) => crate::text::string_of(&after),
        None => String::new(),
    }
}

/// Commits the review sections of a pending file to the target and returns
/// how many there were.
pub fn commit_reviews(pending: &RbmemDocument, target: &mut RbmemDocument, now: Timestamp) -> (applied: usize)
    requires
        now.valid(),
        expiry_fits(now, old(target)@.meta.default_expiry_days),
    ensures
        applied == review_count(pending@.sections),
        final(target)@ == committed(pending@.sections, old(target)@, now),
{
    let ghost all = section_views(pending.sections@);
    let ghost start = target@;
    let mut applied: usize = 0;
    let mut i: usize = 0;
    assert(all.take(0) =~= Seq::<SectionV>::empty());
    while i < pending.sections.len()
        invariant
            all == section_views(pending.sections@),
            i <= all.len(),
            now.valid(),
            expiry_fits(now, start.meta.default_expiry_days),
            applied == review_count(all.take(i as int)),
            applied <= i,
            target@ == committed(all.take(i as int), start, now),
        decreases all.len() - i,
    {
        assert(all.take(i + 1).drop_last() =~= all.take(i as int));
        assert(all.take(i + 1).last() == pending.sections@[i as int]@);
        let s = &pending.sections[i];
        if s.section_type == SectionType::Review {
            let t = review_type_exec(s.content.as_str());
            let body = review_body_exec(s.content.as_str());
            proof {
                lemma_committed_expiry(all.take(i as int), start, now);
            }
            target.upsert_section(s.path.as_str(), t, body, now);
            applied += 1;
        }
        i += 1;
    }
    assert(all.take(all.len() as int) =~= all);
    applied
}

// ---------------------------------------------------------------------------
// The review report
// ---------------------------------------------------------------------------

/// A line for each inferred relation of a section.
pub open spec fn inferred_lines(path: Seq<char>, rs: Seq<GraphRelationV>) -> Seq<char>
    decreases rs.len(),
{
    if rs.len() == 0 {
        Seq::empty()
    } else {
        let r = rs.last();
        inferred_lines(path, rs.drop_last()) + if r.inferred {
            "review inferred edge: "@ + path + " -> "@ + r.to + " ("@ + r.relation_type + ")\n"@
        } else {
            Seq::empty()
        }
    }
}

/// What the review report says of one section: its source where an agent
/// or Hermes wrote it, then its inferred relations.
pub open spec fn section_review(s: SectionV) -> Seq<char> {
    (match s.source {
        Some(src) => if src.kind == "agent"@ || src.kind == "hermes"@ {
            "review source: "@ + s.path + " from "@ + src.kind + "\n"@
        } else {
            Seq::empty()
        },
        None => Seq::empty(),
    }) + match s.graph {
        Some(g) => inferred_lines(s.path, g.relations),
        None => Seq::empty(),
    }
}

pub open spec fn sections_review(ss: Seq<SectionV>) -> Seq<char>
    decreases ss.len(),
{
    if ss.len() == 0 {
        Seq::empty()
    } else {
        sections_review(ss.drop_last()) + section_review(ss.last())
    }
}

pub open spec fn warning_lines(ws: Seq<Seq<char>>) -> Seq<char>
    decreases ws.len(),
{
    if ws.len() == 0 {
        Seq::empty()
    } else {
        warning_lines(ws.drop_last()) + "warning: "@ + ws.last() + "\n"@
    }
}

/// The review report: the given warnings and the
/// document's own, or that it is valid, then the agent-written sources and inferred edges to look over.
pub open spec fn review_report_text(d: DocumentV, warnings: Seq<Seq<char>>) -> Seq<char> {
    let all = warnings + validation_warnings(d);
    (if all.len() == 0 { "valid RBMEM v1.4.0\n"@ } else { warning_lines(all) }) + sections_review(d.sections)
}

fn push_section_review(out: &mut String, s: &Section)
    ensures
        final(out)@ == old(out)@ + section_review(s@),
{
    let ghost start = out@;
    match &s.source {
        Some(src) => {
            if str_eq(src.kind.as_str(), "agent") || str_eq(src.kind.as_str(), "hermes") {
                out.push_str("review source: ");
                out.push_str(s.path.as_str());
                out.push_str(" from ");
                out.push_str(src.kind.as_str());
                out.push_str("\n");
            }
        },
        None => {},
    }
    let ghost mid = out@;
    match &s.graph {
        Some(g) => {
            let ghost rs = relation_views(g.relations@);
            let mut i: usize = 0;
            assert(rs.take(0) =~= Seq::<GraphRelationV>::empty());
            while i < g.relations.len()
                invariant
                    rs == relation_views(g.relations@),
                    i <= rs.len(),
                    out@ == mid + inferred_lines(s.path@, rs.take(i as int)),
                decreases rs.len() - i,
            {
                assert(rs.take(i + 1).drop_last() =~= rs.take(i as int));
                assert(rs.take(i + 1).last() == g.relations@[i as int]@);
                let r = &g.relations[i];
                if r.inferred {
                    out.push_str("review inferred edge: ");
                    out.push_str(s.path.as_str());
                    out.push_str(" -> ");
                    out.push_str(r.to.as_str());
                    out.push_str(" (");
                    out.push_str(r.relation_type.as_str());
                    out.push_str(")\n");
                }
                i += 1;
            }
            assert(rs.take(rs.len() as int) =~= rs);
        },
        None => {},
    }
}

pub fn review_report(document: &RbmemDocument, warnings: Vec<String>) -> (r: String)
    ensures
        r@ == review_report_text(document@, string_views(warnings@)),
{
    let mut all = warnings;
    let ghost given = string_views(all@);
    let found = document.validate();
    let mut k: usize = 0;
    while k < found.len()
        invariant
            k <= found@.len(),
            string_views(all@) == given + string_views(found@).take(k as int),
        decreases found@.len() - k,
    {
        let ghost before = string_views(all@);
        all.push(found[k].clone());
        assert(string_views(all@) =~= before.push(found@[k as int]@));
        assert(string_views(found@).take(k + 1) =~= string_views(found@).take(k as int).push(found@[k as int]@));
        k += 1;
    }
    assert(string_views(found@).take(found@.len() as int) =~= string_views(found@));
    let ghost ws = string_views(all@);
    let mut out = String::new();
    if all.len() == 0 {
        out.push_str("valid RBMEM v1.4.0\n");
    } else {
        let mut i: usize = 0;
        assert(ws.take(0) =~= Seq::<Seq<char>>::empty());
        while i < all.len()
            invariant
                ws == string_views(all@),
                i <= ws.len(),
                out@ == warning_lines(ws.take(i as int)),
            decreases ws.len() - i,
        {
            assert(ws.take(i + 1).drop_last() =~= ws.take(i as int));
            assert(ws.take(i + 1).last() == all@[i as int]@);
            out.push_str("warning: ");
            out.push_str(all[i].as_str());
            out.push_str("\n");
            i += 1;
        }
        assert(ws.take(ws.len() as int) =~= ws);
    }
    let ghost head = out@;
    let ghost ss = section_views(document.sections@);
    let mut j: usize = 0;
    assert(ss.take(0) =~= Seq::<SectionV>::empty());
    while j < document.sections.len()
        invariant
            ss == section_views(document.sections@),
            j <= ss.len(),
            out@ == head + sections_review(ss.take(j as int)),
        decreases ss.len() - j,
    {
        assert(ss.take(j + 1).drop_last() =~= ss.take(j as int));
        assert(ss.take(j + 1).last() == document.sections@[j as int]@);
        push_section_review(&mut out, &document.sections[j]);
        j += 1;
    }
    assert(ss.take(ss.len() as int) =~= ss);
    out
}

} // verus!
