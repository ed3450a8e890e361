//! The compact and minified forms of a document: what an agent reads when
//! tokens are scarce, optionally with every section resolved against its
//! parents.
use vstd::prelude::*;
use crate::document::{section_type_name, section_views, EncryptedPayload, RbmemDocument, SectionType, SectionV, Temporal, opt_payload_view, MetaV, DocumentV};
use crate::resolve::{lemma_resolved_times, resolved, resolved_views, times_ok};
use crate::text::{chars_of, join, join_chars, lines, push_chars, split_lines, split_words, trim, trimmed, views, words};
use crate::time::Timestamp;
use crate::writer::{content_block, encrypted_text, escaped, optional_time_text, push_escaped, push_optional_time, write_content_block, write_encrypted_fields, RbmemWriteStyle};

verus! {

// ---------------------------------------------------------------------------
// Compact form
// ---------------------------------------------------------------------------

/// The compact `meta:` block: version, the version read where it was
/// normalized, and purpose.
pub open spec fn compact_meta_text(m: MetaV) -> Seq<char> {
    "meta:\n"@ + "  version: "@ + m.version + "\n"@ + match m.source_version {
        Some(v) => "  _source_version: \""@ + escaped(v) + "\"\n"@,
        None => Seq::empty(),
    } + "  purpose: \""@ + escaped(m.purpose) + "\"\n\n"@
}

/// A section in the compact form: path, type, the expiry only where it has
/// passed, and the content (or the encrypted payload).
pub open spec fn compact_section_text(s: SectionV, now: Timestamp) -> Seq<char> {
    "[SECTION: "@ + s.path + "]\n"@ + "type: "@ + section_type_name(s.section_type) + "\n"@ + (if s.temporal.spec_is_expired(now) {
        "temporal:\n"@ + "  expires_at: "@ + optional_time_text(s.temporal.expires_at) + "\n"@
    } else {
        Seq::empty()
    }) + (if s.section_type == SectionType::Encrypted {
        encrypted_text(s.encrypted)
    } else {
        content_block(s.content, RbmemWriteStyle::Canonical)
    }) + "[END SECTION]\n\n"@
}

pub open spec fn compact_sections_text(ss: Seq<SectionV>, now: Timestamp) -> Seq<char>
    decreases ss.len(),
{
    if ss.len() == 0 {
        Seq::empty()
    } else {
        compact_sections_text(ss.drop_last(), now) + compact_section_text(ss.last(), now)
    }
}

/// The whole compact form.
pub open spec fn compact_text(d: DocumentV, resolve: bool, now: Timestamp) -> Seq<char> {
    compact_meta_text(d.meta) + compact_sections_text(if resolve { resolved(d.sections) } else { d.sections }, now)
}

fn write_compact_section(
    out: &mut String,
    path: &str,
    section_type: SectionType,
    temporal: &Temporal,
    encrypted: &Option<EncryptedPayload>,
    content: &str,
    now: Timestamp,
)
    requires
        temporal.valid(),
        encrypted matches Some(p) ==> p.encrypted_at.valid(),
    ensures
        final(out)@ == old(out)@ + compact_section_text(
            SectionV { path: path@, section_type, temporal: *temporal, encrypted: opt_payload_view(*encrypted), content: content@, ..arbitrary() },
            now,
        ),
{
    let ghost s = SectionV { path: path@, section_type, temporal: *temporal, encrypted: opt_payload_view(*encrypted), content: content@, ..arbitrary() };
    out.push_str("[SECTION: ");
    out.push_str(path);
    out.push_str("]\n");
    out.push_str("type: ");
    out.push_str(section_type.as_str());
    out.push_str("\n");
    let ghost head = out@;
    if temporal.is_expired(now) {
        out.push_str("temporal:\n");
        out.push_str("  expires_at: ");
        push_optional_time(out, &temporal.expires_at);
        out.push_str("\n");
    }
    let ghost mid = out@;
    if matches!(section_type, SectionType::Encrypted) {
        write_encrypted_fields(out, encrypted);
    } else {
        write_content_block(out, content, RbmemWriteStyle::Canonical);
    }
    out.push_str("[END SECTION]\n\n");
    assert(out@ =~= old(out)@ + compact_section_text(s, now));
}

fn write_compact_meta(out: &mut String, meta: &crate::document::Meta)
    ensures
        final(out)@ == old(out)@ + compact_meta_text(meta@),
{
    out.push_str("meta:\n");
    out.push_str("  version: ");
    out.push_str(meta.version.as_str());
    out.push_str("\n");
    match &meta.source_version {
        Some(v) => {
            out.push_str("  _source_version: \"");
            push_escaped(out, v.as_str());
            out.push_str("\"\n");
        },
        None => {},
    }
    out.push_str("  purpose: \"");
    push_escaped(out, meta.purpose.as_str());
    out.push_str("\"\n\n");
    assert(out@ =~= old(out)@ + compact_meta_text(meta@));
}

// ---------------------------------------------------------------------------
// Minified form
// ---------------------------------------------------------------------------

/// Runs of white space inside a line turned into single spaces.
pub open spec fn collapse_ws(v: Seq<char>) -> Seq<char> {
    join(words(v), " "@)
}

pub fn collapse_inline_whitespace(v: &[char]) -> (r: Vec<char>)
    ensures
        r@ == collapse_ws(v@),
{
    let ws = split_words(v);
    join_chars(&ws, &chars_of(" "))
}

/// The lines of a content that carry something: trimmed, blank lines and
/// `#` comments dropped, white space collapsed.
pub open spec fn minified_lines(ls: Seq<Seq<char>>) -> Seq<Seq<char>>
    decreases ls.len(),
{
    if ls.len() == 0 {
        Seq::empty()
    } else {
        let prev = minified_lines(ls.drop_last());
        let t = trim(ls.last());
        if t.len() == 0 || t[0] == '#' {
            prev
        } else {
            prev.push(collapse_ws(t))
        }
    }
}

pub fn minified_content_lines(content: &str) -> (r: Vec<Vec<char>>)
    ensures
        views(r@) == minified_lines(lines(content@)),
{
    let ls = split_lines(&chars_of(content));
    let ghost lv = views(ls@);
    let mut out: Vec<Vec<char>> = Vec::new();
    let mut i: usize = 0;
    assert(lv.take(0) =~= Seq::<Seq<char>>::empty());
    while i < ls.len()
        invariant
            i <= ls@.len(),
            lv == views(ls@),
            views(out@) == minified_lines(lv.take(i as int)),
        decreases ls@.len() - i,
    {
        assert(lv.take(i + 1).drop_last() =~= lv.take(i as int));
        assert(lv.take(i + 1).last() == ls@[i as int]@);
        let t = trimmed(&ls[i]);
        if t.len() > 0 && t[0] != '#' {
            let c = collapse_inline_whitespace(&t);
            let ghost before = out@;
            out.push(c);
            assert(views(out@) =~= views(before).push(c@));
        }
        i += 1;
    }
    assert(lv.take(lv.len() as int) =~= lv);
    out
}

/// `[path]`, with ` type=...` for sections that are not plain text.
pub open spec fn minified_header(path: Seq<char>, t: SectionType) -> Seq<char> {
    if t == SectionType::Text {
        "["@ + path + "]"@
    } else {
        "["@ + path + "] type="@ + section_type_name(t)
    }
}

/// Each line ended by a newline.
pub open spec fn line_block(ls: Seq<Seq<char>>) -> Seq<char>
    decreases ls.len(),
{
    if ls.len() == 0 {
        Seq::empty()
    } else {
        line_block(ls.drop_last()) + ls.last() + "\n"@
    }
}

/// A section in the minified form: one line where its content fits on the
/// header line, else the header and the lines below.
pub open spec fn minified_section(path: Seq<char>, t: SectionType, content: Seq<char>) -> Seq<char> {
    let ls = minified_lines(lines(content));
    if ls.len() == 0 {
        minified_header(path, t) + "\n"@
    } else if ls.len() == 1 {
        minified_header(path, t) + " "@ + ls[0] + "\n"@
    } else {
        minified_header(path, t) + "\n"@ + line_block(ls)
    }
}

pub fn write_minified_section(out: &mut String, path: &str, section_type: SectionType, content: &str)
    ensures
        final(out)@ == old(out)@ + minified_section(path@, section_type, content@),
{
    let ls = minified_content_lines(content);
    let ghost lv = views(ls@);
    out.push_str("[");
    out.push_str(path);
    if matches!(section_type, SectionType::Text) {
        out.push_str("]");
    } else {
        out.push_str("] type=");
        out.push_str(section_type.as_str());
    }
    assert(out@ =~= old(out)@ + minified_header(path@, section_type));
    if ls.len() == 0 {
        out.push_str("\n");
        assert(out@ =~= old(out)@ + minified_section(path@, section_type, content@));
        return;
    }
    if ls.len() == 1 {
        out.push_str(" ");
        push_chars(out, &ls[0]);
        out.push_str("\n");
        assert(out@ =~= old(out)@ + minified_section(path@, section_type, content@));
        return;
    }
    out.push_str("\n");
    let ghost start = out@;
    let mut i: usize = 0;
    assert(lv.take(0) =~= Seq::<Seq<char>>::empty());
    assert(start + line_block(lv.take(0)) =~= start);
    while i < ls.len()
        invariant
            i <= ls@.len(),
            lv == views(ls@),
            out@ == start + line_block(lv.take(i as int)),
        decreases ls@.len() - i,
    {
        push_chars(out, &ls[i]);
        out.push_str("\n");
        assert(lv.take(i + 1).drop_last() =~= lv.take(i as int));
        assert(lv.take(i + 1).last() == ls@[i as int]@);
        i += 1;
        assert(out@ =~= start + line_block(lv.take(i as int)));
    }
    assert(lv.take(lv.len() as int) =~= lv);
    assert(out@ =~= old(out)@ + minified_section(path@, section_type, content@));
}

pub open spec fn minified_sections(ss: Seq<SectionV>) -> Seq<char>
    decreases ss.len(),
{
    if ss.len() == 0 {
        Seq::empty()
    } else {
        minified_sections(ss.drop_last()) + minified_section(ss.last().path, ss.last().section_type, ss.last().content)
    }
}

/// The whole minified form.
pub open spec fn minified_text(d: DocumentV, resolve: bool) -> Seq<char> {
    "@ v="@ + d.meta.version + " purpose=\""@ + escaped(d.meta.purpose) + "\"\n"@ + minified_sections(
        if resolve { resolved(d.sections) } else { d.sections },
    )
}

impl RbmemDocument {
    /// The compact form, each section resolved against its parents when
    /// `resolve` is set.
    pub fn to_compact_string(&self, resolve: bool, now: Timestamp) -> (r: String)
        requires
            self@.valid(),
        ensures
            r@ == compact_text(self@, resolve, now),
    {
        let mut out = String::new();
        write_compact_meta(&mut out, &self.meta);
        let ghost head = out@;
        let ghost ss = self@.sections;
        assert forall|i: int| 0 <= i < ss.len() implies times_ok(#[trigger] ss[i]) by {
            assert(ss[i].valid());
        }
        if resolve {
            let rs = self.resolved_sections();
            let ghost rv = resolved_views(rs@);
            proof {
                lemma_resolved_times(ss);
            }
            let mut i: usize = 0;
            assert(rv.take(0) =~= Seq::<SectionV>::empty());
            while i < rs.len()
                invariant
                    i <= rs@.len(),
                    rv == resolved_views(rs@),
                    rv == resolved(ss),
                    forall|j: int| 0 <= j < rv.len() ==> times_ok(#[trigger] rv[j]),
                    out@ == head + compact_sections_text(rv.take(i as int), now),
                decreases rs@.len() - i,
            {
                let s = &rs[i];
                assert(rv[i as int] == s@);
                assert(times_ok(rv[i as int]));
                write_compact_section(&mut out, s.path.as_str(), s.section_type, &s.temporal, &s.encrypted, s.content.as_str(), now);
                assert(rv.take(i + 1).drop_last() =~= rv.take(i as int));
                assert(rv.take(i + 1).last() == s@);
                assert(compact_section_text(s@, now) == compact_section_text(
                    SectionV { path: s.path@, section_type: s.section_type, temporal: s.temporal, encrypted: opt_payload_view(s.encrypted), content: s.content@, ..arbitrary() },
                    now,
                ));
                i += 1;
            }
            assert(rv.take(rv.len() as int) =~= rv);
        } else {
            let mut i: usize = 0;
            assert(ss.take(0) =~= Seq::<SectionV>::empty());
            while i < self.sections.len()
                invariant
                    i <= self.sections@.len(),
                    ss == section_views(self.sections@),
                    forall|j: int| 0 <= j < ss.len() ==> times_ok(#[trigger] ss[j]),
                    out@ == head + compact_sections_text(ss.take(i as int), now),
                decreases self.sections@.len() - i,
            {
                let s = &self.sections[i];
                assert(ss[i as int] == s@);
                assert(times_ok(ss[i as int]));
                write_compact_section(&mut out, s.path.as_str(), s.section_type, &s.temporal, &s.encrypted, s.content.as_str(), now);
                assert(ss.take(i + 1).drop_last() =~= ss.take(i as int));
                assert(ss.take(i + 1).last() == s@);
                assert(compact_section_text(s@, now) == compact_section_text(
                    SectionV { path: s.path@, section_type: s.section_type, temporal: s.temporal, encrypted: opt_payload_view(s.encrypted), content: s.content@, ..arbitrary() },
                    now,
                ));
                i += 1;
            }
            assert(ss.take(ss.len() as int) =~= ss);
        }
        out
    }

    /// The minified form, each section resolved against its parents when
    /// `resolve` is set.
    pub fn to_minified_string(&self, resolve: bool) -> (r: String)
        ensures
            r@ == minified_text(self@, resolve),
    {
        let mut out = String::new();
        out.push_str("@ v=");
        out.push_str(self.meta.version.as_str());
        out.push_str(" purpose=\"");
        push_escaped(&mut out, self.meta.purpose.as_str());
        out.push_str("\"\n");
        let ghost head = out@;
        let ghost ss = self@.sections;
        let ghost chosen = if resolve { resolved(ss) } else { ss };
        if resolve {
            let rs = self.resolved_sections();
            let ghost rv = resolved_views(rs@);
            let mut i: usize = 0;
            assert(rv.take(0) =~= Seq::<SectionV>::empty());
            while i < rs.len()
                invariant
                    i <= rs@.len(),
                    rv == resolved_views(rs@),
                    out@ == head + minified_sections(rv.take(i as int)),
                decreases rs@.len() - i,
            {
                let s = &rs[i];
                write_minified_section(&mut out, s.path.as_str(), s.section_type, s.content.as_str());
                assert(rv.take(i + 1).drop_last() =~= rv.take(i as int));
                assert(rv.take(i + 1).last() == s@);
                i += 1;
            }
            assert(rv.take(rv.len() as int) =~= rv);
        } else {
            let mut i: usize = 0;
            assert(ss.take(0) =~= Seq::<SectionV>::empty());
            while i < self.sections.len()
                invariant
                    i <= self.sections@.len(),
                    ss == section_views(self.sections@),
                    out@ == head + minified_sections(ss.take(i as int)),
                decreases self.sections@.len() - i,
            {
                let s = &self.sections[i];
                write_minified_section(&mut out, s.path.as_str(), s.section_type, s.content.as_str());
                assert(ss.take(i + 1).drop_last() =~= ss.take(i as int));
                assert(ss.take(i + 1).last() == s@);
                i += 1;
            }
            assert(ss.take(ss.len() as int) =~= ss);
        }
        assert(out@ =~= minified_text(self@, resolve));
        out
    }
}

} // verus!
