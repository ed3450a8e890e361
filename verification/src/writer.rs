//! Writing documents as RBMEM text: the canonical form, the human-editable
//! form with short delimiters, and the canonical form without default
//! temporal blocks.
use vstd::prelude::*;
use crate::document::{
    compact_mode_name, section_type_name, EncryptedPayload, EncryptedPayloadV, GraphInfo, GraphInfoV,
    GraphRelation, GraphRelationV, Meta, MetaV, RbmemDocument, Section, SectionType, SectionV,
    SourceInfo, SourceInfoV, DocumentV, opt_source_view, opt_graph_view, opt_payload_view, relation_views,
    section_views,
};
use crate::text::{chars_of, decimal, digit, i64_text, lines, push_chars, signed_decimal, split_lines, trim, trimmed, views};
use crate::time::{rfc3339, rfc3339_text, Timestamp};
use crate::version::RBMEM_FORMAT_LABEL;

verus! {

/// The two layouts the writer knows.
#[derive(Debug, Clone, Copy, PartialEq, Eq, Structural)]
pub enum RbmemWriteStyle {
    /// `[SECTION: path]` ... `[END SECTION]`.
    Canonical,
    /// `=== SECTION: path` ... `=== END SECTION`, with comments for editors.
    Human,
}

#[derive(Debug, Clone, Copy, PartialEq, Eq, Structural)]
pub struct RbmemWriteOptions {
    pub style: RbmemWriteStyle,
    /// Leave out the temporal block of sections whose timestamps say nothing
    /// beyond their creation time.
    pub hide_empty_temporal: bool,
}

impl RbmemWriteOptions {
    pub fn canonical() -> (r: RbmemWriteOptions)
        ensures
            r == (RbmemWriteOptions { style: RbmemWriteStyle::Canonical, hide_empty_temporal: false }),
    {
        RbmemWriteOptions { style: RbmemWriteStyle::Canonical, hide_empty_temporal: false }
    }

    pub fn human() -> (r: RbmemWriteOptions)
        ensures
            r == (RbmemWriteOptions { style: RbmemWriteStyle::Human, hide_empty_temporal: false }),
    {
        RbmemWriteOptions { style: RbmemWriteStyle::Human, hide_empty_temporal: false }
    }
}

// ---------------------------------------------------------------------------
// Pieces of text
// ---------------------------------------------------------------------------

pub open spec fn escape_char(c: char) -> Seq<char> {
    if c == '\\' {
        seq!['\\', '\\']
    } else if c == '"' {
        seq!['\\', '"']
    } else {
        seq![c]
    }
}

/// Backslashes and double quotes escaped with a backslash.
pub open spec fn escaped(s: Seq<char>) -> Seq<char>
    decreases s.len(),
{
    if s.len() == 0 {
        s
    } else {
        escaped(s.drop_last()) + escape_char(s.last())
    }
}

/// A string in double quotes, escaped.
pub open spec fn quoted(s: Seq<char>) -> Seq<char> {
    "\""@ + escaped(s) + "\""@
}

pub open spec fn time_text(t: Timestamp) -> Seq<char> {
    rfc3339_text(t.secs, t.nanos)
}

/// An optional instant: its RFC 3339 text in quotes, or `null`.
pub open spec fn optional_time_text(o: Option<Timestamp>) -> Seq<char> {
    match o {
        Some(t) => "\""@ + time_text(t) + "\""@,
        None => "null"@,
    }
}

/// A confidence in hundredths, clamped to 1, with two decimals.
pub open spec fn confidence_text(c: u32) -> Seq<char> {
    let h: nat = if c > 100 {
        100
    } else {
        c as nat
    };
    decimal(h / 100) + "."@ + seq![digit((h % 100) / 10), digit(h % 10)]
}

pub fn push_escaped(out: &mut String, value: &str)
    ensures
        final(out)@ == old(out)@ + escaped(value@),
{
    let v = chars_of(value);
    let mut i: usize = 0;
    assert(escaped(v@.take(0)) =~= Seq::<char>::empty());
    assert(old(out)@ + Seq::<char>::empty() =~= old(out)@);
    while i < v.len()
        invariant
            i <= v@.len(),
            v@ == value@,
            out@ == old(out)@ + escaped(v@.take(i as int)),
        decreases v@.len() - i,
    {
        let c = v[i];
        let ghost before = out@;
        if c == '\\' {
            out.push('\\');
            out.push('\\');
        } else if c == '"' {
            out.push('\\');
            out.push('"');
        } else {
            out.push(c);
        }
        assert(v@.take(i + 1).drop_last() =~= v@.take(i as int));
        assert(v@.take(i + 1).last() == c);
        i += 1;
        assert(out@ =~= old(out)@ + escaped(v@.take(i as int)));
    }
    assert(v@.take(v@.len() as int) =~= v@);
}

/// `escape_string`: backslashes and double quotes escaped.
pub fn escape_string(value: &str) -> (r: String)
    ensures
        r@ == escaped(value@),
{
    let mut out = String::new();
    push_escaped(&mut out, value);
    assert(out@ =~= escaped(value@));
    out
}

fn push_quoted(out: &mut String, value: &str)
    ensures
        final(out)@ == old(out)@ + quoted(value@),
{
    out.push_str("\"");
    push_escaped(out, value);
    out.push_str("\"");
    assert(out@ =~= old(out)@ + quoted(value@));
}

fn push_time(out: &mut String, t: &Timestamp)
    requires
        t.valid(),
    ensures
        final(out)@ == old(out)@ + time_text(*t),
{
    let text = rfc3339(t);
    out.push_str(text.as_str());
}

pub fn push_optional_time(out: &mut String, o: &Option<Timestamp>)
    requires
        o matches Some(t) ==> t.valid(),
    ensures
        final(out)@ == old(out)@ + optional_time_text(*o),
{
    match o {
        Some(t) => {
            out.push_str("\"");
            push_time(out, t);
            out.push_str("\"");
            assert(out@ =~= old(out)@ + optional_time_text(*o));
        },
        None => {
            out.push_str("null");
        },
    }
}

pub fn push_confidence(out: &mut String, c: u32)
    ensures
        final(out)@ == old(out)@ + confidence_text(c),
{
    let h: u64 = if c > 100 {
        100
    } else {
        c as u64
    };
    let whole = crate::text::u64_text(h / 100);
    push_chars(out, &whole);
    out.push_str(".");
    let tenths = (h % 100) / 10;
    let hundredths = h % 10;
    let mut tail: Vec<char> = Vec::new();
    tail.push(if tenths == 0 { '0' } else { digit_of(tenths) });
    tail.push(digit_of(hundredths));
    push_chars(out, &tail);
    assert(tail@ =~= seq![digit(((h % 100) / 10) as nat), digit((h % 10) as nat)]);
    assert(out@ =~= old(out)@ + confidence_text(c));
}

fn digit_of(d: u64) -> (c: char)
    requires
        d < 10,
    ensures
        c == digit(d as nat),
{
    let b: u8 = (d as u8) + 48;
    b as char
}

// ---------------------------------------------------------------------------
// The document text
// ---------------------------------------------------------------------------

pub open spec fn header_text(style: RbmemWriteStyle) -> Seq<char> {
    match style {
        RbmemWriteStyle::Canonical => "rbmem# "@ + RBMEM_FORMAT_LABEL@ + " - Rust-Brain Memory Format\n\n"@,
        RbmemWriteStyle::Human => "# "@ + RBMEM_FORMAT_LABEL@ + " human-editable file\n"@
            + "# The parser accepts these short section delimiters.\n\n"@,
    }
}

pub open spec fn expiry_days_text(d: Option<i64>) -> Seq<char> {
    match d {
        Some(days) => signed_decimal(days as int),
        None => "null"@,
    }
}

/// A line `label value`.
#[verifier::opaque]
pub open spec fn field_line(label: Seq<char>, value: Seq<char>) -> Seq<char> {
    label + value + "\n"@
}

/// An instant's RFC 3339 text in double quotes.
pub open spec fn quoted_time(t: Timestamp) -> Seq<char> {
    "\""@ + time_text(t) + "\""@
}

/// The `meta:` block.
pub open spec fn meta_text(m: MetaV) -> Seq<char> {
    "meta:\n"@ + field_line("  version: "@, m.version) + field_line("  purpose: "@, quoted(m.purpose))
        + field_line("  generated_at: "@, quoted_time(m.generated_at)) + field_line(
        "  last_updated: "@,
        quoted_time(m.last_updated),
    ) + field_line("  valid_until: "@, optional_time_text(m.valid_until)) + field_line(
        "  created_by: "@,
        quoted(m.created_by),
    ) + field_line("  default_expiry_days: "@, expiry_days_text(m.default_expiry_days)) + "  compact_mode: "@
        + compact_mode_name(m.compact_mode) + "\n\n"@
}

/// The timestamps of a section say nothing beyond its creation time.
pub open spec fn default_temporal(s: SectionV) -> bool {
    s.temporal.created_at == s.temporal.updated_at && s.temporal.expires_at is None
}

#[verifier::opaque]
pub open spec fn temporal_text(s: SectionV, o: RbmemWriteOptions) -> Seq<char> {
    if o.hide_empty_temporal && default_temporal(s) {
        Seq::empty()
    } else {
        "temporal:\n"@ + field_line("  created_at: "@, quoted_time(s.temporal.created_at)) + field_line(
            "  updated_at: "@,
            quoted_time(s.temporal.updated_at),
        ) + field_line("  expires_at: "@, optional_time_text(s.temporal.expires_at))
    }
}

/// An optional quoted field line.
pub open spec fn opt_field(label: Seq<char>, o: Option<Seq<char>>) -> Seq<char> {
    match o {
        Some(v) => field_line(label, quoted(v)),
        None => Seq::empty(),
    }
}

#[verifier::opaque]
pub open spec fn source_text(o: Option<SourceInfoV>) -> Seq<char> {
    match o {
        Some(src) => "source:\n"@ + field_line("  kind: "@, quoted(src.kind)) + opt_field("  path: "@, src.path)
            + opt_field("  actor: "@, src.actor) + opt_field("  hash: "@, src.hash),
        None => Seq::empty(),
    }
}

#[verifier::opaque]
pub open spec fn relation_text(r: GraphRelationV) -> Seq<char> {
    field_line("    - to: "@, quoted(r.to)) + field_line("      type: "@, quoted(r.relation_type))
        + field_line("      valid_from: "@, optional_time_text(r.valid_from)) + field_line(
        "      valid_until: "@,
        optional_time_text(r.valid_until),
    ) + (if r.inferred {
        "      inferred: true\n"@
    } else {
        Seq::empty()
    }) + match r.confidence {
        Some(c) => field_line("      confidence: "@, confidence_text(c)),
        None => Seq::empty(),
    }
}

pub open spec fn relations_text(rs: Seq<GraphRelationV>) -> Seq<char>
    decreases rs.len(),
{
    if rs.len() == 0 {
        Seq::empty()
    } else {
        relations_text(rs.drop_last()) + relation_text(rs.last())
    }
}

#[verifier::opaque]
pub open spec fn graph_text(o: Option<GraphInfoV>) -> Seq<char> {
    match o {
        Some(g) => "graph:\n"@ + opt_field("  node_type: "@, g.node_type) + if g.relations.len() > 0 {
            "  relations:\n"@ + relations_text(g.relations)
        } else {
            Seq::empty()
        },
        None => Seq::empty(),
    }
}

#[verifier::opaque]
pub open spec fn encrypted_text(o: Option<EncryptedPayloadV>) -> Seq<char> {
    match o {
        Some(p) => field_line("nonce: "@, quoted(p.nonce)) + field_line("ciphertext: "@, quoted(p.ciphertext))
            + field_line("encrypted_at: "@, quoted_time(p.encrypted_at)),
        None => Seq::empty(),
    }
}

pub open spec fn has_newline(s: Seq<char>) -> bool {
    exists|i: int| 0 <= i < s.len() && s[i] == '\n'
}

/// Each line indented by two spaces and ended by a newline.
pub open spec fn indented(ls: Seq<Seq<char>>) -> Seq<char>
    decreases ls.len(),
{
    if ls.len() == 0 {
        Seq::empty()
    } else {
        indented(ls.drop_last()) + "  "@ + ls.last() + "\n"@
    }
}

/// The content of a section: on one line in the human form where it fits
/// there, else as an indented block.
#[verifier::opaque]
pub open spec fn content_block(content: Seq<char>, style: RbmemWriteStyle) -> Seq<char> {
    if style == RbmemWriteStyle::Human && !has_newline(content) && trim(content).len() > 0 {
        "content: "@ + trim(content) + "\n"@
    } else if content.len() == 0 {
        "content: |\n"@ + "\n"@
    } else {
        "content: |\n"@ + indented(lines(content))
    }
}

#[verifier::opaque]
pub open spec fn body_text(s: SectionV, style: RbmemWriteStyle) -> Seq<char> {
    if s.section_type == SectionType::Encrypted {
        encrypted_text(s.encrypted)
    } else {
        content_block(s.content, style)
    }
}

#[verifier::opaque]
pub open spec fn open_text(path: Seq<char>, style: RbmemWriteStyle) -> Seq<char> {
    match style {
        RbmemWriteStyle::Canonical => "[SECTION: "@ + path + "]\n"@,
        RbmemWriteStyle::Human => "=== SECTION: "@ + path + "\n"@
            + "# Edit type/content freely; timestamps remain tool-managed.\n"@,
    }
}

#[verifier::opaque]
pub open spec fn close_text(style: RbmemWriteStyle) -> Seq<char> {
    match style {
        RbmemWriteStyle::Canonical => "[END SECTION]\n\n"@,
        RbmemWriteStyle::Human => "=== END SECTION\n\n"@,
    }
}

pub open spec fn section_text(s: SectionV, o: RbmemWriteOptions) -> Seq<char> {
    open_text(s.path, o.style) + field_line("type: "@, section_type_name(s.section_type)) + temporal_text(s, o)
        + source_text(s.source) + graph_text(s.graph) + body_text(s, o.style) + close_text(o.style)
}

pub open spec fn sections_text(ss: Seq<SectionV>, o: RbmemWriteOptions) -> Seq<char>
    decreases ss.len(),
{
    if ss.len() == 0 {
        Seq::empty()
    } else {
        sections_text(ss.drop_last(), o) + section_text(ss.last(), o)
    }
}

/// The whole text of a document in the given layout.
pub open spec fn document_text(d: DocumentV, o: RbmemWriteOptions) -> Seq<char> {
    header_text(o.style) + meta_text(d.meta) + sections_text(d.sections, o)
}

// ---------------------------------------------------------------------------
// Writers
// ---------------------------------------------------------------------------

fn write_quoted_field(out: &mut String, label: &str, value: &str)
    ensures
        final(out)@ == old(out)@ + field_line(label@, quoted(value@)),
{
    proof {
        reveal(field_line);
    }
    out.push_str(label);
    push_quoted(out, value);
    out.push_str("\n");
    assert(out@ =~= old(out)@ + field_line(label@, quoted(value@)));
}

fn write_time_field(out: &mut String, label: &str, t: &Timestamp)
    requires
        t.valid(),
    ensures
        final(out)@ == old(out)@ + field_line(label@, quoted_time(*t)),
{
    proof {
        reveal(field_line);
    }
    out.push_str(label);
    out.push_str("\"");
    push_time(out, t);
    out.push_str("\"");
    out.push_str("\n");
    assert(out@ =~= old(out)@ + field_line(label@, quoted_time(*t)));
}

fn write_opt_time_field(out: &mut String, label: &str, o: &Option<Timestamp>)
    requires
        o matches Some(t) ==> t.valid(),
    ensures
        final(out)@ == old(out)@ + field_line(label@, optional_time_text(*o)),
{
    proof {
        reveal(field_line);
    }
    out.push_str(label);
    push_optional_time(out, o);
    out.push_str("\n");
    assert(out@ =~= old(out)@ + field_line(label@, optional_time_text(*o)));
}

fn write_expiry_days_field(out: &mut String, days: Option<i64>)
    ensures
        final(out)@ == old(out)@ + field_line("  default_expiry_days: "@, expiry_days_text(days)),
{
    proof {
        reveal(field_line);
    }
    out.push_str("  default_expiry_days: ");
    match days {
        Some(d) => {
            let digits = i64_text(d);
            push_chars(out, &digits);
        },
        None => {
            out.push_str("null");
        },
    }
    out.push_str("\n");
    assert(out@ =~= old(out)@ + field_line("  default_expiry_days: "@, expiry_days_text(days)));
}

fn write_meta(out: &mut String, meta: &Meta)
    requires
        meta@.valid(),
    ensures
        final(out)@ == old(out)@ + meta_text(meta@),
{
    proof {
        reveal(field_line);
    }
    let ghost m = meta@;
    out.push_str("meta:\n");
    let ghost g0 = out@;
    out.push_str("  version: ");
    out.push_str(meta.version.as_str());
    out.push_str("\n");
    assert(out@ =~= g0 + field_line("  version: "@, m.version));
    let ghost g1 = out@;
    write_quoted_field(out, "  purpose: ", meta.purpose.as_str());
    let ghost g2 = out@;
    write_time_field(out, "  generated_at: ", &meta.generated_at);
    let ghost g3 = out@;
    write_time_field(out, "  last_updated: ", &meta.last_updated);
    let ghost g4 = out@;
    write_opt_time_field(out, "  valid_until: ", &meta.valid_until);
    let ghost g5 = out@;
    write_quoted_field(out, "  created_by: ", meta.created_by.as_str());
    let ghost g6 = out@;
    write_expiry_days_field(out, meta.default_expiry_days);
    let ghost g7 = out@;
    out.push_str("  compact_mode: ");
    out.push_str(meta.compact_mode.as_str());
    out.push_str("\n\n");
    assert(out@ =~= g7 + ("  compact_mode: "@ + compact_mode_name(m.compact_mode) + "\n\n"@));
    assert(out@ =~= old(out)@ + meta_text(meta@));
}

fn write_temporal(out: &mut String, section: &Section, options: RbmemWriteOptions)
    requires
        section@.valid(),
    ensures
        final(out)@ == old(out)@ + temporal_text(section@, options),
{
    proof {
        reveal(temporal_text);
    }
    let default_temporal = section.temporal.created_at == section.temporal.updated_at
        && section.temporal.expires_at.is_none();
    if options.hide_empty_temporal && default_temporal {
        assert(old(out)@ + Seq::<char>::empty() =~= old(out)@);
        return ;
    }
    out.push_str("temporal:\n");
    write_time_field(out, "  created_at: ", &section.temporal.created_at);
    write_time_field(out, "  updated_at: ", &section.temporal.updated_at);
    write_opt_time_field(out, "  expires_at: ", &section.temporal.expires_at);
    assert(out@ =~= old(out)@ + temporal_text(section@, options));
}

fn write_opt_field(out: &mut String, label: &str, value: &Option<String>)
    ensures
        final(out)@ == old(out)@ + opt_field(label@, match value {
            Some(v) => Some(v@),
            None => None,
        }),
{
    match value {
        Some(v) => {
            write_quoted_field(out, label, v.as_str());
        },
        None => {
            assert(old(out)@ + Seq::<char>::empty() =~= old(out)@);
        },
    }
}

fn write_source(out: &mut String, source: &Option<SourceInfo>)
    ensures
        final(out)@ == old(out)@ + source_text(opt_source_view(*source)),
{
    proof {
        reveal(source_text);
    }
    match source {
        Some(src) => {
            out.push_str("source:\n");
            write_quoted_field(out, "  kind: ", src.kind.as_str());
            write_opt_field(out, "  path: ", &src.path);
            write_opt_field(out, "  actor: ", &src.actor);
            write_opt_field(out, "  hash: ", &src.hash);
            assert(out@ =~= old(out)@ + source_text(opt_source_view(*source)));
        },
        None => {
            assert(old(out)@ + Seq::<char>::empty() =~= old(out)@);
        },
    }
}

fn write_confidence_field(out: &mut String, c: u32)
    ensures
        final(out)@ == old(out)@ + field_line("      confidence: "@, confidence_text(c)),
{
    proof {
        reveal(field_line);
    }
    out.push_str("      confidence: ");
    push_confidence(out, c);
    out.push_str("\n");
    assert(out@ =~= old(out)@ + field_line("      confidence: "@, confidence_text(c)));
}

fn write_relation(out: &mut String, relation: &GraphRelation)
    requires
        relation@.valid_from matches Some(t) ==> t.valid(),
        relation@.valid_until matches Some(t) ==> t.valid(),
    ensures
        final(out)@ == old(out)@ + relation_text(relation@),
{
    proof {
        reveal(relation_text);
    }
    let ghost r = relation@;
    write_quoted_field(out, "    - to: ", relation.to.as_str());
    let ghost g1 = out@;
    write_quoted_field(out, "      type: ", relation.relation_type.as_str());
    let ghost g2 = out@;
    write_opt_time_field(out, "      valid_from: ", &relation.valid_from);
    let ghost g3 = out@;
    write_opt_time_field(out, "      valid_until: ", &relation.valid_until);
    let ghost mid = out@;
    let ghost head = field_line("    - to: "@, quoted(r.to)) + field_line("      type: "@, quoted(r.relation_type))
        + field_line("      valid_from: "@, optional_time_text(r.valid_from)) + field_line(
        "      valid_until: "@,
        optional_time_text(r.valid_until),
    );
    assert(mid =~= old(out)@ + head);
    if relation.inferred {
        out.push_str("      inferred: true\n");
    }
    let ghost mid2 = out@;
    let ghost inferred_part = if r.inferred {
        "      inferred: true\n"@
    } else {
        Seq::<char>::empty()
    };
    assert(mid2 =~= mid + inferred_part);
    match relation.confidence {
        Some(c) => {
            write_confidence_field(out, c);
        },
        None => {
            assert(mid2 + Seq::<char>::empty() =~= mid2);
        },
    }
    let ghost conf_part = match r.confidence {
        Some(c) => field_line("      confidence: "@, confidence_text(c)),
        None => Seq::<char>::empty(),
    };
    assert(out@ =~= mid2 + conf_part);
    assert(relation_text(r) == head + inferred_part + conf_part);
    assert(out@ =~= old(out)@ + relation_text(relation@));
}

fn write_graph(out: &mut String, graph: &Option<GraphInfo>)
    requires
        graph matches Some(g) ==> forall|i: int|
            0 <= i < g@.relations.len() ==> {
                &&& (#[trigger] g@.relations[i]).valid_from matches Some(t) ==> t.valid()
                &&& g@.relations[i].valid_until matches Some(t) ==> t.valid()
            },
    ensures
        final(out)@ == old(out)@ + graph_text(opt_graph_view(*graph)),
{
    proof {
        reveal(graph_text);
    }
    match graph {
        Some(g) => {
            out.push_str("graph:\n");
            write_opt_field(out, "  node_type: ", &g.node_type);
            let ghost mid = out@;
            if g.relations.len() > 0 {
                out.push_str("  relations:\n");
                let ghost start = out@;
                let ghost rs = relation_views(g.relations@);
                let mut i: usize = 0;
                assert(rs.take(0) =~= Seq::<GraphRelationV>::empty());
                assert(start + Seq::<char>::empty() =~= start);
                while i < g.relations.len()
                    invariant
                        i <= g.relations@.len(),
                        rs == relation_views(g.relations@),
                        rs == g@.relations,
                        out@ == start + relations_text(rs.take(i as int)),
                        forall|k: int|
                            0 <= k < g@.relations.len() ==> {
                                &&& (#[trigger] g@.relations[k]).valid_from matches Some(t) ==> t.valid()
                                &&& g@.relations[k].valid_until matches Some(t) ==> t.valid()
                            },
                    decreases g.relations@.len() - i,
                {
                    assert(g@.relations[i as int] == g.relations@[i as int]@);
                    write_relation(out, &g.relations[i]);
                    assert(rs.take(i + 1).drop_last() =~= rs.take(i as int));
                    i += 1;
                    assert(out@ =~= start + relations_text(rs.take(i as int)));
                }
                assert(rs.take(rs.len() as int) =~= rs);
                assert(out@ =~= mid + ("  relations:\n"@ + relations_text(g@.relations)));
            } else {
                assert(mid + Seq::<char>::empty() =~= mid);
            }
            assert(out@ =~= old(out)@ + graph_text(opt_graph_view(*graph)));
        },
        None => {
            assert(old(out)@ + Seq::<char>::empty() =~= old(out)@);
        },
    }
}

fn has_newline_exec(v: &[char]) -> (r: bool)
    ensures
        r == has_newline(v@),
{
    let mut i: usize = 0;
    while i < v.len()
        invariant
            i <= v@.len(),
            forall|k: int| 0 <= k < i ==> v@[k] != '\n',
        decreases v@.len() - i,
    {
        if v[i] == '\n' {
            return true;
        }
        i += 1;
    }
    false
}

/// Writes the content of a section: on one line in the human form where it
/// fits there, else as a block with each line indented by two spaces.
pub fn write_content_block(out: &mut String, content: &str, style: RbmemWriteStyle)
    ensures
        final(out)@ == old(out)@ + content_block(content@, style),
{
    proof {
        reveal(content_block);
    }
    let chars = chars_of(content);
    let t = trimmed(&chars);
    if style == RbmemWriteStyle::Human && !has_newline_exec(&chars) && t.len() > 0 {
        out.push_str("content: ");
        push_chars(out, &t);
        out.push_str("\n");
        assert(out@ =~= old(out)@ + content_block(content@, style));
        return ;
    }
    out.push_str("content: |\n");
    if chars.len() == 0 {
        out.push_str("\n");
        assert(out@ =~= old(out)@ + content_block(content@, style));
        return ;
    }
    let ls = split_lines(&chars);
    let ghost start = out@;
    let ghost lv = views(ls@);
    let mut i: usize = 0;
    assert(lv.take(0) =~= Seq::<Seq<char>>::empty());
    assert(start + Seq::<char>::empty() =~= start);
    while i < ls.len()
        invariant
            i <= ls@.len(),
            lv == views(ls@),
            out@ == start + indented(lv.take(i as int)),
        decreases ls@.len() - i,
    {
        out.push_str("  ");
        push_chars(out, &ls[i]);
        out.push_str("\n");
        assert(lv.take(i + 1).drop_last() =~= lv.take(i as int));
        assert(lv.take(i + 1).last() == ls@[i as int]@);
        i += 1;
        assert(out@ =~= start + indented(lv.take(i as int)));
    }
    assert(lv.take(lv.len() as int) =~= lv);
    assert(out@ =~= old(out)@ + content_block(content@, style));
}

pub fn write_encrypted_fields(out: &mut String, encrypted: &Option<EncryptedPayload>)
    requires
        encrypted matches Some(p) ==> p.encrypted_at.valid(),
    ensures
        final(out)@ == old(out)@ + encrypted_text(opt_payload_view(*encrypted)),
{
    proof {
        reveal(encrypted_text);
    }
    match encrypted {
        Some(payload) => {
            write_quoted_field(out, "nonce: ", payload.nonce.as_str());
            write_quoted_field(out, "ciphertext: ", payload.ciphertext.as_str());
            write_time_field(out, "encrypted_at: ", &payload.encrypted_at);
            assert(out@ =~= old(out)@ + encrypted_text(opt_payload_view(*encrypted)));
        },
        None => {
            assert(old(out)@ + Seq::<char>::empty() =~= old(out)@);
        },
    }
}

fn write_section(out: &mut String, section: &Section, options: RbmemWriteOptions)
    requires
        section@.valid(),
    ensures
        final(out)@ == old(out)@ + section_text(section@, options),
{
    proof {
        reveal(open_text);
        reveal(close_text);
        reveal(field_line);
        reveal(body_text);
    }
    match options.style {
        RbmemWriteStyle::Canonical => {
            out.push_str("[SECTION: ");
            out.push_str(section.path.as_str());
            out.push_str("]\n");
        },
        RbmemWriteStyle::Human => {
            out.push_str("=== SECTION: ");
            out.push_str(section.path.as_str());
            out.push_str("\n");
            out.push_str("# Edit type/content freely; timestamps remain tool-managed.\n");
        },
    }
    let ghost a = out@;
    assert(a =~= old(out)@ + open_text(section@.path, options.style));
    out.push_str("type: ");
    out.push_str(section.section_type.as_str());
    out.push_str("\n");
    assert(out@ =~= a + field_line("type: "@, section_type_name(section@.section_type)));
    let ghost a2 = out@;
    write_temporal(out, section, options);
    let ghost b = out@;
    write_source(out, &section.source);
    let ghost b2 = out@;
    write_graph(out, &section.graph);
    let ghost c = out@;
    if section.section_type == SectionType::Encrypted {
        write_encrypted_fields(out, &section.encrypted);
    } else {
        write_content_block(out, section.content.as_str(), options.style);
    }
    let ghost d = out@;
    assert(d =~= c + body_text(section@, options.style));
    match options.style {
        RbmemWriteStyle::Canonical => {
            out.push_str("[END SECTION]\n\n");
        },
        RbmemWriteStyle::Human => {
            out.push_str("=== END SECTION\n\n");
        },
    }
    let ghost e = out@;
    assert(e =~= d + close_text(options.style));
    assert(out@ =~= old(out)@ + section_text(section@, options));
}

impl RbmemDocument {
    /// The document as RBMEM text in the given layout.
    pub fn to_rbmem_string_with_options(&self, options: RbmemWriteOptions) -> (r: String)
        requires
            self@.valid(),
        ensures
            r@ == document_text(self@, options),
    {
        let mut out = String::new();
        match options.style {
            RbmemWriteStyle::Canonical => {
                out.push_str("rbmem# ");
                out.push_str(RBMEM_FORMAT_LABEL);
                out.push_str(" - Rust-Brain Memory Format\n\n");
            },
            RbmemWriteStyle::Human => {
                out.push_str("# ");
                out.push_str(RBMEM_FORMAT_LABEL);
                out.push_str(" human-editable file\n");
                out.push_str("# The parser accepts these short section delimiters.\n\n");
            },
        }
        assert(out@ =~= header_text(options.style));
        write_meta(&mut out, &self.meta);
        let ghost start = out@;
        let ghost ss = section_views(self.sections@);
        let mut i: usize = 0;
        assert(ss.take(0) =~= Seq::<SectionV>::empty());
        assert(start + Seq::<char>::empty() =~= start);
        while i < self.sections.len()
            invariant
                i <= self.sections@.len(),
                ss == section_views(self.sections@),
                ss == self@.sections,
                self@.valid(),
                out@ == start + sections_text(ss.take(i as int), options),
            decreases self.sections@.len() - i,
        {
            assert(ss[i as int] == self.sections@[i as int]@);
            assert(ss[i as int].valid());
            write_section(&mut out, &self.sections[i], options);
            assert(ss.take(i + 1).drop_last() =~= ss.take(i as int));
            i += 1;
            assert(out@ =~= start + sections_text(ss.take(i as int), options));
        }
        assert(ss.take(ss.len() as int) =~= ss);
        assert(out@ =~= document_text(self@, options));
        out
    }

    /// The canonical RBMEM text.
    pub fn to_rbmem_string(&self) -> (r: String)
        requires
            self@.valid(),
        ensures
            r@ == document_text(self@, RbmemWriteOptions { style: RbmemWriteStyle::Canonical, hide_empty_temporal: false }),
    {
        self.to_rbmem_string_with_options(RbmemWriteOptions::canonical())
    }

    /// The human-editable RBMEM text.
    pub fn to_human_rbmem_string(&self) -> (r: String)
        requires
            self@.valid(),
        ensures
            r@ == document_text(self@, RbmemWriteOptions { style: RbmemWriteStyle::Human, hide_empty_temporal: false }),
    {
        self.to_rbmem_string_with_options(RbmemWriteOptions::human())
    }

    /// The canonical text without the temporal blocks that say nothing
    /// beyond a section's creation time.
    pub fn to_rbmem_string_hiding_empty_temporal(&self) -> (r: String)
        requires
            self@.valid(),
        ensures
            r@ == document_text(self@, RbmemWriteOptions { style: RbmemWriteStyle::Canonical, hide_empty_temporal: true }),
    {
        self.to_rbmem_string_with_options(
            RbmemWriteOptions { style: RbmemWriteStyle::Canonical, hide_empty_temporal: true },
        )
    }
}

} // verus!
