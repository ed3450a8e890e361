//! Differences between two documents, section by section, and the
//! three-way merge of a local and a remote document over a common base.
use vstd::prelude::*;
use crate::document::{
    opt_graph_eq, opt_payload_eq, opt_source_eq, section_views, sort_by_path, sort_sections_by_path, DocumentV,
    RbmemDocument, Section, SectionType, SectionV, MetaV,
};
use crate::graph::{add_names, push_string};
use crate::plan::{insert_sorted_unique, string_views};
use crate::resolve::last_with_path;
use crate::text::{chars_of, is_blank, join, lines, push_chars, split_lines, str_eq, trim, trimmed, views};
use crate::time::{rfc3339, Timestamp};

verus! {

#[derive(Debug, Clone, Copy, PartialEq, Eq, Structural)]
pub enum DiffFormat {
    Text,
    Json,
    Yaml,
}

/// How a section changed on both sides is settled.
#[derive(Debug, Clone, Copy, PartialEq, Eq, Structural)]
pub enum MergeStrategy {
    Ours,
    Theirs,
    Union,
    Manual,
}

#[derive(Debug, Clone, Copy, PartialEq, Eq, Structural)]
pub enum SectionDiffKind {
    Added,
    Removed,
    Changed,
}

/// One path's difference, with the fields that changed.
#[derive(Debug, Clone)]
pub struct SectionDiff {
    pub path: String,
    pub kind: SectionDiffKind,
    pub fields: Vec<String>,
}

pub struct SectionDiffV {
    pub path: Seq<char>,
    pub kind: SectionDiffKind,
    pub fields: Seq<Seq<char>>,
}

impl View for SectionDiff {
    type V = SectionDiffV;

    open spec fn view(&self) -> SectionDiffV {
        SectionDiffV { path: self.path@, kind: self.kind, fields: string_views(self.fields@) }
    }
}

pub open spec fn diff_views(v: Seq<SectionDiff>) -> Seq<SectionDiffV> {
    v.map_values(|d: SectionDiff| d@)
}

/// All differences between two documents.
#[derive(Debug, Clone)]
pub struct RbmemDiff {
    pub schema: String,
    pub changes: Vec<SectionDiff>,
}

/// The paths of the sections, in order.
pub open spec fn paths_of(ss: Seq<SectionV>) -> Seq<Seq<char>> {
    ss.map_values(|s: SectionV| s.path)
}

/// The fields in which two sections differ, in a fixed order.
pub open spec fn changed_fields(b: SectionV, a: SectionV) -> Seq<Seq<char>> {
    (if b.section_type != a.section_type { seq!["type"@] } else { Seq::empty() })
        + (if b.content != a.content { seq!["content"@] } else { Seq::empty() })
        + (if b.temporal != a.temporal { seq!["temporal"@] } else { Seq::empty() })
        + (if b.source != a.source { seq!["source"@] } else { Seq::empty() })
        + (if b.graph != a.graph { seq!["graph"@] } else { Seq::empty() })
        + (if b.encrypted != a.encrypted { seq!["encrypted"@] } else { Seq::empty() })
}

/// The difference at one path, where there is one.
pub open spec fn diff_entry(p: Seq<char>, b: Option<SectionV>, a: Option<SectionV>) -> Option<SectionDiffV> {
    match (b, a) {
        (None, Some(_)) => Some(SectionDiffV { path: p, kind: SectionDiffKind::Added, fields: Seq::empty() }),
        (Some(_), None) => Some(SectionDiffV { path: p, kind: SectionDiffKind::Removed, fields: Seq::empty() }),
        (Some(x), Some(y)) => if changed_fields(x, y).len() > 0 {
            Some(SectionDiffV { path: p, kind: SectionDiffKind::Changed, fields: changed_fields(x, y) })
        } else {
            None
        },
        (None, None) => None,
    }
}

pub open spec fn diff_changes(paths: Seq<Seq<char>>, bs: Seq<SectionV>, as_: Seq<SectionV>) -> Seq<SectionDiffV>
    decreases paths.len(),
{
    if paths.len() == 0 {
        Seq::empty()
    } else {
        let prev = diff_changes(paths.drop_last(), bs, as_);
        let p = paths.last();
        match diff_entry(p, last_with_path(bs, p), last_with_path(as_, p)) {
            Some(d) => prev.push(d),
            None => prev,
        }
    }
}

/// Every path of either document in `str` order, each once; a path used
/// twice in one document stands for its last section.
pub open spec fn union_paths(docs: Seq<Seq<SectionV>>) -> Seq<Seq<char>>
    decreases docs.len(),
{
    if docs.len() == 0 {
        Seq::empty()
    } else {
        add_names(union_paths(docs.drop_last()), paths_of(docs.last()))
    }
}

/// The differences from one document to another, path by path.
pub open spec fn diff_of(before: DocumentV, after: DocumentV) -> Seq<SectionDiffV> {
    diff_changes(union_paths(seq![before.sections, after.sections]), before.sections, after.sections)
}

proof fn lemma_union_paths_one(ss: Seq<SectionV>)
    ensures
        union_paths(seq![ss]) == add_names(Seq::<Seq<char>>::empty(), paths_of(ss)),
{
    assert(seq![ss].drop_last() =~= Seq::<Seq<SectionV>>::empty());
    assert(union_paths(Seq::<Seq<SectionV>>::empty()) == Seq::<Seq<char>>::empty());
    assert(seq![ss].last() == ss);
}

fn add_paths(names: &mut Vec<String>, sections: &Vec<Section>)
    ensures
        string_views(final(names)@) == add_names(string_views(old(names)@), paths_of(section_views(sections@))),
{
    let ghost ps = paths_of(section_views(sections@));
    let ghost n0 = string_views(names@);
    let mut i: usize = 0;
    assert(ps.take(0) =~= Seq::<Seq<char>>::empty());
    while i < sections.len()
        invariant
            i <= sections@.len(),
            ps == paths_of(section_views(sections@)),
            string_views(names@) == add_names(n0, ps.take(i as int)),
        decreases sections@.len() - i,
    {
        crate::contexts::insert_unique_exec(names, chars_of(sections[i].path.as_str()));
        assert(ps.take(i + 1).drop_last() =~= ps.take(i as int));
        assert(ps.take(i + 1).last() == sections@[i as int]@.path);
        i += 1;
    }
    assert(ps.take(ps.len() as int) =~= ps);
}

fn changed_fields_exec(b: &Section, a: &Section) -> (r: Vec<String>)
    ensures
        string_views(r@) == changed_fields(b@, a@),
{
    let mut fields: Vec<String> = Vec::new();
    let ghost s0 = string_views(fields@);
    if b.section_type != a.section_type {
        push_string(&mut fields, "type".to_owned());
    }
    if !str_eq(b.content.as_str(), a.content.as_str()) {
        push_string(&mut fields, "content".to_owned());
    }
    if b.temporal != a.temporal {
        push_string(&mut fields, "temporal".to_owned());
    }
    if !opt_source_eq(&b.source, &a.source) {
        push_string(&mut fields, "source".to_owned());
    }
    if !opt_graph_eq(&b.graph, &a.graph) {
        push_string(&mut fields, "graph".to_owned());
    }
    if !opt_payload_eq(&b.encrypted, &a.encrypted) {
        push_string(&mut fields, "encrypted".to_owned());
    }
    assert(string_views(fields@) =~= changed_fields(b@, a@));
    fields
}

pub fn last_section_with_path(sections: &Vec<Section>, p: &str) -> (r: Option<usize>)
    ensures
        match r {
            Some(j) => j < sections@.len() && last_with_path(section_views(sections@), p@) == Some(sections@[j as int]@),
            None => last_with_path(section_views(sections@), p@) is None,
        },
{
    let ghost ss = section_views(sections@);
    let mut j: usize = sections.len();
    assert(ss.take(j as int) =~= ss);
    while j > 0
        invariant
            j <= sections@.len(),
            ss == section_views(sections@),
            last_with_path(ss, p@) == last_with_path(ss.take(j as int), p@),
        decreases j,
    {
        assert(ss.take(j as int).last() == sections@[j - 1]@);
        if str_eq(sections[j - 1].path.as_str(), p) {
            return Some(j - 1);
        }
        assert(ss.take(j as int).drop_last() =~= ss.take(j - 1));
        j -= 1;
    }
    None
}

/// The differences from `before` to `after`.
pub fn diff_documents_typed(before: &RbmemDocument, after: &RbmemDocument) -> (r: RbmemDiff)
    ensures
        r.schema@ == "rbmem.diff.v1"@,
        diff_views(r.changes@) == diff_of(before@, after@),
{
    let mut paths: Vec<String> = Vec::new();
    assert(string_views(paths@) =~= Seq::<Seq<char>>::empty());
    add_paths(&mut paths, &before.sections);
    let ghost docs = seq![before@.sections, after@.sections];
    proof {
        lemma_union_paths_one(before@.sections);
    }
    add_paths(&mut paths, &after.sections);
    assert(docs.drop_last() =~= seq![before@.sections]);
    assert(docs.last() == after@.sections);
    assert(string_views(paths@) == union_paths(docs));
    let ghost pv = string_views(paths@);
    let ghost bs = before@.sections;
    let ghost as_ = after@.sections;
    let mut changes: Vec<SectionDiff> = Vec::new();
    let mut i: usize = 0;
    assert(pv.take(0) =~= Seq::<Seq<char>>::empty());
    while i < paths.len()
        invariant
            i <= paths@.len(),
            pv == string_views(paths@),
            bs == before@.sections,
            as_ == after@.sections,
            diff_views(changes@) == diff_changes(pv.take(i as int), bs, as_),
        decreases paths@.len() - i,
    {
        let p = paths[i].as_str();
        assert(pv.take(i + 1).drop_last() =~= pv.take(i as int));
        assert(pv.take(i + 1).last() == p@);
        let ghost before_changes = diff_views(changes@);
        let b = last_section_with_path(&before.sections, p);
        let a = last_section_with_path(&after.sections, p);
        match (b, a) {
            (None, Some(_)) => {
                let d = SectionDiff { path: p.to_owned(), kind: SectionDiffKind::Added, fields: Vec::new() };
                assert(d@.fields =~= Seq::<Seq<char>>::empty());
                changes.push(d);
                assert(diff_views(changes@) =~= before_changes.push(d@));
            },
            (Some(_), None) => {
                let d = SectionDiff { path: p.to_owned(), kind: SectionDiffKind::Removed, fields: Vec::new() };
                assert(d@.fields =~= Seq::<Seq<char>>::empty());
                changes.push(d);
                assert(diff_views(changes@) =~= before_changes.push(d@));
            },
            (Some(x), Some(y)) => {
                let fields = changed_fields_exec(&before.sections[x], &after.sections[y]);
                if fields.len() > 0 {
                    let d = SectionDiff { path: p.to_owned(), kind: SectionDiffKind::Changed, fields };
                    changes.push(d);
                    assert(diff_views(changes@) =~= before_changes.push(d@));
                }
            },
            (None, None) => {},
        }
        i += 1;
    }
    assert(pv.take(pv.len() as int) =~= pv);
    RbmemDiff { schema: "rbmem.diff.v1".to_owned(), changes }
}

/// A line per change (`added: p`, `removed: p`, `changed field: p`), or a
/// line saying there is none.
pub open spec fn change_lines(d: SectionDiffV) -> Seq<char> {
    match d.kind {
        SectionDiffKind::Added => "added: "@ + d.path + "\n"@,
        SectionDiffKind::Removed => "removed: "@ + d.path + "\n"@,
        SectionDiffKind::Changed => field_lines(d.fields, d.path),
    }
}

pub open spec fn field_lines(fields: Seq<Seq<char>>, path: Seq<char>) -> Seq<char>
    decreases fields.len(),
{
    if fields.len() == 0 {
        Seq::empty()
    } else {
        field_lines(fields.drop_last(), path) + "changed "@ + fields.last() + ": "@ + path + "\n"@
    }
}

pub open spec fn changes_text(ds: Seq<SectionDiffV>) -> Seq<char>
    decreases ds.len(),
{
    if ds.len() == 0 {
        Seq::empty()
    } else {
        changes_text(ds.drop_last()) + change_lines(ds.last())
    }
}

pub open spec fn diff_text(ds: Seq<SectionDiffV>) -> Seq<char> {
    if changes_text(ds).len() == 0 {
        "no RBMEM differences\n"@
    } else {
        changes_text(ds)
    }
}

pub fn render_diff_text(diff: &RbmemDiff) -> (r: String)
    ensures
        r@ == diff_text(diff_views(diff.changes@)),
{
    let ghost ds = diff_views(diff.changes@);
    let mut out = String::new();
    let mut i: usize = 0;
    assert(ds.take(0) =~= Seq::<SectionDiffV>::empty());
    while i < diff.changes.len()
        invariant
            i <= diff.changes@.len(),
            ds == diff_views(diff.changes@),
            out@ == changes_text(ds.take(i as int)),
        decreases diff.changes@.len() - i,
    {
        let c = &diff.changes[i];
        let ghost before = out@;
        match c.kind {
            SectionDiffKind::Added => {
                out.push_str("added: ");
                out.push_str(c.path.as_str());
                out.push_str("\n");
            },
            SectionDiffKind::Removed => {
                out.push_str("removed: ");
                out.push_str(c.path.as_str());
                out.push_str("\n");
            },
            SectionDiffKind::Changed => {
                let ghost fs = string_views(c.fields@);
                let mut k: usize = 0;
                assert(fs.take(0) =~= Seq::<Seq<char>>::empty());
                while k < c.fields.len()
                    invariant
                        k <= c.fields@.len(),
                        fs == string_views(c.fields@),
                        out@ == before + field_lines(fs.take(k as int), c.path@),
                    decreases c.fields@.len() - k,
                {
                    out.push_str("changed ");
                    out.push_str(c.fields[k].as_str());
                    out.push_str(": ");
                    out.push_str(c.path.as_str());
                    out.push_str("\n");
                    assert(fs.take(k + 1).drop_last() =~= fs.take(k as int));
                    assert(fs.take(k + 1).last() == c.fields@[k as int]@);
                    k += 1;
                    assert(out@ =~= before + field_lines(fs.take(k as int), c.path@));
                }
                assert(fs.take(fs.len() as int) =~= fs);
            },
        }
        assert(ds.take(i + 1).drop_last() =~= ds.take(i as int));
        assert(ds.take(i + 1).last() == c@);
        i += 1;
        assert(out@ =~= changes_text(ds.take(i as int)));
    }
    assert(ds.take(ds.len() as int) =~= ds);
    if chars_of(out.as_str()).len() == 0 {
        out.push_str("no RBMEM differences\n");
    }
    out
}

// ---------------------------------------------------------------------------
// Three-way merge
// ---------------------------------------------------------------------------

/// Two sides hold the same section in type, provenance, graph, payload and
/// content; both missing counts as the same.
pub open spec fn same_section(l: Option<SectionV>, r: Option<SectionV>) -> bool {
    match (l, r) {
        (Some(x), Some(y)) => x.section_type == y.section_type && x.source == y.source && x.graph == y.graph
            && x.encrypted == y.encrypted && x.content == y.content,
        (None, None) => true,
        _ => false,
    }
}

/// Both sides' content together: the remote's trimmed content appended on a
/// new line where it differs and is not blank.
pub open spec fn union_of(l: Option<SectionV>, r: Option<SectionV>) -> Option<SectionV> {
    match (l, r) {
        (Some(x), Some(y)) => if x.content != y.content && trim(y.content).len() > 0 {
            Some(SectionV {
                content: if trim(x.content).len() > 0 { x.content + "\n"@ + trim(y.content) } else { x.content + trim(y.content) },
                ..x
            })
        } else {
            Some(x)
        },
        (Some(x), None) => Some(x),
        (None, Some(y)) => Some(y),
        (None, None) => None,
    }
}

/// Each line indented by two spaces, joined with newlines.
pub open spec fn indent_block(v: Seq<char>) -> Seq<char> {
    join(lines(v).map_values(|l: Seq<char>| "  "@ + l), "\n"@)
}

pub open spec fn content_or_empty(s: Option<SectionV>) -> Seq<char> {
    match s {
        Some(x) => x.content,
        None => Seq::empty(),
    }
}

/// A conflict section holding both versions.
pub open spec fn conflict_of(path: Seq<char>, l: Option<SectionV>, r: Option<SectionV>, now: Timestamp) -> SectionV {
    SectionV {
        content: "conflict_at: \""@ + crate::writer::time_text(now) + "\"\nlocal_version: |\n"@ + indent_block(content_or_empty(l))
            + "\nremote_version: |\n"@ + indent_block(content_or_empty(r)),
        ..Section::spec_new(path, SectionType::Conflict, now)
    }
}

/// The merged section at a path: a change made on one side only is taken;
/// a change on both sides is settled by the strategy.
pub open spec fn merge_at(path: Seq<char>, b: Option<SectionV>, l: Option<SectionV>, r: Option<SectionV>, st: MergeStrategy, now: Timestamp) -> Option<SectionV> {
    if same_section(l, r) {
        l
    } else if same_section(l, b) {
        r
    } else if same_section(r, b) {
        l
    } else {
        match st {
            MergeStrategy::Ours => l,
            MergeStrategy::Theirs => r,
            MergeStrategy::Union => union_of(l, r),
            MergeStrategy::Manual => Some(conflict_of(path, l, r, now)),
        }
    }
}

pub open spec fn merged_sections(paths: Seq<Seq<char>>, b: Seq<SectionV>, l: Seq<SectionV>, r: Seq<SectionV>, st: MergeStrategy, now: Timestamp) -> Seq<SectionV>
    decreases paths.len(),
{
    if paths.len() == 0 {
        Seq::empty()
    } else {
        let prev = merged_sections(paths.drop_last(), b, l, r, st, now);
        let p = paths.last();
        match merge_at(p, last_with_path(b, p), last_with_path(l, p), last_with_path(r, p), st, now) {
            Some(s) => prev.push(s),
            None => prev,
        }
    }
}

/// The three-way merge: the base's meta with
/// `last_updated` at `now`, and the merged section at every path of the
/// three, sorted by path.
pub open spec fn merge_of(base: DocumentV, local: DocumentV, remote: DocumentV, st: MergeStrategy, now: Timestamp) -> DocumentV {
    let paths = union_paths(seq![base.sections, local.sections, remote.sections]);
    DocumentV {
        meta: MetaV { last_updated: now, ..base.meta },
        sections: sort_by_path(merged_sections(paths, base.sections, local.sections, remote.sections, st, now)),
        ..base
    }
}

fn same_section_exec(l: Option<&Section>, r: Option<&Section>) -> (b: bool)
    ensures
        b == same_section(
            match l { Some(x) => Some(x@), None => None },
            match r { Some(y) => Some(y@), None => None },
        ),
{
    match (l, r) {
        (Some(x), Some(y)) => x.section_type == y.section_type && opt_source_eq(&x.source, &y.source)
            && opt_graph_eq(&x.graph, &y.graph) && opt_payload_eq(&x.encrypted, &y.encrypted)
            && str_eq(x.content.as_str(), y.content.as_str()),
        (None, None) => true,
        _ => false,
    }
}

pub open spec fn opt_section_view(o: Option<&Section>) -> Option<SectionV> {
    match o {
        Some(x) => Some(x@),
        None => None,
    }
}

pub open spec fn opt_owned_view(o: Option<Section>) -> Option<SectionV> {
    match o {
        Some(x) => Some(x@),
        None => None,
    }
}

fn dup_opt(o: Option<&Section>) -> (r: Option<Section>)
    ensures
        opt_owned_view(r) == opt_section_view(o),
{
    match o {
        Some(x) => Some(x.duplicate()),
        None => None,
    }
}

fn union_sections(l: Option<&Section>, r: Option<&Section>) -> (out: Option<Section>)
    ensures
        opt_owned_view(out) == union_of(opt_section_view(l), opt_section_view(r)),
{
    match (l, r) {
        (Some(x), Some(y)) => {
            let mut section = x.duplicate();
            let yc = chars_of(y.content.as_str());
            let yt = trimmed(&yc);
            if !str_eq(x.content.as_str(), y.content.as_str()) && yt.len() > 0 {
                let blank = is_blank(&chars_of(section.content.as_str()));
                let mut content = x.content.clone();
                if !blank {
                    content.push('\n');
                }
                push_chars(&mut content, &yt);
                proof {
                    reveal_strlit("\n");
                    if !blank {
                        assert(content@ =~= x@.content + "\n"@ + trim(y@.content));
                    } else {
                        assert(content@ =~= x@.content + trim(y@.content));
                    }
                }
                section.content = content;
            }
            Some(section)
        },
        (Some(x), None) => Some(x.duplicate()),
        (None, Some(y)) => Some(y.duplicate()),
        (None, None) => None,
    }
}

fn indent_block_exec(v: &str) -> (r: Vec<char>)
    ensures
        r@ == indent_block(v@),
{
    let ls = split_lines(&chars_of(v));
    let ghost lv = views(ls@);
    let mut out: Vec<Vec<char>> = Vec::new();
    let mut i: usize = 0;
    while i < ls.len()
        invariant
            i <= ls@.len(),
            lv == views(ls@),
            views(out@) == lv.take(i as int).map_values(|l: Seq<char>| "  "@ + l),
        decreases ls@.len() - i,
    {
        let mut line: Vec<char> = Vec::new();
        line.push(' ');
        line.push(' ');
        let mut k: usize = 0;
        while k < ls[i].len()
            invariant
                k <= ls@[i as int]@.len(),
                i < ls@.len(),
                line@ == seq![' ', ' '] + ls@[i as int]@.take(k as int),
            decreases ls@[i as int]@.len() - k,
        {
            line.push(ls[i][k]);
            k += 1;
            assert(line@ =~= seq![' ', ' '] + ls@[i as int]@.take(k as int));
        }
        proof {
            reveal_strlit("  ");
            assert(ls@[i as int]@.take(k as int) =~= ls@[i as int]@);
            assert(line@ =~= "  "@ + lv[i as int]);
        }
        let ghost before = views(out@);
        out.push(line);
        assert(views(out@) =~= before.push("  "@ + lv[i as int]));
        assert(lv.take(i + 1).map_values(|l: Seq<char>| "  "@ + l) =~= lv.take(i as int).map_values(|l: Seq<char>| "  "@ + l).push(
            "  "@ + lv[i as int],
        ));
        i += 1;
    }
    assert(lv.take(lv.len() as int) =~= lv);
    crate::text::join_chars(&out, &chars_of("\n"))
}

fn conflict_section(path: &str, l: Option<&Section>, r: Option<&Section>, now: Timestamp) -> (s: Section)
    requires
        now.valid(),
    ensures
        s@ == conflict_of(path@, opt_section_view(l), opt_section_view(r), now),
{
    let mut section = Section::new(path, SectionType::Conflict, now);
    let mut content = String::new();
    content.push_str("conflict_at: \"");
    let stamp = rfc3339(&now);
    content.push_str(stamp.as_str());
    content.push_str("\"\nlocal_version: |\n");
    let lc = match l {
        Some(x) => indent_block_exec(x.content.as_str()),
        None => indent_block_exec(""),
    };
    push_chars(&mut content, &lc);
    content.push_str("\nremote_version: |\n");
    let rc = match r {
        Some(y) => indent_block_exec(y.content.as_str()),
        None => indent_block_exec(""),
    };
    push_chars(&mut content, &rc);
    proof {
        reveal_strlit("");
        assert(""@ =~= Seq::<char>::empty());
    }
    section.content = content;
    assert(section@ == conflict_of(path@, opt_section_view(l), opt_section_view(r), now));
    section
}

fn merge_section(
    path: &str,
    b: Option<&Section>,
    l: Option<&Section>,
    r: Option<&Section>,
    strategy: MergeStrategy,
    now: Timestamp,
) -> (out: Option<Section>)
    requires
        now.valid(),
    ensures
        opt_owned_view(out) == merge_at(path@, opt_section_view(b), opt_section_view(l), opt_section_view(r), strategy, now),
{
    if same_section_exec(l, r) {
        return dup_opt(l);
    }
    if same_section_exec(l, b) {
        return dup_opt(r);
    }
    if same_section_exec(r, b) {
        return dup_opt(l);
    }
    match strategy {
        MergeStrategy::Ours => dup_opt(l),
        MergeStrategy::Theirs => dup_opt(r),
        MergeStrategy::Union => union_sections(l, r),
        MergeStrategy::Manual => Some(conflict_section(path, l, r, now)),
    }
}

fn lookup<'a>(ss: &'a Vec<Section>, p: &str) -> (r: Option<&'a Section>)
    ensures
        opt_section_view(r) == last_with_path(section_views(ss@), p@),
{
    match last_section_with_path(ss, p) {
        Some(j) => Some(&ss[j]),
        None => None,
    }
}

/// Merges a local and a remote document over their common base.
pub fn merge_documents(base: &RbmemDocument, local: &RbmemDocument, remote: &RbmemDocument, strategy: MergeStrategy, now: Timestamp) -> (r: RbmemDocument)
    requires
        now.valid(),
    ensures
        r@ == merge_of(base@, local@, remote@, strategy, now),
{
    let mut paths: Vec<String> = Vec::new();
    assert(string_views(paths@) =~= Seq::<Seq<char>>::empty());
    add_paths(&mut paths, &base.sections);
    proof {
        lemma_union_paths_one(base@.sections);
    }
    add_paths(&mut paths, &local.sections);
    let ghost two = seq![base@.sections, local@.sections];
    assert(two.drop_last() =~= seq![base@.sections]);
    assert(two.last() == local@.sections);
    assert(string_views(paths@) == union_paths(two));
    add_paths(&mut paths, &remote.sections);
    let ghost docs = seq![base@.sections, local@.sections, remote@.sections];
    assert(docs.drop_last() =~= two);
    assert(docs.last() == remote@.sections);
    assert(string_views(paths@) == union_paths(docs));
    let ghost pv = string_views(paths@);
    let mut merged: Vec<Section> = Vec::new();
    let mut i: usize = 0;
    assert(pv.take(0) =~= Seq::<Seq<char>>::empty());
    while i < paths.len()
        invariant
            i <= paths@.len(),
            now.valid(),
            pv == string_views(paths@),
            section_views(merged@) == merged_sections(pv.take(i as int), base@.sections, local@.sections, remote@.sections, strategy, now),
        decreases paths@.len() - i,
    {
        let p = paths[i].as_str();
        assert(pv.take(i + 1).drop_last() =~= pv.take(i as int));
        assert(pv.take(i + 1).last() == p@);
        let m = merge_section(p, lookup(&base.sections, p), lookup(&local.sections, p), lookup(&remote.sections, p), strategy, now);
        match m {
            Some(s) => {
                let ghost before = section_views(merged@);
                merged.push(s);
                assert(section_views(merged@) =~= before.push(s@));
            },
            None => {},
        }
        i += 1;
    }
    assert(pv.take(pv.len() as int) =~= pv);
    let sorted = sort_sections_by_path(&merged);
    let mut meta = base.meta.duplicate();
    meta.last_updated = now;
    let warnings = crate::text::copy_strings(&base.warnings);
    RbmemDocument { meta, sections: sorted, warnings }
}

/// The text diff of two documents.
pub fn diff_documents(before: &RbmemDocument, after: &RbmemDocument) -> (r: String)
    ensures
        r@ == diff_text(diff_of(before@, after@)),
{
    render_diff_text(&diff_documents_typed(before, after))
}

/// Comparing a document with itself finds no difference, and the text diff
/// says so.
pub proof fn lemma_diff_self_empty(d: DocumentV)
    ensures
        diff_of(d, d) == Seq::<SectionDiffV>::empty(),
        diff_text(diff_of(d, d)) == "no RBMEM differences\n"@,
{
    lemma_diff_changes_same(union_paths(seq![d.sections, d.sections]), d.sections);
    assert(changes_text(Seq::<SectionDiffV>::empty()).len() == 0);
}

proof fn lemma_diff_changes_same(paths: Seq<Seq<char>>, ss: Seq<SectionV>)
    ensures
        diff_changes(paths, ss, ss) == Seq::<SectionDiffV>::empty(),
    decreases paths.len(),
{
    if paths.len() > 0 {
        lemma_diff_changes_same(paths.drop_last(), ss);
        let p = paths.last();
        match last_with_path(ss, p) {
            Some(x) => {
                assert(changed_fields(x, x) =~= Seq::<Seq<char>>::empty());
            },
            None => {},
        }
    }
}

/// A change made on one side of a three-way merge only is taken whatever the
/// strategy: where the local side matches the base, the merged section
/// matches the remote one, and where the remote side matches the base, it
/// matches the local one.
pub proof fn lemma_merge_one_sided(
    path: Seq<char>,
    b: Option<SectionV>,
    l: Option<SectionV>,
    r: Option<SectionV>,
    st: MergeStrategy,
    now: Timestamp,
)
    ensures
        same_section(l, b) ==> same_section(merge_at(path, b, l, r, st, now), r),
        same_section(r, b) ==> same_section(merge_at(path, b, l, r, st, now), l),
{
}

// ---------------------------------------------------------------------------
// What a diff and a merge report
// ---------------------------------------------------------------------------

proof fn lemma_concat_contains<A>(x: Seq<A>, y: Seq<A>, e: A)
    ensures
        (x + y).contains(e) <==> (x.contains(e) || y.contains(e)),
{
    if (x + y).contains(e) {
        let i = choose|i: int| 0 <= i < (x + y).len() && (x + y)[i] == e;
        if i < x.len() {
            assert(x[i] == e);
        } else {
            assert(y[i - x.len()] == e);
        }
    }
    if x.contains(e) {
        let i = choose|i: int| 0 <= i < x.len() && x[i] == e;
        assert((x + y)[i] == e);
    }
    if y.contains(e) {
        let i = choose|i: int| 0 <= i < y.len() && y[i] == e;
        assert((x + y)[x.len() + i] == e);
    }
}

proof fn lemma_opt_contains(c: bool, name: Seq<char>, e: Seq<char>)
    ensures
        (if c { seq![name] } else { Seq::<Seq<char>>::empty() }).contains(e) <==> (c && e == name),
{
    if c {
        assert(seq![name][0] == name);
    }
}

proof fn lemma_six_contains(
    c1: Seq<Seq<char>>,
    c2: Seq<Seq<char>>,
    c3: Seq<Seq<char>>,
    c4: Seq<Seq<char>>,
    c5: Seq<Seq<char>>,
    c6: Seq<Seq<char>>,
    e: Seq<char>,
)
    ensures
        (c1 + c2 + c3 + c4 + c5 + c6).contains(e) <==> (c1.contains(e) || c2.contains(e) || c3.contains(e)
            || c4.contains(e) || c5.contains(e) || c6.contains(e)),
{
    lemma_concat_contains(c1, c2, e);
    lemma_concat_contains(c1 + c2, c3, e);
    lemma_concat_contains(c1 + c2 + c3, c4, e);
    lemma_concat_contains(c1 + c2 + c3 + c4, c5, e);
    lemma_concat_contains(c1 + c2 + c3 + c4 + c5, c6, e);
}

/// The fields a changed section is reported with name exactly what differs:
/// `type`, `content`, `temporal`, `source`, `graph` and `encrypted` each
/// appear just where the two sections differ in it, so none appear exactly
/// where the two agree in all of them.
pub proof fn lemma_changed_fields_exact(b: SectionV, a: SectionV)
    ensures
        changed_fields(b, a).contains("type"@) <==> b.section_type != a.section_type,
        changed_fields(b, a).contains("content"@) <==> b.content != a.content,
        changed_fields(b, a).contains("temporal"@) <==> b.temporal != a.temporal,
        changed_fields(b, a).contains("source"@) <==> b.source != a.source,
        changed_fields(b, a).contains("graph"@) <==> b.graph != a.graph,
        changed_fields(b, a).contains("encrypted"@) <==> b.encrypted != a.encrypted,
        changed_fields(b, a).len() == 0 <==> (b.section_type == a.section_type && b.content == a.content
            && b.temporal == a.temporal && b.source == a.source && b.graph == a.graph && b.encrypted == a.encrypted),
{
    reveal_strlit("type");
    reveal_strlit("content");
    reveal_strlit("temporal");
    reveal_strlit("source");
    reveal_strlit("graph");
    reveal_strlit("encrypted");
    let n1 = "type"@;
    let n2 = "content"@;
    let n3 = "temporal"@;
    let n4 = "source"@;
    let n5 = "graph"@;
    let n6 = "encrypted"@;
    assert(n1.len() == 4 && n2.len() == 7 && n3.len() == 8 && n4.len() == 6 && n5.len() == 5 && n6.len() == 9);
    let c1 = if b.section_type != a.section_type { seq![n1] } else { Seq::<Seq<char>>::empty() };
    let c2 = if b.content != a.content { seq![n2] } else { Seq::<Seq<char>>::empty() };
    let c3 = if b.temporal != a.temporal { seq![n3] } else { Seq::<Seq<char>>::empty() };
    let c4 = if b.source != a.source { seq![n4] } else { Seq::<Seq<char>>::empty() };
    let c5 = if b.graph != a.graph { seq![n5] } else { Seq::<Seq<char>>::empty() };
    let c6 = if b.encrypted != a.encrypted { seq![n6] } else { Seq::<Seq<char>>::empty() };
    let f = changed_fields(b, a);
    assert(f == c1 + c2 + c3 + c4 + c5 + c6);
    let ns = seq![n1, n2, n3, n4, n5, n6];
    assert forall|k: int| 0 <= k < 6 implies (f.contains(ns[k]) <==> (
        (b.section_type != a.section_type && ns[k] == n1) || (b.content != a.content && ns[k] == n2)
        || (b.temporal != a.temporal && ns[k] == n3) || (b.source != a.source && ns[k] == n4)
        || (b.graph != a.graph && ns[k] == n5) || (b.encrypted != a.encrypted && ns[k] == n6))) by {
        lemma_six_contains(c1, c2, c3, c4, c5, c6, ns[k]);
        lemma_opt_contains(b.section_type != a.section_type, n1, ns[k]);
        lemma_opt_contains(b.content != a.content, n2, ns[k]);
        lemma_opt_contains(b.temporal != a.temporal, n3, ns[k]);
        lemma_opt_contains(b.source != a.source, n4, ns[k]);
        lemma_opt_contains(b.graph != a.graph, n5, ns[k]);
        lemma_opt_contains(b.encrypted != a.encrypted, n6, ns[k]);
    }
    assert(ns[0] == n1 && ns[1] == n2 && ns[2] == n3 && ns[3] == n4 && ns[4] == n5 && ns[5] == n6);
    if f.len() == 0 {
        assert(!f.contains(n1) && !f.contains(n2) && !f.contains(n3));
        assert(!f.contains(n4) && !f.contains(n5) && !f.contains(n6));
    }
    if f.len() != 0 {
        assert(f[0] == f[0]);
        assert(f.contains(f[0]));
        lemma_six_contains(c1, c2, c3, c4, c5, c6, f[0]);
    }
}

proof fn lemma_last_with_path_found(ss: Seq<SectionV>, p: Seq<char>)
    ensures
        last_with_path(ss, p) matches Some(s) ==> s.path == p && paths_of(ss).contains(p),
    decreases ss.len(),
{
    if ss.len() > 0 {
        if ss.last().path == p {
            assert(paths_of(ss)[ss.len() - 1] == p);
        } else {
            lemma_last_with_path_found(ss.drop_last(), p);
            if last_with_path(ss.drop_last(), p) is Some {
                let i = choose|i: int| 0 <= i < paths_of(ss.drop_last()).len() && paths_of(ss.drop_last())[i] == p;
                assert(paths_of(ss)[i] == p);
            }
        }
    }
}

proof fn lemma_diff_changes_has(paths: Seq<Seq<char>>, bs: Seq<SectionV>, as_: Seq<SectionV>, p: Seq<char>)
    requires
        paths.contains(p),
    ensures
        diff_entry(p, last_with_path(bs, p), last_with_path(as_, p)) matches Some(d)
            ==> diff_changes(paths, bs, as_).contains(d),
    decreases paths.len(),
{
    let prev = diff_changes(paths.drop_last(), bs, as_);
    let out = diff_changes(paths, bs, as_);
    assert forall|d: SectionDiffV| prev.contains(d) implies out.contains(d) by {
        let i = choose|i: int| 0 <= i < prev.len() && prev[i] == d;
        match diff_entry(paths.last(), last_with_path(bs, paths.last()), last_with_path(as_, paths.last())) {
            Some(e) => { assert(out == prev.push(e)); assert(out[i] == d); },
            None => {},
        }
    }
    if paths.last() == p {
        match diff_entry(p, last_with_path(bs, p), last_with_path(as_, p)) {
            Some(e) => { assert(out == prev.push(e)); assert(out[prev.len() as int] == e); },
            None => {},
        }
    } else {
        let j = choose|j: int| 0 <= j < paths.len() && paths[j] == p;
        assert(paths.drop_last()[j] == p);
        lemma_diff_changes_has(paths.drop_last(), bs, as_, p);
    }
}

proof fn lemma_union_two(bs: Seq<SectionV>, as_: Seq<SectionV>, y: Seq<char>)
    ensures
        union_paths(seq![bs, as_]).contains(y) <==> (paths_of(bs).contains(y) || paths_of(as_).contains(y)),
{
    let docs = seq![bs, as_];
    assert(docs.drop_last() =~= seq![bs]);
    assert(docs.last() == as_);
    lemma_union_paths_one(bs);
    crate::query::lemma_add_names_members(Seq::<Seq<char>>::empty(), paths_of(bs));
    crate::query::lemma_add_names_members(union_paths(seq![bs]), paths_of(as_));
}

/// Where the last sections at a path differ between two documents, the diff
/// holds one change at that path: `Changed`, naming among its fields each of
/// type, content, temporal, source, graph and encrypted payload in which the
/// two sections differ.
pub proof fn lemma_diff_reports_changed_section(before: DocumentV, after: DocumentV, p: Seq<char>)
    requires
        last_with_path(before.sections, p) is Some,
        last_with_path(after.sections, p) is Some,
        last_with_path(before.sections, p) != last_with_path(after.sections, p),
    ensures
        exists|k: int| 0 <= k < diff_of(before, after).len() && (#[trigger] diff_of(before, after)[k]).path == p && ({
            let d = diff_of(before, after)[k];
            let x = last_with_path(before.sections, p)->0;
            let y = last_with_path(after.sections, p)->0;
            &&& d.kind == SectionDiffKind::Changed
            &&& (x.section_type != y.section_type ==> d.fields.contains("type"@))
            &&& (x.content != y.content ==> d.fields.contains("content"@))
            &&& (x.temporal != y.temporal ==> d.fields.contains("temporal"@))
            &&& (x.source != y.source ==> d.fields.contains("source"@))
            &&& (x.graph != y.graph ==> d.fields.contains("graph"@))
            &&& (x.encrypted != y.encrypted ==> d.fields.contains("encrypted"@))
        }),
{
    let x = last_with_path(before.sections, p)->0;
    let y = last_with_path(after.sections, p)->0;
    lemma_last_with_path_found(before.sections, p);
    lemma_last_with_path_found(after.sections, p);
    lemma_changed_fields_exact(x, y);
    lemma_union_two(before.sections, after.sections, p);
    let paths = union_paths(seq![before.sections, after.sections]);
    assert(paths.contains(p));
    lemma_diff_changes_has(paths, before.sections, after.sections, p);
    let d = SectionDiffV { path: p, kind: SectionDiffKind::Changed, fields: changed_fields(x, y) };
    assert(diff_entry(p, Some(x), Some(y)) == Some(d));
    let k = choose|k: int| 0 <= k < diff_of(before, after).len() && diff_of(before, after)[k] == d;
    assert(diff_of(before, after)[k].path == p);
}

/// Two documents have an empty diff only where every path's last section is
/// the same in both: a path found in one document alone shows up as added or
/// removed, and any difference at a path shows up as changed.
pub proof fn lemma_diff_empty_means_same(before: DocumentV, after: DocumentV)
    requires
        diff_of(before, after).len() == 0,
    ensures
        forall|p: Seq<char>| last_with_path(before.sections, p) == last_with_path(after.sections, p),
{
    assert forall|p: Seq<char>| last_with_path(before.sections, p) == last_with_path(after.sections, p) by {
        lemma_last_with_path_found(before.sections, p);
        lemma_last_with_path_found(after.sections, p);
        lemma_union_two(before.sections, after.sections, p);
        let paths = union_paths(seq![before.sections, after.sections]);
        let lb = last_with_path(before.sections, p);
        let la = last_with_path(after.sections, p);
        if lb is Some || la is Some {
            assert(paths.contains(p));
            lemma_diff_changes_has(paths, before.sections, after.sections, p);
            if lb is Some && la is Some {
                lemma_changed_fields_exact(lb->0, la->0);
            }
            if lb != la {
                assert(diff_entry(p, lb, la) is Some);
            }
        }
    }
}

proof fn lemma_merged_sections_has(
    paths: Seq<Seq<char>>,
    b: Seq<SectionV>,
    l: Seq<SectionV>,
    r: Seq<SectionV>,
    st: MergeStrategy,
    now: Timestamp,
    p: Seq<char>,
)
    requires
        paths.contains(p),
    ensures
        merge_at(p, last_with_path(b, p), last_with_path(l, p), last_with_path(r, p), st, now) matches Some(m)
            ==> merged_sections(paths, b, l, r, st, now).contains(m),
    decreases paths.len(),
{
    let prev = merged_sections(paths.drop_last(), b, l, r, st, now);
    let out = merged_sections(paths, b, l, r, st, now);
    let q = paths.last();
    assert forall|m: SectionV| prev.contains(m) implies out.contains(m) by {
        let i = choose|i: int| 0 <= i < prev.len() && prev[i] == m;
        match merge_at(q, last_with_path(b, q), last_with_path(l, q), last_with_path(r, q), st, now) {
            Some(e) => { assert(out == prev.push(e)); assert(out[i] == m); },
            None => {},
        }
    }
    if q == p {
        match merge_at(p, last_with_path(b, p), last_with_path(l, p), last_with_path(r, p), st, now) {
            Some(e) => { assert(out == prev.push(e)); assert(out[prev.len() as int] == e); },
            None => {},
        }
    } else {
        let j = choose|j: int| 0 <= j < paths.len() && paths[j] == p;
        assert(paths.drop_last()[j] == p);
        lemma_merged_sections_has(paths.drop_last(), b, l, r, st, now, p);
    }
}

proof fn lemma_union_three(bs: Seq<SectionV>, ls: Seq<SectionV>, rs: Seq<SectionV>, y: Seq<char>)
    ensures
        paths_of(ls).contains(y) ==> union_paths(seq![bs, ls, rs]).contains(y),
{
    let docs = seq![bs, ls, rs];
    assert(docs.drop_last() =~= seq![bs, ls]);
    assert(docs.last() == rs);
    lemma_union_two(bs, ls, y);
    let two = seq![bs, ls];
    assert(two.drop_last() =~= seq![bs]);
    lemma_union_paths_one(bs);
    crate::query::lemma_add_names_members(Seq::<Seq<char>>::empty(), paths_of(bs));
    crate::query::lemma_add_names_members(union_paths(seq![bs]), paths_of(ls));
    crate::query::lemma_add_names_members(union_paths(two), paths_of(rs));
}

/// Under the union strategy, a section that both sides changed from the
/// base, to contents that differ, with remote content that is not blank,
/// comes out of the merge as the local section whose content is the local
/// content, a newline (where the local content is not blank), and the
/// trimmed remote content: neither side's text is dropped.
pub proof fn lemma_union_merge_keeps_both(
    base: DocumentV,
    local: DocumentV,
    remote: DocumentV,
    now: Timestamp,
    p: Seq<char>,
)
    requires
        last_with_path(local.sections, p) is Some,
        last_with_path(remote.sections, p) is Some,
        !same_section(last_with_path(local.sections, p), last_with_path(base.sections, p)),
        !same_section(last_with_path(remote.sections, p), last_with_path(base.sections, p)),
        last_with_path(local.sections, p)->0.content != last_with_path(remote.sections, p)->0.content,
        trim(last_with_path(remote.sections, p)->0.content).len() > 0,
    ensures
        ({
            let x = last_with_path(local.sections, p)->0;
            let y = last_with_path(remote.sections, p)->0;
            let sep = if trim(x.content).len() > 0 { "\n"@ } else { Seq::<char>::empty() };
            merge_of(base, local, remote, MergeStrategy::Union, now).sections.contains(
                SectionV { content: x.content + sep + trim(y.content), ..x },
            )
        }),
{
    let x = last_with_path(local.sections, p)->0;
    let y = last_with_path(remote.sections, p)->0;
    let sep = if trim(x.content).len() > 0 { "\n"@ } else { Seq::<char>::empty() };
    let m = SectionV { content: x.content + sep + trim(y.content), ..x };
    lemma_last_with_path_found(local.sections, p);
    lemma_union_three(base.sections, local.sections, remote.sections, p);
    let paths = union_paths(seq![base.sections, local.sections, remote.sections]);
    let b = last_with_path(base.sections, p);
    assert(!same_section(Some(x), Some(y)));
    if trim(x.content).len() > 0 {
        assert(x.content + "\n"@ + trim(y.content) == x.content + sep + trim(y.content));
    } else {
        assert(x.content + trim(y.content) =~= x.content + sep + trim(y.content));
    }
    assert(merge_at(p, b, Some(x), Some(y), MergeStrategy::Union, now) == Some(m));
    lemma_merged_sections_has(paths, base.sections, local.sections, remote.sections, MergeStrategy::Union, now, p);
    crate::document::lemma_sort_members(
        merged_sections(paths, base.sections, local.sections, remote.sections, MergeStrategy::Union, now),
    );
}

/// A path with a section in only one of two documents appears in their diff
/// as `Added` (only after) or `Removed` (only before), with no fields.
pub proof fn lemma_diff_reports_added_removed(before: DocumentV, after: DocumentV, p: Seq<char>)
    requires
        last_with_path(before.sections, p) is Some || last_with_path(after.sections, p) is Some,
        last_with_path(before.sections, p) is None || last_with_path(after.sections, p) is None,
    ensures
        diff_of(before, after).contains(SectionDiffV {
            path: p,
            kind: if last_with_path(after.sections, p) is Some { SectionDiffKind::Added } else { SectionDiffKind::Removed },
            fields: Seq::empty(),
        }),
{
    lemma_last_with_path_found(before.sections, p);
    lemma_last_with_path_found(after.sections, p);
    lemma_union_two(before.sections, after.sections, p);
    let paths = union_paths(seq![before.sections, after.sections]);
    lemma_diff_changes_has(paths, before.sections, after.sections, p);
}

/// Under the union strategy, a section that both sides changed from the
/// base comes out of the merge as the local section, unchanged, where the
/// remote content is blank or the same as the local content.
pub proof fn lemma_union_merge_keeps_local(
    base: DocumentV,
    local: DocumentV,
    remote: DocumentV,
    now: Timestamp,
    p: Seq<char>,
)
    requires
        last_with_path(local.sections, p) is Some,
        last_with_path(remote.sections, p) is Some,
        !same_section(last_with_path(local.sections, p), last_with_path(base.sections, p)),
        !same_section(last_with_path(remote.sections, p), last_with_path(base.sections, p)),
        last_with_path(local.sections, p)->0.content == last_with_path(remote.sections, p)->0.content
            || trim(last_with_path(remote.sections, p)->0.content).len() == 0,
    ensures
        merge_of(base, local, remote, MergeStrategy::Union, now).sections.contains(last_with_path(local.sections, p)->0),
{
    let x = last_with_path(local.sections, p)->0;
    lemma_last_with_path_found(local.sections, p);
    lemma_union_three(base.sections, local.sections, remote.sections, p);
    let paths = union_paths(seq![base.sections, local.sections, remote.sections]);
    lemma_merged_sections_has(paths, base.sections, local.sections, remote.sections, MergeStrategy::Union, now, p);
    crate::document::lemma_sort_members(
        merged_sections(paths, base.sections, local.sections, remote.sections, MergeStrategy::Union, now),
    );
}

}
