//! Reading the body of one section: the lines between its delimiters, read
//! one at a time by a small state machine that forgives missing or
//! misplaced fields.
use vstd::prelude::*;
use crate::document::{parse_section_type, relation_views, GraphRelation, GraphRelationV, SectionType};
use crate::scalar::{
    clean_inline_content, clean_inline_content_chars, clean_scalar, clean_scalar_chars, dash_field_value,
    field_value, parse_confidence, parse_confidence_text, parse_dash_field, parse_field_line,
};
use crate::text::{
    chars_eq, chars_of, copy_range, is_blank, join, join_chars, lines, lower_chars, lower_seq,
    split_lines, split_once, split_once_chars, starts_with_chars, string_of, trim, trimmed, views,
};
use crate::time::{read_time, spec_read_time, Timestamp};

verus! {

/// Which block of a section body the current line belongs to.
#[derive(Debug, Clone, Copy, PartialEq, Eq, Structural)]
pub enum BodyMode {
    Top,
    Temporal,
    Source,
    Graph,
    Content,
}

/// What has been read of a section body so far.
pub struct BodyV {
    pub mode: BodyMode,
    pub section_type: Option<SectionType>,
    pub temporal: Seq<(Seq<char>, Seq<char>)>,
    pub saw_source: bool,
    pub kind: Option<Seq<char>>,
    pub path: Option<Seq<char>>,
    pub actor: Option<Seq<char>>,
    pub hash: Option<Seq<char>>,
    pub saw_graph: bool,
    pub node_type: Option<Seq<char>>,
    pub relations: Seq<GraphRelationV>,
    pub current: Option<GraphRelationV>,
    pub nonce: Option<Seq<char>>,
    pub ciphertext: Option<Seq<char>>,
    pub encrypted_at: Option<Seq<char>>,
    pub content: Seq<Seq<char>>,
}

pub open spec fn body_start() -> BodyV {
    BodyV {
        mode: BodyMode::Top,
        section_type: None,
        temporal: Seq::empty(),
        saw_source: false,
        kind: None,
        path: None,
        actor: None,
        hash: None,
        saw_graph: false,
        node_type: None,
        relations: Seq::empty(),
        current: None,
        nonce: None,
        ciphertext: None,
        encrypted_at: None,
        content: Seq::empty(),
    }
}

/// An optional instant as written in a field: `null` or empty is none, and
/// so is text that is not RFC 3339.
pub open spec fn optional_time_value(v: Seq<char>) -> Option<Timestamp> {
    if v == "null"@ || v.len() == 0 {
        None
    } else {
        spec_read_time(v)
    }
}

/// The relation being read is complete.
pub open spec fn flush(st: BodyV) -> BodyV {
    match st.current {
        Some(r) => BodyV { relations: st.relations.push(r), current: None, ..st },
        None => st,
    }
}

/// A field line inside a relation item.
pub open spec fn relation_field(r: GraphRelationV, t: Seq<char>) -> GraphRelationV {
    match field_value(t, "type"@) {
        Some(v) => GraphRelationV { relation_type: v, ..r },
        None => match field_value(t, "valid_from"@) {
            Some(v) => GraphRelationV { valid_from: optional_time_value(v), ..r },
            None => match field_value(t, "valid_until"@) {
                Some(v) => GraphRelationV { valid_until: optional_time_value(v), ..r },
                None => match field_value(t, "inferred"@) {
                    Some(v) => GraphRelationV { inferred: lower_seq(v) == "true"@, ..r },
                    None => match field_value(t, "confidence"@) {
                        Some(v) => GraphRelationV { confidence: parse_confidence_text(v), ..r },
                        None => r,
                    },
                },
            },
        },
    }
}

/// A content line with its indentation of two spaces or one tab removed.
pub open spec fn strip_content_indent(line: Seq<char>) -> Seq<char> {
    if "  "@.is_prefix_of(line) {
        line.skip("  "@.len() as int)
    } else if "\t"@.is_prefix_of(line) {
        line.skip("\t"@.len() as int)
    } else {
        line
    }
}

pub open spec fn new_relation(to: Seq<char>) -> GraphRelationV {
    GraphRelationV {
        to,
        relation_type: "related"@,
        valid_from: None,
        valid_until: None,
        inferred: false,
        confidence: None,
    }
}

pub open spec fn content_start(st: BodyV, t: Seq<char>) -> BodyV {
    let f = flush(st);
    let inline = trim(t.skip("content:"@.len() as int));
    BodyV {
        mode: BodyMode::Content,
        content: if inline.len() > 0 && inline != "|"@ {
            f.content.push(clean_inline_content(inline))
        } else {
            f.content
        },
        ..f
    }
}

pub open spec fn graph_line(st: BodyV, t: Seq<char>) -> BodyV {
    match field_value(t, "node_type"@) {
        Some(v) => BodyV { node_type: Some(v), ..st },
        None => if t == "relations:"@ {
            st
        } else {
            match dash_field_value(t, "to"@) {
                Some(v) => BodyV { current: Some(new_relation(v)), ..flush(st) },
                None => match st.current {
                    Some(r) => BodyV { current: Some(relation_field(r, t)), ..st },
                    None => st,
                },
            }
        },
    }
}

pub open spec fn source_line(st: BodyV, t: Seq<char>) -> BodyV {
    match field_value(t, "kind"@) {
        Some(v) => BodyV { kind: Some(v), ..st },
        None => match field_value(t, "path"@) {
            Some(v) => BodyV { path: Some(v), ..st },
            None => match field_value(t, "actor"@) {
                Some(v) => BodyV { actor: Some(v), ..st },
                None => match field_value(t, "hash"@) {
                    Some(v) => BodyV { hash: Some(v), ..st },
                    None => st,
                },
            },
        },
    }
}

pub open spec fn mode_line(st: BodyV, line: Seq<char>, t: Seq<char>) -> BodyV {
    match st.mode {
        BodyMode::Top => match field_value(t, "type"@) {
            Some(v) => BodyV { section_type: parse_section_type(v), ..st },
            None => st,
        },
        BodyMode::Temporal => match split_once(t, ":"@) {
            Some((k, v)) => BodyV { temporal: st.temporal.push((trim(k), clean_scalar(v))), ..st },
            None => st,
        },
        BodyMode::Source => source_line(st, t),
        BodyMode::Graph => graph_line(st, t),
        BodyMode::Content => BodyV { content: st.content.push(strip_content_indent(line)), ..st },
    }
}

/// One line of a section body. Block headers switch the block; outside
/// content, the fields of an encrypted payload are read wherever they stand.
pub open spec fn body_step(st: BodyV, line: Seq<char>) -> BodyV {
    let t = trim(line);
    if t == "temporal:"@ {
        BodyV { mode: BodyMode::Temporal, ..st }
    } else if t == "source:"@ {
        BodyV { mode: BodyMode::Source, saw_source: true, ..st }
    } else if t == "graph:"@ {
        BodyV { mode: BodyMode::Graph, saw_graph: true, ..st }
    } else if "content:"@.is_prefix_of(t) {
        content_start(st, t)
    } else if st.mode != BodyMode::Content && field_value(t, "nonce"@) is Some {
        BodyV { nonce: field_value(t, "nonce"@), ..st }
    } else if st.mode != BodyMode::Content && field_value(t, "ciphertext"@) is Some {
        BodyV { ciphertext: field_value(t, "ciphertext"@), ..st }
    } else if st.mode != BodyMode::Content && field_value(t, "encrypted_at"@) is Some {
        BodyV { encrypted_at: field_value(t, "encrypted_at"@), ..st }
    } else {
        mode_line(st, line, t)
    }
}

pub open spec fn body_fold(ls: Seq<Seq<char>>) -> BodyV
    decreases ls.len(),
{
    if ls.len() == 0 {
        body_start()
    } else {
        body_step(body_fold(ls.drop_last()), ls.last())
    }
}

/// The whole body read, with the last relation completed.
pub open spec fn read_body(body: Seq<char>) -> BodyV {
    flush(body_fold(lines(body)))
}

/// Content lines without the blank lines at the end.
pub open spec fn drop_trailing_blank(ls: Seq<Seq<char>>) -> Seq<Seq<char>>
    decreases ls.len(),
{
    if ls.len() > 0 && trim(ls.last()).len() == 0 {
        drop_trailing_blank(ls.drop_last())
    } else {
        ls
    }
}

/// The content of a section body.
pub open spec fn body_content(st: BodyV) -> Seq<char> {
    join(drop_trailing_blank(st.content), "\n"@)
}

// ---------------------------------------------------------------------------
// Executable reader
// ---------------------------------------------------------------------------

pub open spec fn opt_chars(o: Option<Vec<char>>) -> Option<Seq<char>> {
    match o {
        Some(v) => Some(v@),
        None => None,
    }
}

pub open spec fn opt_relation(o: Option<GraphRelation>) -> Option<GraphRelationV> {
    match o {
        Some(r) => Some(r@),
        None => None,
    }
}

pub open spec fn pair_views(v: Seq<(Vec<char>, Vec<char>)>) -> Seq<(Seq<char>, Seq<char>)> {
    v.map_values(|p: (Vec<char>, Vec<char>)| (p.0@, p.1@))
}

/// The state of the body reader.
pub struct RawBody {
    pub mode: BodyMode,
    pub section_type: Option<SectionType>,
    pub temporal: Vec<(Vec<char>, Vec<char>)>,
    pub saw_source: bool,
    pub kind: Option<Vec<char>>,
    pub path: Option<Vec<char>>,
    pub actor: Option<Vec<char>>,
    pub hash: Option<Vec<char>>,
    pub saw_graph: bool,
    pub node_type: Option<Vec<char>>,
    pub relations: Vec<GraphRelation>,
    pub current: Option<GraphRelation>,
    pub nonce: Option<Vec<char>>,
    pub ciphertext: Option<Vec<char>>,
    pub encrypted_at: Option<Vec<char>>,
    pub content: Vec<Vec<char>>,
}

impl View for RawBody {
    type V = BodyV;

    open spec fn view(&self) -> BodyV {
        BodyV {
            mode: self.mode,
            section_type: self.section_type,
            temporal: pair_views(self.temporal@),
            saw_source: self.saw_source,
            kind: opt_chars(self.kind),
            path: opt_chars(self.path),
            actor: opt_chars(self.actor),
            hash: opt_chars(self.hash),
            saw_graph: self.saw_graph,
            node_type: opt_chars(self.node_type),
            relations: relation_views(self.relations@),
            current: opt_relation(self.current),
            nonce: opt_chars(self.nonce),
            ciphertext: opt_chars(self.ciphertext),
            encrypted_at: opt_chars(self.encrypted_at),
            content: views(self.content@),
        }
    }
}

fn optional_time_exec(v: &[char]) -> (r: Option<Timestamp>)
    ensures
        r == optional_time_value(v@),
        r matches Some(t) ==> t.valid(),
{
    if chars_eq(v, &chars_of("null")) || v.len() == 0 {
        None
    } else {
        let s = string_of(v);
        read_time(s.as_str())
    }
}

fn apply_relation_field(r: &mut GraphRelation, t: &[char])
    requires
        old(r)@.valid_from matches Some(x) ==> x.valid(),
        old(r)@.valid_until matches Some(x) ==> x.valid(),
    ensures
        final(r)@ == relation_field(old(r)@, t@),
        final(r)@.valid_from matches Some(x) ==> x.valid(),
        final(r)@.valid_until matches Some(x) ==> x.valid(),
{
    if let Some(v) = parse_field_line(t, "type") {
        r.relation_type = string_of(&v);
    } else if let Some(v) = parse_field_line(t, "valid_from") {
        r.valid_from = optional_time_exec(&v);
    } else if let Some(v) = parse_field_line(t, "valid_until") {
        r.valid_until = optional_time_exec(&v);
    } else if let Some(v) = parse_field_line(t, "inferred") {
        r.inferred = chars_eq(&lower_chars(&v), &chars_of("true"));
    } else if let Some(v) = parse_field_line(t, "confidence") {
        r.confidence = parse_confidence(&v);
    }
}

/// Every instant of the relations read so far lies in `chrono`'s range.
pub open spec fn body_times_valid(st: BodyV) -> bool {
    &&& forall|i: int|
        0 <= i < st.relations.len() ==> {
            &&& (#[trigger] st.relations[i]).valid_from matches Some(x) ==> x.valid()
            &&& st.relations[i].valid_until matches Some(x) ==> x.valid()
        }
    &&& st.current matches Some(r) ==> {
        &&& r.valid_from matches Some(x) ==> x.valid()
        &&& r.valid_until matches Some(x) ==> x.valid()
    }
}

impl RawBody {
    pub fn start() -> (r: RawBody)
        ensures
            r@ == body_start(),
    {
        let r = RawBody {
            mode: BodyMode::Top,
            section_type: None,
            temporal: Vec::new(),
            saw_source: false,
            kind: None,
            path: None,
            actor: None,
            hash: None,
            saw_graph: false,
            node_type: None,
            relations: Vec::new(),
            current: None,
            nonce: None,
            ciphertext: None,
            encrypted_at: None,
            content: Vec::new(),
        };
        assert(r@.temporal =~= Seq::<(Seq<char>, Seq<char>)>::empty());
        assert(r@.relations =~= Seq::<GraphRelationV>::empty());
        assert(r@.content =~= Seq::<Seq<char>>::empty());
        r
    }

    pub fn flush(&mut self)
        requires
            body_times_valid(old(self)@),
        ensures
            final(self)@ == flush(old(self)@),
            body_times_valid(final(self)@),
    {
        let mut cur: Option<GraphRelation> = None;
        std::mem::swap(&mut cur, &mut self.current);
        match cur {
            Some(r) => {
                let ghost before = relation_views(self.relations@);
                self.relations.push(r);
                assert(relation_views(self.relations@) =~= before.push(old(self)@.current->0));
            },
            None => {},
        }
    }

    fn graph_line(&mut self, t: &[char])
        requires
            body_times_valid(old(self)@),
        ensures
            final(self)@ == graph_line(old(self)@, t@),
            body_times_valid(final(self)@),
    {
        if let Some(v) = parse_field_line(t, "node_type") {
            self.node_type = Some(v);
            return ;
        }
        if chars_eq(t, &chars_of("relations:")) {
            return ;
        }
        if let Some(v) = parse_dash_field(t, "to") {
            self.flush();
            self.current = Some(
                GraphRelation {
                    to: string_of(&v),
                    relation_type: "related".to_owned(),
                    valid_from: None,
                    valid_until: None,
                    inferred: false,
                    confidence: None,
                },
            );
            return ;
        }
        let mut cur: Option<GraphRelation> = None;
        std::mem::swap(&mut cur, &mut self.current);
        match cur {
            Some(mut r) => {
                apply_relation_field(&mut r, t);
                self.current = Some(r);
            },
            None => {},
        }
    }

    fn source_line(&mut self, t: &[char])
        ensures
            final(self)@ == source_line(old(self)@, t@),
    {
        if let Some(v) = parse_field_line(t, "kind") {
            self.kind = Some(v);
        } else if let Some(v) = parse_field_line(t, "path") {
            self.path = Some(v);
        } else if let Some(v) = parse_field_line(t, "actor") {
            self.actor = Some(v);
        } else if let Some(v) = parse_field_line(t, "hash") {
            self.hash = Some(v);
        }
    }

    fn content_start(&mut self, t: &[char])
        requires
            "content:"@.is_prefix_of(t@),
            body_times_valid(old(self)@),
        ensures
            final(self)@ == content_start(old(self)@, t@),
            body_times_valid(final(self)@),
    {
        self.flush();
        let k = chars_of("content:");
        let rest = copy_range(t, k.len(), t.len());
        assert(rest@ =~= t@.skip("content:"@.len() as int));
        let inline = trimmed(&rest);
        self.mode = BodyMode::Content;
        if inline.len() > 0 && !chars_eq(&inline, &chars_of("|")) {
            let ghost before = views(self.content@);
            self.content.push(clean_inline_content_chars(&inline));
            assert(views(self.content@) =~= before.push(clean_inline_content(inline@)));
        }
    }

    fn mode_line(&mut self, line: &[char], t: &[char])
        requires
            t@ == trim(line@),
            body_times_valid(old(self)@),
        ensures
            final(self)@ == mode_line(old(self)@, line@, t@),
            body_times_valid(final(self)@),
    {
        match self.mode {
            BodyMode::Top => {
                if let Some(v) = parse_field_line(t, "type") {
                    let s = string_of(&v);
                    self.section_type = match SectionType::from_str(s.as_str()) {
                        Ok(st) => Some(st),
                        Err(_) => None,
                    };
                }
            },
            BodyMode::Temporal => {
                if let Some((k, v)) = split_once_chars(t, &chars_of(":")) {
                    let ghost before = pair_views(self.temporal@);
                    let key = trimmed(&k);
                    let value = clean_scalar_chars(&v);
                    self.temporal.push((key, value));
                    assert(pair_views(self.temporal@) =~= before.push((trim(k@), clean_scalar(v@))));
                }
            },
            BodyMode::Source => {
                self.source_line(t);
            },
            BodyMode::Graph => {
                self.graph_line(t);
            },
            BodyMode::Content => {
                proof {
                    reveal_strlit("  ");
                    reveal_strlit("\t");
                }
                let stripped = if starts_with_chars(line, &chars_of("  ")) {
                    copy_range(line, 2, line.len())
                } else if starts_with_chars(line, &chars_of("\t")) {
                    copy_range(line, 1, line.len())
                } else {
                    copy_range(line, 0, line.len())
                };
                proof {
                    reveal_strlit("  ");
                    reveal_strlit("\t");
                }
                assert(stripped@ =~= strip_content_indent(line@));
                let ghost before = views(self.content@);
                self.content.push(stripped);
                assert(views(self.content@) =~= before.push(strip_content_indent(line@)));
            },
        }
    }

    /// Reads one line of a section body.
    pub fn step(&mut self, line: &[char])
        requires
            body_times_valid(old(self)@),
        ensures
            final(self)@ == body_step(old(self)@, line@),
            body_times_valid(final(self)@),
    {
        let t = trimmed(line);
        if chars_eq(&t, &chars_of("temporal:")) {
            self.mode = BodyMode::Temporal;
        } else if chars_eq(&t, &chars_of("source:")) {
            self.mode = BodyMode::Source;
            self.saw_source = true;
        } else if chars_eq(&t, &chars_of("graph:")) {
            self.mode = BodyMode::Graph;
            self.saw_graph = true;
        } else if starts_with_chars(&t, &chars_of("content:")) {
            self.content_start(&t);
        } else {
            let not_content = self.mode != BodyMode::Content;
            let nonce = parse_field_line(&t, "nonce");
            let ciphertext = parse_field_line(&t, "ciphertext");
            let encrypted_at = parse_field_line(&t, "encrypted_at");
            if not_content && nonce.is_some() {
                self.nonce = nonce;
            } else if not_content && ciphertext.is_some() {
                self.ciphertext = ciphertext;
            } else if not_content && encrypted_at.is_some() {
                self.encrypted_at = encrypted_at;
            } else {
                self.mode_line(line, &t);
            }
        }
    }
}


/// Reads the body of one section.
pub fn read_body_exec(body: &[char]) -> (r: RawBody)
    ensures
        r@ == read_body(body@),
        body_times_valid(r@),
{
    let ls = split_lines(body);
    let ghost lv = views(ls@);
    let mut st = RawBody::start();
    let mut i: usize = 0;
    assert(lv.take(0) =~= Seq::<Seq<char>>::empty());
    while i < ls.len()
        invariant
            i <= ls@.len(),
            lv == views(ls@),
            lv == lines(body@),
            st@ == body_fold(lv.take(i as int)),
            body_times_valid(st@),
        decreases ls@.len() - i,
    {
        st.step(&ls[i]);
        assert(lv.take(i + 1).drop_last() =~= lv.take(i as int));
        assert(lv.take(i + 1).last() == ls@[i as int]@);
        i += 1;
    }
    assert(lv.take(lv.len() as int) =~= lv);
    st.flush();
    st
}

/// The content lines without trailing blank lines, joined by newlines.
pub fn content_of(st: &RawBody) -> (r: String)
    ensures
        r@ == body_content(st@),
{
    let mut n = st.content.len();
    let ghost all = views(st.content@);
    assert(all.take(n as int) =~= all);
    while n > 0 && is_blank(&st.content[n - 1])
        invariant
            n <= st.content@.len(),
            all == views(st.content@),
            drop_trailing_blank(all) == drop_trailing_blank(all.take(n as int)),
        decreases n,
    {
        assert(all.take(n as int).last() == st.content@[n - 1]@);
        assert(all.take(n as int).drop_last() =~= all.take(n - 1));
        n -= 1;
    }
    let mut kept: Vec<Vec<char>> = Vec::new();
    let mut i: usize = 0;
    while i < n
        invariant
            i <= n <= st.content@.len(),
            all == views(st.content@),
            views(kept@) == all.take(i as int),
        decreases n - i,
    {
        let ghost before = views(kept@);
        let line = copy_range(&st.content[i], 0, st.content[i].len());
        assert(line@ =~= all[i as int]);
        kept.push(line);
        assert(all.take(i + 1) =~= all.take(i as int).push(all[i as int]));
        i += 1;
        assert(views(kept@) =~= all.take(i as int));
    }
    proof {
        if n > 0 {
            assert(all.take(n as int).last() == all[n - 1]);
        }
    }
    assert(drop_trailing_blank(all.take(n as int)) == all.take(n as int));
    let joined = join_chars(&kept, &chars_of("\n"));
    string_of(&joined)
}

} // verus!
