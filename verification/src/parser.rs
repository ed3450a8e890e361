//! Reading RBMEM text into a document. The reader is forgiving: it accepts
//! formatting drift in text written by models, repairs what it can, and
//! records a warning for each repair.
use vstd::prelude::*;
use crate::body::{body_content, read_body, read_body_exec, content_of, BodyV, RawBody, body_times_valid, opt_chars};
use crate::document::{
    parse_compact_mode, version_warning, CompactMode, DocumentV, EncryptedPayload, EncryptedPayloadV,
    GraphInfo, GraphInfoV, Meta, MetaV, RbmemDocument, RbmemError, Section, SectionType, SectionV,
    SourceInfo, SourceInfoV, Temporal, TimestampPolicy, section_views, relation_views,
};
use crate::scalar::{clean_scalar, clean_scalar_chars, parse_i64, parse_i64_text};
use crate::scan::{
    crlf_to_lf, crlf_to_lf_exec, meta_end, meta_end_exec, next_section, next_section_at, split_inside_char,
    splits_inside_char, lemma_skip_skip,
};
use crate::text::{
    chars_eq, chars_of, copy_range, is_ws, is_ws_char, lemma_map_push, lines, split_lines, split_once,
    split_once_chars, starts_with_chars, string_of, trim, trim_start, trimmed, views,
};
use crate::time::{expiry_fits, now, read_time, spec_read_time, Timestamp};

verus! {

// ---------------------------------------------------------------------------
// Warnings
// ---------------------------------------------------------------------------

pub open spec fn time_warning(label: Seq<char>) -> Seq<char> {
    "missing or invalid "@ + label + "; used tool time"@
}

pub open spec fn null_warning(label: Seq<char>) -> Seq<char> {
    "invalid "@ + label + "; treated as null"@
}

pub open spec fn missing_type_warning(path: Seq<char>) -> Seq<char> {
    "section '"@ + path + "' missing type; defaulted to text"@
}

pub open spec fn protected_section_warning(path: Seq<char>) -> Seq<char> {
    "protected timestamps for section '"@ + path + "' replaced with tool time"@
}

pub open spec fn string_views(v: Seq<String>) -> Seq<Seq<char>> {
    v.map_values(|w: String| w@)
}

fn push_warning(ws: &mut Vec<String>, w: String)
    ensures
        string_views(final(ws)@) == string_views(old(ws)@).push(w@),
{
    proof {
        lemma_map_push(ws@, w, |w: String| w@);
    }
    ws.push(w);
}

fn label_message(before: &str, middle: &[char], after: &str) -> (r: String)
    ensures
        r@ == before@ + middle@ + after@,
{
    let mut s = String::new();
    s.push_str(before);
    crate::text::push_chars(&mut s, middle);
    s.push_str(after);
    assert(s@ =~= before@ + middle@ + after@);
    s
}

// ---------------------------------------------------------------------------
// Timestamps
// ---------------------------------------------------------------------------

/// A required instant: read from the text, or the fallback with a warning.
pub open spec fn time_or(v: Option<Seq<char>>, fallback: Timestamp, label: Seq<char>) -> (Timestamp, Seq<Seq<char>>) {
    match v {
        Some(x) => match spec_read_time(x) {
            Some(t) => (t, Seq::empty()),
            None => (fallback, seq![time_warning(label)]),
        },
        None => (fallback, seq![time_warning(label)]),
    }
}

/// An optional instant: absent, `null` or empty is none; unreadable text is
/// none with a warning.
pub open spec fn opt_time_or(v: Option<Seq<char>>, label: Seq<char>) -> (Option<Timestamp>, Seq<Seq<char>>) {
    match v {
        None => (None, Seq::empty()),
        Some(x) => if x == "null"@ || x.len() == 0 {
            (None, Seq::empty())
        } else {
            match spec_read_time(x) {
                Some(t) => (Some(t), Seq::empty()),
                None => (None, seq![null_warning(label)]),
            }
        },
    }
}

fn time_or_exec(v: &Option<Vec<char>>, fallback: Timestamp, label: &str, ws: &mut Vec<String>) -> (r: Timestamp)
    requires
        fallback.valid(),
    ensures
        (r, string_views(final(ws)@)) == (time_or(opt_chars(*v), fallback, label@).0, string_views(old(ws)@) + time_or(
            opt_chars(*v),
            fallback,
            label@,
        ).1),
        r.valid(),
{
    let parsed = match v {
        Some(x) => {
            let s = string_of(x);
            read_time(s.as_str())
        },
        None => None,
    };
    match parsed {
        Some(t) => {
            assert(string_views(ws@) + Seq::<Seq<char>>::empty() =~= string_views(ws@));
            t
        },
        None => {
            let msg = label_message("missing or invalid ", &chars_of(label), "; used tool time");
            let ghost before = string_views(ws@);
            push_warning(ws, msg);
            assert(string_views(ws@) =~= before + seq![time_warning(label@)]);
            fallback
        },
    }
}

fn opt_time_or_exec(v: &Option<Vec<char>>, label: &str, ws: &mut Vec<String>) -> (r: Option<Timestamp>)
    ensures
        (r, string_views(final(ws)@)) == (opt_time_or(opt_chars(*v), label@).0, string_views(old(ws)@) + opt_time_or(
            opt_chars(*v),
            label@,
        ).1),
        r matches Some(t) ==> t.valid(),
{
    match v {
        None => {
            assert(string_views(ws@) + Seq::<Seq<char>>::empty() =~= string_views(ws@));
            None
        },
        Some(x) => {
            if chars_eq(x, &chars_of("null")) || x.len() == 0 {
                assert(string_views(ws@) + Seq::<Seq<char>>::empty() =~= string_views(ws@));
                return None;
            }
            let s = string_of(x);
            match read_time(s.as_str()) {
                Some(t) => {
                    assert(string_views(ws@) + Seq::<Seq<char>>::empty() =~= string_views(ws@));
                    Some(t)
                },
                None => {
                    let msg = label_message("invalid ", &chars_of(label), "; treated as null");
                    let ghost before = string_views(ws@);
                    push_warning(ws, msg);
                    assert(string_views(ws@) =~= before + seq![null_warning(label@)]);
                    None
                },
            }
        },
    }
}

// ---------------------------------------------------------------------------
// The meta block
// ---------------------------------------------------------------------------

/// One line of the meta text: `meta:` opens the block; inside it, each
/// `key: value` line that is not blank or a comment records a value.
pub open spec fn meta_step(st: (bool, Seq<(Seq<char>, Seq<char>)>), line: Seq<char>) -> (bool, Seq<(Seq<char>, Seq<char>)>) {
    let t = trim(line);
    if t == "meta:"@ {
        (true, st.1)
    } else if !st.0 || t.len() == 0 || (t.len() > 0 && t[0] == '#') {
        st
    } else {
        match split_once(t, ":"@) {
            Some((k, v)) => (st.0, st.1.push((trim(k), clean_scalar(v)))),
            None => st,
        }
    }
}

pub open spec fn meta_fold(ls: Seq<Seq<char>>) -> (bool, Seq<(Seq<char>, Seq<char>)>)
    decreases ls.len(),
{
    if ls.len() == 0 {
        (false, Seq::empty())
    } else {
        meta_step(meta_fold(ls.drop_last()), ls.last())
    }
}

pub open spec fn meta_pairs(text: Seq<char>) -> Seq<(Seq<char>, Seq<char>)> {
    meta_fold(lines(text)).1
}

/// The value recorded last for a key.
pub open spec fn lookup(pairs: Seq<(Seq<char>, Seq<char>)>, key: Seq<char>) -> Option<Seq<char>>
    decreases pairs.len(),
{
    if pairs.len() == 0 {
        None
    } else if pairs.last().0 == key {
        Some(pairs.last().1)
    } else {
        lookup(pairs.drop_last(), key)
    }
}

/// The meta fields other than the timestamps, and the warnings their repair
/// records.
pub open spec fn meta_fields(pairs: Seq<(Seq<char>, Seq<char>)>, now: Timestamp) -> (MetaV, Seq<Seq<char>>) {
    let created_by = match lookup(pairs, "created_by"@) {
        Some(c) => c,
        None => "me"@,
    };
    let m0 = Meta::spec_new(now, created_by);
    let (m1, w1) = match lookup(pairs, "version"@) {
        Some(v) => (MetaV { version: v, ..m0 }, Seq::<Seq<char>>::empty()),
        None => (m0, seq!["missing meta.version; defaulted to 1.3"@]),
    };
    let m2 = match lookup(pairs, "purpose"@) {
        Some(p) => MetaV { purpose: p, ..m1 },
        None => m1,
    };
    let m3 = match lookup(pairs, "_source_version"@) {
        Some(p) => MetaV { source_version: Some(p), ..m2 },
        None => m2,
    };
    let (m4, w4) = expiry_field(pairs, m3);
    let (m5, w5) = compact_field(pairs, m4);
    (m5, w1 + w4 + w5)
}

pub open spec fn expiry_field(pairs: Seq<(Seq<char>, Seq<char>)>, m: MetaV) -> (MetaV, Seq<Seq<char>>) {
    match lookup(pairs, "default_expiry_days"@) {
        Some(d) => if d == "null"@ {
            (m, Seq::<Seq<char>>::empty())
        } else {
            match parse_i64_text(d) {
                Some(x) => (MetaV { default_expiry_days: Some(x), ..m }, Seq::<Seq<char>>::empty()),
                None => (m, seq!["invalid default_expiry_days; treated as null"@]),
            }
        },
        None => (m, Seq::<Seq<char>>::empty()),
    }
}

pub open spec fn compact_field(pairs: Seq<(Seq<char>, Seq<char>)>, m: MetaV) -> (MetaV, Seq<Seq<char>>) {
    match lookup(pairs, "compact_mode"@) {
        Some(c) => match parse_compact_mode(c) {
            Some(mode) => (MetaV { compact_mode: mode, ..m }, Seq::<Seq<char>>::empty()),
            None => (m, seq!["invalid compact_mode; defaulted to full"@]),
        },
        None => (m, Seq::<Seq<char>>::empty()),
    }
}

/// The meta timestamps: read from the text, or the tool's under the
/// protecting policy.
pub open spec fn meta_times(pairs: Seq<(Seq<char>, Seq<char>)>, m: MetaV, protect: bool, now: Timestamp) -> (MetaV, Seq<Seq<char>>) {
    if protect {
        (m, seq!["protected meta timestamps replaced with tool time"@])
    } else {
        let (g, wg) = time_or(lookup(pairs, "generated_at"@), now, "meta.generated_at"@);
        let (l, wl) = time_or(lookup(pairs, "last_updated"@), now, "meta.last_updated"@);
        let (u, wu) = opt_time_or(lookup(pairs, "valid_until"@), "meta.valid_until"@);
        (MetaV { generated_at: g, last_updated: l, valid_until: u, ..m }, wg + wl + wu)
    }
}

/// The meta data of a text, and the warnings its repair records. Under the
/// protecting policy, the timestamps are the tool's.
pub open spec fn spec_parse_meta(text: Seq<char>, protect: bool, now: Timestamp) -> (MetaV, Seq<Seq<char>>) {
    let pairs = meta_pairs(text);
    let (m, w) = meta_fields(pairs, now);
    let (t, wt) = meta_times(pairs, m, protect, now);
    (t, w + wt)
}

/// The version normalised to 1.4.0 (`Meta::enforce_v13`).
pub open spec fn enforce_version(m: MetaV) -> (MetaV, Seq<Seq<char>>) {
    if m.version == "1.4.0"@ {
        (m, Seq::empty())
    } else {
        (
            MetaV { version: "1.4.0"@, source_version: Some(m.version), ..m },
            seq![version_warning(m.version)],
        )
    }
}

pub open spec fn pair_views(v: Seq<(Vec<char>, Vec<char>)>) -> Seq<(Seq<char>, Seq<char>)> {
    v.map_values(|p: (Vec<char>, Vec<char>)| (p.0@, p.1@))
}

fn meta_pairs_exec(text: &[char]) -> (r: Vec<(Vec<char>, Vec<char>)>)
    ensures
        pair_views(r@) == meta_pairs(text@),
{
    let ls = split_lines(text);
    let ghost lv = views(ls@);
    let mut in_meta = false;
    let mut pairs: Vec<(Vec<char>, Vec<char>)> = Vec::new();
    let mut i: usize = 0;
    assert(lv.take(0) =~= Seq::<Seq<char>>::empty());
    assert(pair_views(pairs@) =~= Seq::<(Seq<char>, Seq<char>)>::empty());
    while i < ls.len()
        invariant
            i <= ls@.len(),
            lv == views(ls@),
            lv == lines(text@),
            (in_meta, pair_views(pairs@)) == meta_fold(lv.take(i as int)),
        decreases ls@.len() - i,
    {
        let t = trimmed(&ls[i]);
        assert(lv.take(i + 1).drop_last() =~= lv.take(i as int));
        assert(lv.take(i + 1).last() == ls@[i as int]@);
        if chars_eq(&t, &chars_of("meta:")) {
            in_meta = true;
        } else if !in_meta || t.len() == 0 || (t.len() > 0 && t[0] == '#') {
        } else {
            match split_once_chars(&t, &chars_of(":")) {
                Some((k, v)) => {
                    let ghost before = pair_views(pairs@);
                    let key = trimmed(&k);
                    let value = clean_scalar_chars(&v);
                    pairs.push((key, value));
                    assert(pair_views(pairs@) =~= before.push((trim(k@), clean_scalar(v@))));
                },
                None => {},
            }
        }
        i += 1;
    }
    assert(lv.take(lv.len() as int) =~= lv);
    pairs
}

fn lookup_exec(pairs: &Vec<(Vec<char>, Vec<char>)>, key: &str) -> (r: Option<Vec<char>>)
    ensures
        opt_chars(r) == lookup(pair_views(pairs@), key@),
{
    let k = chars_of(key);
    let mut n = pairs.len();
    let ghost all = pair_views(pairs@);
    assert(all.take(n as int) =~= all);
    while n > 0
        invariant
            n <= pairs@.len(),
            all == pair_views(pairs@),
            k@ == key@,
            lookup(all, key@) == lookup(all.take(n as int), key@),
        decreases n,
    {
        assert(all.take(n as int).last() == (pairs@[n - 1].0@, pairs@[n - 1].1@));
        if chars_eq(&pairs[n - 1].0, &k) {
            let v = &pairs[n - 1].1;
            return Some(copy_range(v, 0, v.len()));
        }
        assert(all.take(n as int).drop_last() =~= all.take(n - 1));
        n -= 1;
    }
    None
}

fn expiry_field_exec(pairs: &Vec<(Vec<char>, Vec<char>)>, meta: &mut Meta, ws: &mut Vec<String>)
    ensures
        final(meta)@ == expiry_field(pair_views(pairs@), old(meta)@).0,
        string_views(final(ws)@) == string_views(old(ws)@) + expiry_field(pair_views(pairs@), old(meta)@).1,
{
    match lookup_exec(pairs, "default_expiry_days") {
        Some(d) => {
            if !chars_eq(&d, &chars_of("null")) {
                match parse_i64(&d) {
                    Some(x) => {
                        meta.default_expiry_days = Some(x);
                    },
                    None => {
                        push_warning(ws, "invalid default_expiry_days; treated as null".to_owned());
                    },
                }
            }
        },
        None => {},
    }
    assert(string_views(ws@) =~= string_views(old(ws)@) + expiry_field(pair_views(pairs@), old(meta)@).1);
}

fn compact_field_exec(pairs: &Vec<(Vec<char>, Vec<char>)>, meta: &mut Meta, ws: &mut Vec<String>)
    ensures
        final(meta)@ == compact_field(pair_views(pairs@), old(meta)@).0,
        string_views(final(ws)@) == string_views(old(ws)@) + compact_field(pair_views(pairs@), old(meta)@).1,
{
    match lookup_exec(pairs, "compact_mode") {
        Some(c) => {
            let s = string_of(&c);
            match CompactMode::from_str(s.as_str()) {
                Ok(mode) => {
                    meta.compact_mode = mode;
                },
                Err(_) => {
                    push_warning(ws, "invalid compact_mode; defaulted to full".to_owned());
                },
            }
        },
        None => {},
    }
    assert(string_views(ws@) =~= string_views(old(ws)@) + compact_field(pair_views(pairs@), old(meta)@).1);
}

fn meta_fields_exec(pairs: &Vec<(Vec<char>, Vec<char>)>, now: Timestamp, ws: &mut Vec<String>) -> (r: Meta)
    requires
        now.valid(),
    ensures
        r@ == meta_fields(pair_views(pairs@), now).0,
        string_views(final(ws)@) == string_views(old(ws)@) + meta_fields(pair_views(pairs@), now).1,
        r@.valid(),
{
    let created_by = match lookup_exec(pairs, "created_by") {
        Some(c) => string_of(&c),
        None => "me".to_owned(),
    };
    let mut meta = Meta::new(now, created_by.as_str());
    let ghost w0 = string_views(ws@);
    match lookup_exec(pairs, "version") {
        Some(v) => {
            meta.version = string_of(&v);
        },
        None => {
            push_warning(ws, "missing meta.version; defaulted to 1.3".to_owned());
        },
    }
    let ghost w1 = string_views(ws@);
    match lookup_exec(pairs, "purpose") {
        Some(p) => {
            meta.purpose = string_of(&p);
        },
        None => {},
    }
    match lookup_exec(pairs, "_source_version") {
        Some(p) => {
            meta.source_version = Some(string_of(&p));
        },
        None => {},
    }
    let ghost w3 = string_views(ws@);
    expiry_field_exec(pairs, &mut meta, ws);
    let ghost w4 = string_views(ws@);
    compact_field_exec(pairs, &mut meta, ws);
    assert(string_views(ws@) =~= w0 + meta_fields(pair_views(pairs@), now).1);
    meta
}

fn meta_times_exec(pairs: &Vec<(Vec<char>, Vec<char>)>, meta: &mut Meta, protect: bool, now: Timestamp, ws: &mut Vec<String>)
    requires
        now.valid(),
        old(meta)@.valid(),
    ensures
        final(meta)@ == meta_times(pair_views(pairs@), old(meta)@, protect, now).0,
        string_views(final(ws)@) == string_views(old(ws)@) + meta_times(pair_views(pairs@), old(meta)@, protect, now).1,
        final(meta)@.valid(),
{
    if protect {
        push_warning(ws, "protected meta timestamps replaced with tool time".to_owned());
    } else {
        let g = time_or_exec(&lookup_exec(pairs, "generated_at"), now, "meta.generated_at", ws);
        let l = time_or_exec(&lookup_exec(pairs, "last_updated"), now, "meta.last_updated", ws);
        let u = opt_time_or_exec(&lookup_exec(pairs, "valid_until"), "meta.valid_until", ws);
        meta.generated_at = g;
        meta.last_updated = l;
        meta.valid_until = u;
    }
    assert(string_views(ws@) =~= string_views(old(ws)@) + meta_times(pair_views(pairs@), old(meta)@, protect, now).1);
}

fn parse_meta(text: &[char], protect: bool, now: Timestamp, ws: &mut Vec<String>) -> (r: Meta)
    requires
        now.valid(),
    ensures
        r@ == spec_parse_meta(text@, protect, now).0,
        string_views(final(ws)@) == string_views(old(ws)@) + spec_parse_meta(text@, protect, now).1,
        r@.valid(),
{
    let pairs = meta_pairs_exec(text);
    let ghost w0 = string_views(ws@);
    let mut meta = meta_fields_exec(&pairs, now, ws);
    meta_times_exec(&pairs, &mut meta, protect, now, ws);
    assert(string_views(ws@) =~= w0 + spec_parse_meta(text@, protect, now).1);
    meta
}

// ---------------------------------------------------------------------------
// Sections
// ---------------------------------------------------------------------------

pub proof fn lemma_trim_start_suffix(s: Seq<char>)
    ensures
        trim_start(s).len() <= s.len(),
        trim_start(s) == s.skip(s.len() - trim_start(s).len()),
    decreases s.len(),
{
    if s.len() > 0 && is_ws(s[0]) {
        lemma_trim_start_suffix(s.drop_first());
        assert(s.drop_first().skip(s.drop_first().len() - trim_start(s).len()) =~= s.skip(
            s.len() - trim_start(s).len(),
        ));
    } else {
        assert(s.skip(0) =~= s);
    }
}

pub proof fn lemma_trim_start_idem(s: Seq<char>)
    ensures
        trim_start(trim_start(s)) == trim_start(s),
    decreases s.len(),
{
    if s.len() > 0 && is_ws(s[0]) {
        lemma_trim_start_idem(s.drop_first());
    }
}

/// The sections of the text after the meta block, as path and body, in
/// order; and whether reading stopped at text that is no section. Reading
/// ends where only white space is left.
pub open spec fn raw_sections(s: Seq<char>) -> (Seq<(Seq<char>, Seq<char>)>, bool)
    decreases s.len(),
{
    let r = trim_start(s);
    if r.len() == 0 {
        (Seq::empty(), false)
    } else {
        match next_section(r) {
            Some((k, path, body)) => if 0 < k <= r.len() {
                let rest = {
                    proof {
                        lemma_trim_start_suffix(s);
                    }
                    raw_sections(r.skip(k))
                };
                (seq![(path, body)] + rest.0, rest.1)
            } else {
                (seq![(path, body)], false)
            },
            None => (Seq::empty(), true),
        }
    }
}

pub open spec fn source_of(st: BodyV) -> Option<SourceInfoV> {
    if st.saw_source {
        Some(
            SourceInfoV {
                kind: match st.kind {
                    Some(k) => k,
                    None => "unknown"@,
                },
                path: st.path,
                actor: st.actor,
                hash: st.hash,
            },
        )
    } else {
        None
    }
}

pub open spec fn graph_of(st: BodyV) -> Option<GraphInfoV> {
    if st.saw_graph {
        Some(GraphInfoV { node_type: st.node_type, relations: st.relations })
    } else {
        None
    }
}

/// The encrypted payload: present where both the nonce and the ciphertext
/// are; an unreadable time of encryption is the tool's time.
pub open spec fn payload_of(st: BodyV, now: Timestamp) -> Option<EncryptedPayloadV> {
    match (st.nonce, st.ciphertext) {
        (Some(n), Some(c)) => Some(
            EncryptedPayloadV {
                nonce: n,
                ciphertext: c,
                encrypted_at: match st.encrypted_at {
                    Some(e) => match spec_read_time(e) {
                        Some(t) => t,
                        None => now,
                    },
                    None => now,
                },
            },
        ),
        _ => None,
    }
}

/// The temporal data of a section and the warnings its repair records.
pub open spec fn temporal_of(
    path: Seq<char>,
    st: BodyV,
    days: Option<i64>,
    protect: bool,
    now: Timestamp,
) -> (Temporal, Seq<Seq<char>>) {
    if protect {
        (Temporal::spec_new(now, days), seq![protected_section_warning(path)])
    } else {
        let (c, wc) = time_or(lookup(st.temporal, "created_at"@), now, "section.created_at"@);
        let (u, wu) = time_or(lookup(st.temporal, "updated_at"@), now, "section.updated_at"@);
        let (e, we) = opt_time_or(lookup(st.temporal, "expires_at"@), "section.expires_at"@);
        (Temporal { created_at: c, updated_at: u, expires_at: e }, wc + wu + we)
    }
}

/// A section from its path and body, and the warnings its repair records.
pub open spec fn section_from(
    path: Seq<char>,
    body: Seq<char>,
    days: Option<i64>,
    protect: bool,
    now: Timestamp,
) -> (SectionV, Seq<Seq<char>>) {
    let st = read_body(body);
    let (section_type, wt) = match st.section_type {
        Some(t) => (t, Seq::<Seq<char>>::empty()),
        None => (SectionType::Text, seq![missing_type_warning(path)]),
    };
    let (temporal, wtm) = temporal_of(path, st, days, protect, now);
    (
        SectionV {
            path,
            section_type,
            temporal,
            source: source_of(st),
            graph: graph_of(st),
            encrypted: payload_of(st, now),
            content: body_content(st),
        },
        wt + wtm,
    )
}

pub open spec fn sections_from(
    raws: Seq<(Seq<char>, Seq<char>)>,
    days: Option<i64>,
    protect: bool,
    now: Timestamp,
) -> (Seq<SectionV>, Seq<Seq<char>>)
    decreases raws.len(),
{
    if raws.len() == 0 {
        (Seq::empty(), Seq::empty())
    } else {
        let (ss, ws) = sections_from(raws.drop_last(), days, protect, now);
        let (s, w) = section_from(raws.last().0, raws.last().1, days, protect, now);
        (ss.push(s), ws + w)
    }
}

/// A parsed document and the warnings recorded while reading it.
pub open spec fn spec_parse_document(input: Seq<char>, protect: bool, now: Timestamp) -> (DocumentV, Seq<Seq<char>>) {
    let v = crlf_to_lf(input);
    let e = meta_end(v);
    let (m, wm) = spec_parse_meta(v.take(e), protect, now);
    let (meta, wv) = enforce_version(m);
    let (raws, stopped) = raw_sections(v.skip(e));
    let (sections, wsec) = sections_from(raws, meta.default_expiry_days, protect, now);
    let w = wm + wv + wsec + (if stopped {
        seq!["stopped parsing sections after unrepairable section syntax"@]
    } else {
        Seq::empty()
    }) + (if sections.len() == 0 {
        seq!["document contains no sections"@]
    } else {
        Seq::empty()
    });
    (DocumentV { meta, sections, warnings: w }, w)
}

/// The inputs on which reading would have to fail outright: a byte split inside a
/// character, or a default expiry out of `chrono`'s range when the tool's
/// time is imposed on at least one section.
pub open spec fn parse_panics(input: Seq<char>, protect: bool, now: Timestamp) -> bool {
    let v = crlf_to_lf(input);
    let e = meta_end(v);
    let (m, wm) = spec_parse_meta(v.take(e), protect, now);
    ||| split_inside_char(v)
    ||| (protect && raw_sections(v.skip(e)).0.len() > 0 && !expiry_fits(now, m.default_expiry_days))
}

/// A document read from text, with the warnings recorded while reading.
pub struct ParsedDocument {
    pub document: RbmemDocument,
    pub warnings: Vec<String>,
}

impl View for ParsedDocument {
    type V = (DocumentV, Seq<Seq<char>>);

    open spec fn view(&self) -> (DocumentV, Seq<Seq<char>>) {
        (self.document@, string_views(self.warnings@))
    }
}

fn section_from_exec(
    path: &Vec<char>,
    body: &[char],
    days: Option<i64>,
    protect: bool,
    now: Timestamp,
    ws: &mut Vec<String>,
) -> (r: Section)
    requires
        now.valid(),
        protect ==> expiry_fits(now, days),
    ensures
        r@ == section_from(path@, body@, days, protect, now).0,
        string_views(final(ws)@) == string_views(old(ws)@) + section_from(path@, body@, days, protect, now).1,
        r@.valid(),
{
    let st = read_body_exec(body);
    let ghost sv = st@;
    let ghost w0 = string_views(ws@);
    let section_type = match st.section_type {
        Some(t) => t,
        None => {
            let msg = label_message("section '", path, "' missing type; defaulted to text");
            push_warning(ws, msg);
            SectionType::Text
        },
    };
    let ghost w1 = string_views(ws@);
    let temporal = if protect {
        let msg = label_message("protected timestamps for section '", path, "' replaced with tool time");
        push_warning(ws, msg);
        Temporal::protected(now, days)
    } else {
        let pairs = &st.temporal;
        let c = time_or_exec(&lookup_exec(pairs, "created_at"), now, "section.created_at", ws);
        let u = time_or_exec(&lookup_exec(pairs, "updated_at"), now, "section.updated_at", ws);
        let e = opt_time_or_exec(&lookup_exec(pairs, "expires_at"), "section.expires_at", ws);
        Temporal { created_at: c, updated_at: u, expires_at: e }
    };
    let ghost spec = section_from(path@, body@, days, protect, now);
    assert(string_views(ws@) =~= w0 + spec.1);
    let source = if st.saw_source {
        Some(
            SourceInfo {
                kind: match &st.kind {
                    Some(k) => string_of(k),
                    None => "unknown".to_owned(),
                },
                path: match &st.path {
                    Some(p) => Some(string_of(p)),
                    None => None,
                },
                actor: match &st.actor {
                    Some(a) => Some(string_of(a)),
                    None => None,
                },
                hash: match &st.hash {
                    Some(h) => Some(string_of(h)),
                    None => None,
                },
            },
        )
    } else {
        None
    };
    let content = content_of(&st);
    let encrypted = match (&st.nonce, &st.ciphertext) {
        (Some(n), Some(c)) => {
            let at = match &st.encrypted_at {
                Some(e) => {
                    let s = string_of(e);
                    match read_time(s.as_str()) {
                        Some(t) => t,
                        None => now,
                    }
                },
                None => now,
            };
            Some(EncryptedPayload { nonce: string_of(n), ciphertext: string_of(c), encrypted_at: at })
        },
        _ => None,
    };
    let graph = if st.saw_graph {
        let RawBody { node_type, relations, .. } = st;
        Some(
            GraphInfo {
                node_type: match node_type {
                    Some(t) => Some(string_of(&t)),
                    None => None,
                },
                relations,
            },
        )
    } else {
        None
    };
    let r = Section {
        path: string_of(path),
        section_type,
        temporal,
        source,
        graph,
        encrypted,
        content,
    };
    assert(r@ == spec.0);
    r
}

proof fn lemma_raw_sections_trim(x: Seq<char>)
    ensures
        raw_sections(trim_start(x)) == raw_sections(x),
        trim_start(trim_start(x)) == trim_start(x),
{
    lemma_trim_start_idem(x);
}

fn trim_start_at(v: &[char], from: usize) -> (r: usize)
    requires
        from <= v@.len(),
    ensures
        from <= r <= v@.len(),
        v@.skip(r as int) == trim_start(v@.skip(from as int)),
{
    let mut i: usize = from;
    while i < v.len() && is_ws_char(v[i])
        invariant
            from <= i <= v@.len(),
            trim_start(v@.skip(from as int)) == trim_start(v@.skip(i as int)),
        decreases v@.len() - i,
    {
        assert(v@.skip(i as int).drop_first() =~= v@.skip(i + 1));
        i += 1;
    }
    i
}

/// Reads a document from text at the given time (the tool's time under the
/// protecting policy, the clock's otherwise).
#[verifier::rlimit(80)]
pub fn parse_document_at(input: &str, protect: bool, now: Timestamp) -> (r: Result<ParsedDocument, RbmemError>)
    requires
        now.valid(),
        !parse_panics(input@, protect, now),
    ensures
        r matches Ok(p) && p.document@ == spec_parse_document(input@, protect, now).0 && string_views(p.warnings@)
            == spec_parse_document(input@, protect, now).1,
{
    let raw = chars_of(input);
    let v = crlf_to_lf_exec(&raw);
    let e = meta_end_exec(&v);
    let meta_text = copy_range(&v, 0, e);
    assert(meta_text@ =~= v@.take(e as int));
    let mut ws: Vec<String> = Vec::new();
    assert(string_views(ws@) =~= Seq::<Seq<char>>::empty());
    let mut meta = parse_meta(&meta_text, protect, now, &mut ws);
    let ghost wm = string_views(ws@);
    meta.enforce_v13(&mut ws);
    let ghost spec = spec_parse_document(input@, protect, now);
    assert(meta@ == spec.0.meta);
    let days = meta.default_expiry_days;
    let mut sections: Vec<Section> = Vec::new();
    let mut pos = trim_start_at(&v, e);
    let mut stopped = false;
    let ghost all = raw_sections(v@.skip(e as int));
    let ghost w_start = string_views(ws@);
    // `raw_sections` of what is left, after what has been read so far.
    let ghost mut done: Seq<(Seq<char>, Seq<char>)> = Seq::empty();
    proof {
        lemma_trim_start_suffix(v@.skip(e as int));
        lemma_raw_sections_trim(v@.skip(e as int));
        assert(done + raw_sections(v@.skip(pos as int)).0 =~= raw_sections(v@.skip(pos as int)).0);
    }
    loop
        invariant_except_break
            !stopped,
        invariant
            e <= pos <= v@.len(),
            v@.len() <= usize::MAX,
            now.valid(),
            protect ==> (all.0.len() > 0 ==> expiry_fits(now, days)),
            days == spec.0.meta.default_expiry_days,
            trim_start(v@.skip(pos as int)) == v@.skip(pos as int),
            all == (done + raw_sections(v@.skip(pos as int)).0, raw_sections(v@.skip(pos as int)).1),
            section_views(sections@) == sections_from(done, days, protect, now).0,
            string_views(ws@) == w_start + sections_from(done, days, protect, now).1,
            forall|i: int| 0 <= i < sections@.len() ==> (#[trigger] sections@[i])@.valid(),
        ensures
            raw_sections(v@.skip(pos as int)) == (Seq::<(Seq<char>, Seq<char>)>::empty(), stopped),
        decreases v@.len() - pos,
    {
        let ghost rem = v@.skip(pos as int);
        if pos == v.len() {
            assert(raw_sections(rem) == (Seq::<(Seq<char>, Seq<char>)>::empty(), false));
            break;
        }
        match next_section_at(&v, pos) {
            Some(span) => {
                let body = copy_range(&v, span.body_start, span.body_end);
                proof {
                    assert(all.0.len() > 0) by {
                        assert(raw_sections(rem).0.len() > 0);
                    }
                }
                let section = section_from_exec(&span.path, &body, days, protect, now, &mut ws);
                let ghost before = section_views(sections@);
                sections.push(section);
                assert(section_views(sections@) =~= before.push(section@));
                proof {
                    lemma_skip_skip(v@, pos as int, span.end - pos);
                    let d2 = done.push((span.path@, body@));
                    assert(d2.drop_last() =~= done);
                    assert(seq![(span.path@, body@)] + raw_sections(rem.skip(span.end - pos)).0 == raw_sections(rem).0);
                    assert(done + raw_sections(rem).0 =~= d2 + raw_sections(rem.skip(span.end - pos)).0);
                    done = d2;
                }
                pos = trim_start_at(&v, span.end);
                proof {
                    lemma_trim_start_suffix(v@.skip(span.end as int));
                    lemma_raw_sections_trim(v@.skip(span.end as int));
                }
                assert(raw_sections(v@.skip(span.end as int)) == raw_sections(v@.skip(pos as int)));
            },
            None => {
                stopped = true;
                assert(raw_sections(rem) == (Seq::<(Seq<char>, Seq<char>)>::empty(), true));
                break;
            },
        }
    }
    let ghost rest_stop = raw_sections(v@.skip(pos as int));
    assert(all.0 =~= done + rest_stop.0);
    assert(rest_stop.0 =~= Seq::<(Seq<char>, Seq<char>)>::empty());
    assert(done =~= all.0);
    if stopped {
        push_warning(&mut ws, "stopped parsing sections after unrepairable section syntax".to_owned());
    }
    if sections.len() == 0 {
        push_warning(&mut ws, "document contains no sections".to_owned());
    }
    let document = RbmemDocument { meta, sections, warnings: clone_strings(&ws) };
    assert(string_views(ws@) =~= spec.1);
    Ok(ParsedDocument { document, warnings: ws })
}

fn clone_strings(v: &Vec<String>) -> (r: Vec<String>)
    ensures
        string_views(r@) == string_views(v@),
{
    let mut out: Vec<String> = Vec::new();
    let mut i: usize = 0;
    while i < v.len()
        invariant
            i <= v@.len(),
            string_views(out@) == string_views(v@).take(i as int),
        decreases v@.len() - i,
    {
        push_warning(&mut out, v[i].clone());
        i += 1;
        assert(string_views(out@) =~= string_views(v@).take(i as int));
    }
    assert(string_views(v@).take(v@.len() as int) =~= string_views(v@));
    out
}

/// Reads a document from text. Under the protecting
/// policy the tool's time is the policy's; otherwise the clock is read, and
/// sections without readable timestamps get its time.
pub fn parse_document(input: &str, policy: TimestampPolicy) -> (r: Result<ParsedDocument, RbmemError>)
    requires
        policy matches TimestampPolicy::Protect { now } ==> now.valid() && !parse_panics(input@, true, now),
        policy is Preserve ==> !split_inside_char(crlf_to_lf(input@)),
    ensures
        policy matches TimestampPolicy::Protect { now } ==> r is Ok && r->Ok_0@ == spec_parse_document(input@, true, now),
        policy is Preserve ==> r is Ok && exists|t: Timestamp| t.valid() && r->Ok_0@ == spec_parse_document(input@, false, t),
{
    match policy {
        TimestampPolicy::Protect { now } => parse_document_at(input, true, now),
        TimestampPolicy::Preserve => {
            let t = now();
            let r = parse_document_at(input, false, t);
            assert(r->Ok_0@ == spec_parse_document(input@, false, t));
            r
        },
    }
}

/// Reads a document, refusing with a parse error the texts that cannot be
/// read: one that splits inside a character, or, when the tool's time is
/// imposed, one whose default expiry reaches past the representable dates.
pub fn parse_document_checked(input: &str, policy: TimestampPolicy) -> (r: Result<ParsedDocument, RbmemError>)
    requires
        policy matches TimestampPolicy::Protect { now } ==> now.valid(),
    ensures
        split_inside_char(crlf_to_lf(input@)) ==> crate::commands::parse_err(r, "document text splits inside a character"@),
        !split_inside_char(crlf_to_lf(input@)) ==> match policy {
            TimestampPolicy::Protect { now } => if parse_panics(input@, true, now) {
                crate::commands::parse_err(r, "default expiry reaches past the representable dates"@)
            } else {
                r is Ok && r->Ok_0@ == spec_parse_document(input@, true, now)
            },
            TimestampPolicy::Preserve => r is Ok && exists|t: Timestamp| t.valid() && r->Ok_0@ == spec_parse_document(input@, false, t),
        },
{
    if parse_would_panic(input, TimestampPolicy::Preserve) {
        return Err(RbmemError::Parse("document text splits inside a character".to_owned()));
    }
    if parse_would_panic(input, policy) {
        return Err(RbmemError::Parse("default expiry reaches past the representable dates".to_owned()));
    }
    parse_document(input, policy)
}

/// Whether reading this text under this policy would have to fail outright
/// (see `parse_panics`); callers test it first.
pub fn parse_would_panic(input: &str, policy: TimestampPolicy) -> (r: bool)
    requires
        policy matches TimestampPolicy::Protect { now } ==> now.valid(),
    ensures
        policy matches TimestampPolicy::Protect { now } ==> r == parse_panics(input@, true, now),
        policy is Preserve ==> r == split_inside_char(crlf_to_lf(input@)),
{
    let raw = chars_of(input);
    let v = crlf_to_lf_exec(&raw);
    if splits_inside_char(&v) {
        return true;
    }
    match policy {
        TimestampPolicy::Preserve => false,
        TimestampPolicy::Protect { now } => {
            let e = meta_end_exec(&v);
            let meta_text = copy_range(&v, 0, e);
            assert(meta_text@ =~= v@.take(e as int));
            let mut scratch: Vec<String> = Vec::new();
            let meta = parse_meta(&meta_text, true, now, &mut scratch);
            let pos = trim_start_at(&v, e);
            proof {
                lemma_raw_sections_trim(v@.skip(e as int));
                lemma_trim_start_suffix(v@.skip(e as int));
            }
            let has_section = pos < v.len() && next_section_at(&v, pos).is_some();
            proof {
                let x = v@.skip(pos as int);
                assert(trim_start(x) == x);
                if has_section {
                    assert(raw_sections(x).0.len() > 0);
                } else {
                    assert(raw_sections(x).0.len() == 0);
                }
            }
            let fits = match meta.default_expiry_days {
                Some(d) => crate::time::days_fit_exec(&now, d),
                None => true,
            };
            has_section && !fits
        },
    }
}

proof fn lemma_protected_sections(raws: Seq<(Seq<char>, Seq<char>)>, days: Option<i64>, now: Timestamp)
    ensures
        sections_from(raws, days, true, now).0.len() == raws.len(),
        forall|i: int| 0 <= i < raws.len() ==> (#[trigger] sections_from(raws, days, true, now).0[i]).temporal
            == Temporal::spec_new(now, days),
    decreases raws.len(),
{
    if raws.len() > 0 {
        lemma_protected_sections(raws.drop_last(), days, now);
        let prev = sections_from(raws.drop_last(), days, true, now).0;
        assert forall|i: int| 0 <= i < raws.len() implies (#[trigger] sections_from(raws, days, true, now).0[i]).temporal
            == Temporal::spec_new(now, days) by {
            if i < raws.len() - 1 {
                assert(sections_from(raws, days, true, now).0[i] == prev[i]);
            }
        }
    }
}

/// Text written by a model cannot set times: under the protecting policy the
/// document is generated and updated at the tool's time, and every section is
/// created and updated then, expiring after the document's default expiry.
pub proof fn lemma_protect_imposes_tool_time(input: Seq<char>, now: Timestamp)
    ensures
        ({
            let d = spec_parse_document(input, true, now).0;
            &&& d.meta.generated_at == now
            &&& d.meta.last_updated == now
            &&& forall|i: int| 0 <= i < d.sections.len() ==> (#[trigger] d.sections[i]).temporal
                == Temporal::spec_new(now, d.meta.default_expiry_days)
        }),
{
    let v = crlf_to_lf(input);
    let e = meta_end(v);
    let (m, wm) = spec_parse_meta(v.take(e), true, now);
    let (meta, wv) = enforce_version(m);
    lemma_protected_sections(raw_sections(v.skip(e)).0, meta.default_expiry_days, now);
}

} // verus!
