//! Keeping documents in step with a folder of Markdown: the `.rbmemsync`
//! settings, when a file is (re)written, and the document a Markdown file
//! becomes, stamped with where it came from.
use vstd::prelude::*;
use crate::document::{
    dup_opt_string, opt_source_view, parse_compact_mode, parse_inference_strategy, section_views, CompactMode,
    DocumentV, InferenceStrategy, MetaV, RbmemDocument, RbmemError, SectionV, SourceInfo, SourceInfoV,
};
use crate::infer::spec_infer_relations;
use crate::markdown::{convert_markdown_to_rbmem, converted};
use crate::scalar::{after_char, all_digits, before_char, frac_digit, has_nonzero_digit, is_digit, parse_i64, parse_i64_text, trim_matches, trim_matches_chars};
use crate::text::{chars_eq, chars_of, lines, lower_chars, lower_seq, split_lines, split_once, split_once_chars, string_of, trim, trimmed, views};
use crate::time::Timestamp;

verus! {

/// What a sync does with each Markdown file. The threshold is in
/// hundredths.
#[derive(Debug, Clone, Copy, PartialEq, Eq, Structural)]
pub struct SyncOptions {
    pub infer_relations: bool,
    pub min_confidence: u32,
    pub inference_strategy: InferenceStrategy,
    pub dry_run: bool,
    pub default_expiry_days: Option<i64>,
    pub compact_mode: CompactMode,
}

// ---------------------------------------------------------------------------
// Reading thresholds
// ---------------------------------------------------------------------------

/// A decimal threshold clamped to `0..=1`, in hundredths rounded up so that a
/// confidence meets it exactly when it met the decimal: an optional sign,
/// digits, an optional fraction. Other spellings of a float are not read.
pub open spec fn threshold_hundredths(s: Seq<char>) -> Option<u32> {
    let (neg, body) = if s.len() > 0 && s[0] == '-' {
        (true, s.drop_first())
    } else if s.len() > 0 && s[0] == '+' {
        (false, s.drop_first())
    } else {
        (false, s)
    };
    let ip = before_char(body, '.');
    let fp = match after_char(body, '.') {
        Some(f) => f,
        None => Seq::empty(),
    };
    if (ip.len() == 0 && fp.len() == 0) || !all_digits(ip) || !all_digits(fp) {
        None
    } else if neg {
        Some(0)
    } else if has_nonzero_digit(ip) {
        Some(100)
    } else {
        Some((10 * frac_digit(fp, 0) + frac_digit(fp, 1) + if fp.len() > 2 && has_nonzero_digit(fp.skip(2)) { 1nat } else { 0nat }) as u32)
    }
}

fn all_digits_exec(v: &[char]) -> (r: bool)
    ensures
        r == all_digits(v@),
{
    let mut i: usize = 0;
    while i < v.len()
        invariant
            i <= v@.len(),
            forall|j: int| 0 <= j < i ==> is_digit(v@[j]),
        decreases v@.len() - i,
    {
        if !('0' <= v[i] && v[i] <= '9') {
            return false;
        }
        i += 1;
    }
    true
}

fn has_nonzero_from(v: &[char], from: usize) -> (r: bool)
    requires
        from <= v@.len(),
    ensures
        r == has_nonzero_digit(v@.skip(from as int)),
{
    let mut i: usize = from;
    while i < v.len()
        invariant
            from <= i <= v@.len(),
            forall|j: int| from <= j < i ==> v@[j] == '0',
        decreases v@.len() - i,
    {
        if v[i] != '0' {
            assert(v@.skip(from as int)[i - from] != '0');
            return true;
        }
        i += 1;
    }
    assert forall|k: int| 0 <= k < v@.skip(from as int).len() implies v@.skip(from as int)[k] == '0' by {
        assert(v@.skip(from as int)[k] == v@[from + k]);
    }
    false
}

fn digit_at(v: &[char], k: usize) -> (r: u32)
    requires
        all_digits(v@),
    ensures
        r == frac_digit(v@, k as int),
        r <= 9,
{
    if k < v.len() {
        assert(is_digit(v@[k as int]));
        (v[k] as u32) - 48
    } else {
        0
    }
}

pub fn parse_threshold(text: &[char]) -> (r: Option<u32>)
    ensures
        r == threshold_hundredths(text@),
{
    let n = text.len();
    let mut neg = false;
    let body = if n > 0 && text[0] == '-' {
        neg = true;
        crate::text::copy_range(text, 1, n)
    } else if n > 0 && text[0] == '+' {
        crate::text::copy_range(text, 1, n)
    } else {
        crate::text::copy_range(text, 0, n)
    };
    proof {
        if n > 0 {
            assert(body@ =~= if text@[0] == '-' || text@[0] == '+' { text@.drop_first() } else { text@ });
        } else {
            assert(body@ =~= text@);
        }
    }
    let (ip, fp_opt) = crate::scalar::split_at_char(&body, '.');
    let fp = match fp_opt {
        Some(f) => f,
        None => Vec::new(),
    };
    assert(fp@ == match after_char(body@, '.') {
        Some(f) => f,
        None => Seq::<char>::empty(),
    });
    if (ip.len() == 0 && fp.len() == 0) || !all_digits_exec(&ip) || !all_digits_exec(&fp) {
        return None;
    }
    if neg {
        return Some(0);
    }
    if has_nonzero_from(&ip, 0) {
        assert(ip@.skip(0) =~= ip@);
        return Some(100);
    }
    assert(ip@.skip(0) =~= ip@);
    let extra: u32 = if fp.len() > 2 && has_nonzero_from(&fp, 2) { 1 } else { 0 };
    Some(10 * digit_at(&fp, 0) + digit_at(&fp, 1) + extra)
}

// ---------------------------------------------------------------------------
// `.rbmemsync`
// ---------------------------------------------------------------------------

/// A value with surrounding quotes, double then single, stripped.
pub open spec fn config_value(v: Seq<char>) -> Seq<char> {
    trim_matches(trim_matches(trim(v), '"'), '\'')
}

/// One line of `.rbmemsync` applied: the options after it, and the message
/// of the error it raises, if any.
pub open spec fn config_line(o: SyncOptions, line: Seq<char>) -> (SyncOptions, Option<Seq<char>>) {
    let t = trim(line);
    if t.len() == 0 || t[0] == '#' {
        (o, None)
    } else {
        match split_once(t, seq![':']) {
            None => (o, None),
            Some((k, v)) => {
                let key = trim(k);
                let value = config_value(v);
                if key == "infer_relations"@ {
                    (SyncOptions { infer_relations: value == "true"@ || value == "yes"@ || value == "1"@, ..o }, None)
                } else if key == "min_confidence"@ {
                    match threshold_hundredths(value) {
                        Some(c) => (SyncOptions { min_confidence: c, ..o }, None),
                        None => (o, None),
                    }
                } else if key == "inference_strategy"@ {
                    match parse_inference_strategy(value) {
                        Some(s) => (SyncOptions { inference_strategy: s, ..o }, None),
                        None => (o, Some("invalid inference strategy: "@ + lower_seq(trim(value)))),
                    }
                } else if key == "default_expiry_days"@ {
                    if lower_seq(value) == "null"@ {
                        (SyncOptions { default_expiry_days: None, ..o }, None)
                    } else {
                        match parse_i64_text(value) {
                            Some(d) => (SyncOptions { default_expiry_days: Some(d), ..o }, None),
                            None => (o, Some("invalid default_expiry_days in .rbmemsync"@)),
                        }
                    }
                } else if key == "compact_mode"@ {
                    match parse_compact_mode(value) {
                        Some(m) => (SyncOptions { compact_mode: m, ..o }, None),
                        None => (o, Some("invalid compact mode: "@ + lower_seq(trim(value)))),
                    }
                } else {
                    (o, None)
                }
            },
        }
    }
}

/// The lines applied in order, stopping at the first error.
pub open spec fn apply_config(o: SyncOptions, ls: Seq<Seq<char>>) -> (SyncOptions, Option<Seq<char>>)
    decreases ls.len(),
{
    if ls.len() == 0 {
        (o, None)
    } else {
        let (p, e) = apply_config(o, ls.drop_last());
        if e is Some {
            (p, e)
        } else {
            config_line(p, ls.last())
        }
    }
}

fn config_line_exec(options: &mut SyncOptions, line: &[char]) -> (r: Result<(), RbmemError>)
    ensures
        ({
            let (o, e) = config_line(*old(options), line@);
            &&& *final(options) == o
            &&& match r {
                Ok(()) => e is None,
                Err(err) => e matches Some(m) && err is Parse && err->Parse_0@ == m,
            }
        }),
{
    let t = trimmed(line);
    if t.len() == 0 || t[0] == '#' {
        return Ok(());
    }
    let colon = chars_of(":");
    proof {
        reveal_strlit(":");
        assert(colon@ =~= seq![':']);
    }
    let (k, v) = match split_once_chars(&t, &colon) {
        None => {
            return Ok(());
        },
        Some(pair) => pair,
    };
    let key = trimmed(&k);
    let value = trim_matches_chars(&trim_matches_chars(&trimmed(&v), '"'), '\'');
    let value_s = string_of(&value);
    if chars_eq(&key, &chars_of("infer_relations")) {
        options.infer_relations = chars_eq(&value, &chars_of("true")) || chars_eq(&value, &chars_of("yes")) || chars_eq(&value, &chars_of("1"));
        Ok(())
    } else if chars_eq(&key, &chars_of("min_confidence")) {
        match parse_threshold(&value) {
            Some(c) => {
                options.min_confidence = c;
            },
            None => {},
        }
        Ok(())
    } else if chars_eq(&key, &chars_of("inference_strategy")) {
        match InferenceStrategy::from_str(value_s.as_str()) {
            Ok(s) => {
                options.inference_strategy = s;
                Ok(())
            },
            Err(e) => Err(e),
        }
    } else if chars_eq(&key, &chars_of("default_expiry_days")) {
        if chars_eq(&lower_chars(&value), &chars_of("null")) {
            options.default_expiry_days = None;
            Ok(())
        } else {
            match parse_i64(&value) {
                Some(d) => {
                    options.default_expiry_days = Some(d);
                    Ok(())
                },
                None => Err(RbmemError::Parse("invalid default_expiry_days in .rbmemsync".to_owned())),
            }
        }
    } else if chars_eq(&key, &chars_of("compact_mode")) {
        match CompactMode::from_str(value_s.as_str()) {
            Ok(m) => {
                options.compact_mode = m;
                Ok(())
            },
            Err(e) => Err(e),
        }
    } else {
        Ok(())
    }
}

/// Applies the `.rbmemsync` settings to the options, line by line; an
/// unreadable strategy, expiry or compact mode stops with an error.
pub fn apply_sync_config(text: &str, options: &mut SyncOptions) -> (r: Result<(), RbmemError>)
    ensures
        ({
            let (o, e) = apply_config(*old(options), lines(text@));
            &&& *final(options) == o
            &&& match r {
                Ok(()) => e is None,
                Err(err) => e matches Some(m) && err is Parse && err->Parse_0@ == m,
            }
        }),
{
    let ls = split_lines(&chars_of(text));
    let ghost lv = views(ls@);
    let ghost o0 = *options;
    let mut i: usize = 0;
    assert(lv.take(0) =~= Seq::<Seq<char>>::empty());
    while i < ls.len()
        invariant
            i <= ls@.len(),
            lv == views(ls@),
            lv == lines(text@),
            o0 == *old(options),
            apply_config(o0, lv.take(i as int)) == (*options, None::<Seq<char>>),
        decreases ls@.len() - i,
    {
        assert(lv.take(i + 1).drop_last() =~= lv.take(i as int));
        assert(lv.take(i + 1).last() == ls@[i as int]@);
        let ghost before = *options;
        let r = config_line_exec(options, &ls[i]);
        assert(apply_config(o0, lv.take(i + 1)) == config_line(before, lv[i as int]));
        match r {
            Ok(()) => {},
            Err(e) => {
                proof {
                    assert(config_line(before, lv[i as int]).1 is Some);
                    assert(apply_config(o0, lv.take(i + 1)).1 is Some);
                    lemma_apply_config_stops(o0, lv, i as int + 1);
                    assert(apply_config(o0, lv).0 == *options);
                    assert(apply_config(o0, lv).1 == config_line(before, lv[i as int]).1);
                }
                return Err(e);
            },
        }
        i += 1;
    }
    assert(lv.take(lv.len() as int) =~= lv);
    Ok(())
}

proof fn lemma_apply_config_stops(o: SyncOptions, ls: Seq<Seq<char>>, k: int)
    requires
        0 <= k <= ls.len(),
        apply_config(o, ls.take(k)).1 is Some,
    ensures
        apply_config(o, ls) == apply_config(o, ls.take(k)),
    decreases ls.len() - k,
{
    if k < ls.len() {
        assert(ls.take(k + 1).drop_last() =~= ls.take(k));
        lemma_apply_config_stops(o, ls, k + 1);
    } else {
        assert(ls.take(k) =~= ls);
    }
}

impl SyncOptions {
    /// The options a sync of a folder starts from, the threshold clamped to
    /// `0..=100`, then the folder's `.rbmemsync` text applied where there is
    /// one; the file is read by the caller.
    pub fn from_config(
        infer_relations: bool,
        min_confidence: u32,
        inference_strategy: InferenceStrategy,
        dry_run: bool,
        config: Option<&str>,
    ) -> (r: Result<SyncOptions, RbmemError>)
        ensures
            ({
                let base = SyncOptions {
                    infer_relations,
                    min_confidence: if min_confidence > 100 { 100 } else { min_confidence },
                    inference_strategy,
                    dry_run,
                    default_expiry_days: None,
                    compact_mode: CompactMode::Full,
                };
                match config {
                    None => r == Ok::<SyncOptions, RbmemError>(base),
                    Some(text) => {
                        let (o, e) = apply_config(base, lines(text@));
                        match r {
                            Ok(got) => e is None && got == o,
                            Err(err) => e matches Some(m) && err is Parse && err->Parse_0@ == m,
                        }
                    },
                }
            }),
    {
        let mut options = SyncOptions {
            infer_relations,
            min_confidence: if min_confidence > 100 { 100 } else { min_confidence },
            inference_strategy,
            dry_run,
            default_expiry_days: None,
            compact_mode: CompactMode::Full,
        };
        match config {
            Some(text) => {
                match apply_sync_config(text, &mut options) {
                    Ok(()) => Ok(options),
                    Err(e) => Err(e),
                }
            },
            None => Ok(options),
        }
    }
}

// ---------------------------------------------------------------------------
// When to write
// ---------------------------------------------------------------------------

#[derive(Debug, Clone, Copy, PartialEq, Eq, Structural)]
pub enum SyncAction {
    Create,
    Update,
    Skip,
}

/// A missing output is created; with `force` an existing one is updated;
/// otherwise it is updated only when the Markdown changed after it.
/// The file times are read by the caller.
pub fn decide_sync_action(output_exists: bool, force: bool, markdown_newer: bool) -> (r: SyncAction)
    ensures
        r == (if !output_exists {
            SyncAction::Create
        } else if force || markdown_newer {
            SyncAction::Update
        } else {
            SyncAction::Skip
        }),
{
    if !output_exists {
        SyncAction::Create
    } else if force {
        SyncAction::Update
    } else if markdown_newer {
        SyncAction::Update
    } else {
        SyncAction::Skip
    }
}

// ---------------------------------------------------------------------------
// Provenance
// ---------------------------------------------------------------------------

/// The SHA-256 digest of a text's UTF-8 bytes.
pub uninterp spec fn sha256_of_text(text: Seq<char>) -> Seq<u8>;

/// Calls `ring::digest::digest(&ring::digest::SHA256, ..)` on the text's
/// bytes. Claimed: the digest is the named result `sha256_of_text` of the
/// text, and is 32 bytes long.
#[verifier::external_body]
fn sha256_digest(text: &str) -> (r: Vec<u8>)
    ensures
        r@ == sha256_of_text(text@),
        r@.len() == 32,
{
    ring::digest::digest(&ring::digest::SHA256, text.as_bytes()).as_ref().to_vec()
}

pub open spec fn hex_digit(d: u8) -> char {
    if d < 10 {
        (('0' as u8) + d) as char
    } else {
        (('a' as u8) + d - 10) as char
    }
}

/// Bytes as lower-case hexadecimal, two digits each.
pub open spec fn hex_text(bytes: Seq<u8>) -> Seq<char>
    decreases bytes.len(),
{
    if bytes.len() == 0 {
        Seq::empty()
    } else {
        hex_text(bytes.drop_last()) + seq![hex_digit(bytes.last() / 16), hex_digit(bytes.last() % 16)]
    }
}

fn hex_digit_exec(d: u8) -> (c: char)
    requires
        d < 16,
    ensures
        c == hex_digit(d),
{
    if d < 10 {
        (48 + d) as char
    } else {
        (87 + d) as char
    }
}

/// `sha256:` and the digest of the text in hexadecimal (`sha256_hex`).
pub open spec fn sha256_hex(text: Seq<char>) -> Seq<char> {
    "sha256:"@ + hex_text(sha256_of_text(text))
}

/// Appends bytes in lower-case hexadecimal, two digits each.
pub(crate) fn push_hex(out: &mut String, bytes: &[u8])
    ensures
        final(out)@ == old(out)@ + hex_text(bytes@),
{
    let ghost head = out@;
    let mut i: usize = 0;
    assert(bytes@.take(0) =~= Seq::<u8>::empty());
    while i < bytes.len()
        invariant
            i <= bytes@.len(),
            out@ == head + hex_text(bytes@.take(i as int)),
        decreases bytes@.len() - i,
    {
        let b = bytes[i];
        out.push(hex_digit_exec(b / 16));
        out.push(hex_digit_exec(b % 16));
        assert(bytes@.take(i + 1).drop_last() =~= bytes@.take(i as int));
        assert(bytes@.take(i + 1).last() == b);
        i += 1;
        assert(out@ =~= head + hex_text(bytes@.take(i as int)));
    }
    assert(bytes@.take(bytes@.len() as int) =~= bytes@);
}

pub fn sha256_hex_exec(text: &str) -> (r: String)
    ensures
        r@ == sha256_hex(text@),
{
    let digest = sha256_digest(text);
    let mut out = String::new();
    out.push_str("sha256:");
    push_hex(&mut out, digest.as_slice());
    out
}

/// Where content came from: the kind of source, its path, the actor, and the
/// digest of the text it was made from.
pub open spec fn spec_source_info(kind: Seq<char>, path: Option<Seq<char>>, actor: Seq<char>, hash_input: Option<Seq<char>>) -> SourceInfoV {
    SourceInfoV {
        kind,
        path,
        actor: Some(actor),
        hash: match hash_input {
            Some(t) => Some(sha256_hex(t)),
            None => None,
        },
    }
}

pub fn source_info(kind: &str, path: Option<String>, actor: &str, hash_input: Option<&str>) -> (r: SourceInfo)
    ensures
        r@ == spec_source_info(kind@, path.deep_view(), actor@, match hash_input {
            Some(t) => Some(t@),
            None => None,
        }),
{
    SourceInfo {
        kind: kind.to_owned(),
        path,
        actor: Some(actor.to_owned()),
        hash: match hash_input {
            Some(t) => Some(sha256_hex_exec(t)),
            None => None,
        },
    }
}

/// Every section of the document given this provenance.
pub open spec fn stamped(d: DocumentV, source: SourceInfoV) -> DocumentV {
    DocumentV { sections: d.sections.map_values(|s: SectionV| SectionV { source: Some(source), ..s }), ..d }
}

pub fn stamp_document_source(document: &mut RbmemDocument, source: &SourceInfo)
    ensures
        final(document)@ == stamped(old(document)@, source@),
{
    let ghost ss = old(document)@.sections;
    let mut out: Vec<crate::document::Section> = Vec::new();
    let mut i: usize = 0;
    while i < document.sections.len()
        invariant
            i <= document.sections@.len(),
            ss == section_views(document.sections@),
            section_views(out@) == ss.take(i as int).map_values(|s: SectionV| SectionV { source: Some(source@), ..s }),
        decreases document.sections@.len() - i,
    {
        let mut s = document.sections[i].duplicate();
        s.source = Some(source.duplicate());
        let ghost before = section_views(out@);
        out.push(s);
        assert(section_views(out@) =~= before.push(s@));
        assert(ss.take(i + 1).map_values(|s: SectionV| SectionV { source: Some(source@), ..s }) =~= ss.take(i as int).map_values(
            |s: SectionV| SectionV { source: Some(source@), ..s },
        ).push(SectionV { source: Some(source@), ..ss[i as int] }));
        i += 1;
    }
    assert(ss.take(ss.len() as int) =~= ss);
    document.sections = out;
    assert(document@.sections =~= stamped(old(document)@, source@).sections);
}

// ---------------------------------------------------------------------------
// The document a sync writes
// ---------------------------------------------------------------------------

/// The document that syncing a Markdown file writes: the file converted,
/// the options' expiry and compact mode set, every section stamped as coming
/// from the file by `sync`, and relations inferred when asked for
/// Reading and writing the files is left to the caller.
pub open spec fn spec_sync_document(markdown: Seq<char>, now: Timestamp, o: SyncOptions, source_path: Seq<char>) -> DocumentV {
    let d0 = converted(markdown, now);
    let d1 = DocumentV { meta: MetaV { default_expiry_days: o.default_expiry_days, compact_mode: o.compact_mode, ..d0.meta }, ..d0 };
    let d2 = stamped(d1, spec_source_info("markdown"@, Some(source_path), "sync"@, Some(markdown)));
    if o.infer_relations {
        spec_infer_relations(d2, now, o.min_confidence, o.inference_strategy).0
    } else {
        d2
    }
}

pub fn sync_document(markdown: &str, now: Timestamp, options: &SyncOptions, source_path: &str) -> (r: RbmemDocument)
    requires
        now.valid(),
    ensures
        r@ == spec_sync_document(markdown@, now, *options, source_path@),
{
    let mut document = convert_markdown_to_rbmem(markdown, now);
    document.meta.default_expiry_days = options.default_expiry_days;
    document.meta.compact_mode = options.compact_mode;
    let source = source_info("markdown", Some(source_path.to_owned()), "sync", Some(markdown));
    stamp_document_source(&mut document, &source);
    if options.infer_relations {
        document.infer_relations_with_strategy(now, options.min_confidence, options.inference_strategy);
    }
    document
}

} // verus!
