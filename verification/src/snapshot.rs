//! Snapshots of a memory file: the record kept beside a copy of the text,
//! with the MD5 digest of the text and how many sections it holds, and the
//! choice of the files a snapshot label names.
use vstd::prelude::*;
use crate::document::{RbmemError, TimestampPolicy};
use crate::parser::{parse_document_checked, raw_sections, sections_from, spec_parse_document};
use crate::scan::{crlf_to_lf, meta_end, split_inside_char};
use crate::sync::hex_text;
use crate::text::{chars_of, ends_with_chars, starts_with_chars};
use crate::time::Timestamp;

verus! {

/// The MD5 digest of a text's UTF-8 bytes.
pub uninterp spec fn md5_of_text(text: Seq<char>) -> Seq<u8>;

/// Calls `md5::compute` on the text's bytes. Claimed: the digest is the
/// named result `md5_of_text` of the text; it is 16 bytes long by its type.
#[verifier::external_body]
pub fn md5_digest(text: &str) -> (r: [u8; 16])
    ensures
        r@ == md5_of_text(text@),
{
    md5::compute(text).0
}

/// What a snapshot records: its label, when it was taken, the MD5 digest of
/// the text in lower-case hexadecimal, and how many sections the text holds.
pub struct SnapshotRecord {
    pub label: String,
    pub timestamp: Timestamp,
    pub file_hash: String,
    pub section_count: usize,
}

pub struct SnapshotRecordV {
    pub label: Seq<char>,
    pub timestamp: Timestamp,
    pub file_hash: Seq<char>,
    pub section_count: nat,
}

impl View for SnapshotRecord {
    type V = SnapshotRecordV;

    open spec fn view(&self) -> SnapshotRecordV {
        SnapshotRecordV {
            label: self.label@,
            timestamp: self.timestamp,
            file_hash: self.file_hash@,
            section_count: self.section_count as nat,
        }
    }
}

/// How many sections reading the text finds, whatever the reader's clock.
pub open spec fn section_count_of(text: Seq<char>) -> nat {
    let v = crlf_to_lf(text);
    raw_sections(v.skip(meta_end(v))).0.len()
}

proof fn lemma_sections_from_len(raws: Seq<(Seq<char>, Seq<char>)>, days: Option<i64>, protect: bool, now: Timestamp)
    ensures
        sections_from(raws, days, protect, now).0.len() == raws.len(),
    decreases raws.len(),
{
    if raws.len() > 0 {
        lemma_sections_from_len(raws.drop_last(), days, protect, now);
    }
}

/// Reading a text finds as many sections as `section_count_of` says, at any
/// time of reading.
pub proof fn lemma_section_count(text: Seq<char>, protect: bool, t: Timestamp)
    ensures
        spec_parse_document(text, protect, t).0.sections.len() == section_count_of(text),
{
    let v = crlf_to_lf(text);
    let e = meta_end(v);
    let (m, wm) = crate::parser::spec_parse_meta(v.take(e), protect, t);
    let (meta, wv) = crate::parser::enforce_version(m);
    lemma_sections_from_len(raw_sections(v.skip(e)).0, meta.default_expiry_days, protect, t);
}

/// The snapshot record of a text taken now: the label kept, the time now,
/// the text's MD5 digest in hexadecimal and its number of sections. A text
/// that cannot be read is refused as reading refuses it.
pub fn snapshot_record(raw: &str, label: &str, now: Timestamp) -> (r: Result<SnapshotRecord, RbmemError>)
    requires
        now.valid(),
    ensures
        split_inside_char(crlf_to_lf(raw@)) ==> crate::commands::parse_err(r, "document text splits inside a character"@),
        !split_inside_char(crlf_to_lf(raw@)) ==> r is Ok && r->Ok_0@ == (SnapshotRecordV {
            label: label@,
            timestamp: now,
            file_hash: hex_text(md5_of_text(raw@)),
            section_count: section_count_of(raw@),
        }),
{
    let digest = md5_digest(raw);
    let mut hash = String::new();
    crate::sync::push_hex(&mut hash, digest.as_slice());
    let parsed = match parse_document_checked(raw, TimestampPolicy::Preserve) {
        Ok(p) => p,
        Err(e) => {
            return Err(e);
        },
    };
    proof {
        let t = choose|t: Timestamp| t.valid() && parsed@ == spec_parse_document(raw@, false, t);
        lemma_section_count(raw@, false, t);
    }
    assert(hash@ =~= hex_text(md5_of_text(raw@)));
    Ok(SnapshotRecord {
        label: label.to_owned(),
        timestamp: now,
        file_hash: hash,
        section_count: parsed.document.sections.len(),
    })
}

/// Whether a file name belongs to a snapshot label and ends with the suffix:
/// it starts with the label and `-`.
pub open spec fn snapshot_file_of(name: Seq<char>, label: Seq<char>, suffix: Seq<char>) -> bool {
    (label + "-"@).is_prefix_of(name) && suffix.is_suffix_of(name)
}

/// The last name in the list that belongs to the label with the suffix.
pub open spec fn last_snapshot_file(names: Seq<Seq<char>>, label: Seq<char>, suffix: Seq<char>) -> Option<int>
    decreases names.len(),
{
    if names.len() == 0 {
        None
    } else if snapshot_file_of(names.last(), label, suffix) {
        Some(names.len() - 1)
    } else {
        last_snapshot_file(names.drop_last(), label, suffix)
    }
}

/// Of the file names in a snapshot folder, in the order they were listed,
/// the last that holds the label's record (`.snap`) and the last that holds
/// its text (`.rbmem`).
pub fn select_snapshot_files(names: &Vec<String>, label: &str) -> (r: (Option<usize>, Option<usize>))
    ensures
        match last_snapshot_file(crate::plan::string_views(names@), label@, ".snap"@) {
            Some(i) => r.0 == Some(i as usize),
            None => r.0 is None,
        },
        match last_snapshot_file(crate::plan::string_views(names@), label@, ".rbmem"@) {
            Some(i) => r.1 == Some(i as usize),
            None => r.1 is None,
        },
{
    let ghost nv = crate::plan::string_views(names@);
    let mut prefix = chars_of(label);
    prefix.push('-');
    proof {
        reveal_strlit("-");
        assert(prefix@ =~= label@ + "-"@);
    }
    let snap = chars_of(".snap");
    let text = chars_of(".rbmem");
    let mut record: Option<usize> = None;
    let mut content: Option<usize> = None;
    let mut i: usize = 0;
    while i < names.len()
        invariant
            i <= names@.len(),
            nv == crate::plan::string_views(names@),
            prefix@ == label@ + "-"@,
            snap@ == ".snap"@,
            text@ == ".rbmem"@,
            match last_snapshot_file(nv.take(i as int), label@, ".snap"@) {
                Some(j) => record == Some(j as usize),
                None => record is None,
            },
            match last_snapshot_file(nv.take(i as int), label@, ".rbmem"@) {
                Some(j) => content == Some(j as usize),
                None => content is None,
            },
        decreases names@.len() - i,
    {
        let name = chars_of(names[i].as_str());
        let starts = starts_with_chars(&name, &prefix);
        proof {
            assert(nv.take(i + 1).drop_last() =~= nv.take(i as int));
            assert(nv.take(i + 1).last() == names@[i as int]@);
            reveal_strlit("-");
        }
        if starts && ends_with_chars(&name, &snap) {
            record = Some(i);
        }
        if starts && ends_with_chars(&name, &text) {
            content = Some(i);
        }
        i += 1;
    }
    assert(nv.take(nv.len() as int) =~= nv);
    (record, content)
}

} // verus!
