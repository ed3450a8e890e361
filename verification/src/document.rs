//! The RBMEM document model: meta data, sections with paths, types, temporal
//! data, provenance, graph relations and encrypted payloads.
use vstd::prelude::*;
use crate::text::{
    chars_eq, chars_of, copy_range, join, lower_chars, lower_seq, push_chars, split_chars, split_on,
    str_eq, string_of, trim, trimmed, views, lines, split_lines,
};
use crate::time::{expiry_fits, plus_days, spec_plus_days, Timestamp};
use crate::text::{chars_lt, is_blank, lex_lt, lemma_map_push, trim_end_len, contains, contains_chars, trim_end};
use crate::json::{json_error, json_error_text};
use crate::version::{is_supported_format_version, supported_version};

verus! {

/// Errors of the library. The messages of outside errors are carried as text.
#[derive(Debug, Clone, PartialEq, Eq)]
pub enum RbmemError {
    Io(String),
    Json(String),
    Parse(String),
    Crypto(String),
    InvalidSectionType(String),
    InvalidDocument,
    NotFound(String),
}

/// How parsed timestamps are treated: kept as written, or replaced by the
/// tool's clock (for text written by a model).
#[derive(Debug, Clone, Copy, PartialEq, Eq, Structural)]
pub enum TimestampPolicy {
    Preserve,
    Protect { now: Timestamp },
}

#[derive(Debug, Clone, Copy, PartialEq, Eq, Structural, Default)]
pub enum CompactMode {
    #[default]
    Full,
    Compact,
    Minified,
}

#[derive(Debug, Clone, Copy, PartialEq, Eq, Structural, Default)]
pub enum InferenceStrategy {
    Off,
    Explicit,
    #[default]
    Balanced,
    Aggressive,
}

#[derive(Debug, Clone, Copy, PartialEq, Eq, Structural, Default)]
pub enum SectionType {
    #[default]
    Text,
    List,
    Json,
    Timeline,
    Template,
    HermesMemory,
    Encrypted,
    Conflict,
    Guards,
    Review,
}

/// The kind of evidence behind an inferred relation.
#[derive(Debug, Clone, Copy, PartialEq, Eq, Structural)]
pub enum InferredRelationKind {
    Explicit,
    VerbWindow,
    Mention,
}

pub open spec fn section_type_name(t: SectionType) -> Seq<char> {
    match t {
        SectionType::Text => "text"@,
        SectionType::List => "list"@,
        SectionType::Json => "json"@,
        SectionType::Timeline => "timeline"@,
        SectionType::Template => "template"@,
        SectionType::HermesMemory => "hermes:memory"@,
        SectionType::Encrypted => "encrypted"@,
        SectionType::Conflict => "conflict"@,
        SectionType::Guards => "guards"@,
        SectionType::Review => "review"@,
    }
}

/// The section type a text names, matched after
/// trimming and ASCII lower-casing.
pub open spec fn parse_section_type(value: Seq<char>) -> Option<SectionType> {
    let t = lower_seq(trim(value));
    if t == "text"@ {
        Some(SectionType::Text)
    } else if t == "list"@ {
        Some(SectionType::List)
    } else if t == "json"@ {
        Some(SectionType::Json)
    } else if t == "timeline"@ {
        Some(SectionType::Timeline)
    } else if t == "template"@ {
        Some(SectionType::Template)
    } else if t == "hermes:memory"@ || t == "hermes_memory"@ || t == "hermes-memory"@ {
        Some(SectionType::HermesMemory)
    } else if t == "encrypted"@ {
        Some(SectionType::Encrypted)
    } else if t == "conflict"@ {
        Some(SectionType::Conflict)
    } else if t == "guards"@ {
        Some(SectionType::Guards)
    } else if t == "review"@ {
        Some(SectionType::Review)
    } else {
        None
    }
}

impl SectionType {
    pub fn as_str(self) -> (r: &'static str)
        ensures
            r@ == section_type_name(self),
    {
        match self {
            SectionType::Text => "text",
            SectionType::List => "list",
            SectionType::Json => "json",
            SectionType::Timeline => "timeline",
            SectionType::Template => "template",
            SectionType::HermesMemory => "hermes:memory",
            SectionType::Encrypted => "encrypted",
            SectionType::Conflict => "conflict",
            SectionType::Guards => "guards",
            SectionType::Review => "review",
        }
    }

    /// The name as an owned string.
    pub fn to_text(self) -> (r: String)
        ensures
            r@ == section_type_name(self),
    {
        self.as_str().to_owned()
    }

    /// `SectionType::from_str`.
    pub fn from_str(value: &str) -> (r: Result<SectionType, RbmemError>)
        ensures
            r matches Ok(t) ==> parse_section_type(value@) == Some(t),
            r matches Err(e) ==> parse_section_type(value@) is None && e
                == RbmemError::InvalidSectionType(e->InvalidSectionType_0) && e->InvalidSectionType_0@
                == lower_seq(trim(value@)),
    {
        let v = chars_of(value);
        let t = lower_chars(&trimmed(&v));
        if chars_eq(&t, &chars_of("text")) {
            Ok(SectionType::Text)
        } else if chars_eq(&t, &chars_of("list")) {
            Ok(SectionType::List)
        } else if chars_eq(&t, &chars_of("json")) {
            Ok(SectionType::Json)
        } else if chars_eq(&t, &chars_of("timeline")) {
            Ok(SectionType::Timeline)
        } else if chars_eq(&t, &chars_of("template")) {
            Ok(SectionType::Template)
        } else if chars_eq(&t, &chars_of("hermes:memory")) || chars_eq(
            &t,
            &chars_of("hermes_memory"),
        ) || chars_eq(&t, &chars_of("hermes-memory")) {
            Ok(SectionType::HermesMemory)
        } else if chars_eq(&t, &chars_of("encrypted")) {
            Ok(SectionType::Encrypted)
        } else if chars_eq(&t, &chars_of("conflict")) {
            Ok(SectionType::Conflict)
        } else if chars_eq(&t, &chars_of("guards")) {
            Ok(SectionType::Guards)
        } else if chars_eq(&t, &chars_of("review")) {
            Ok(SectionType::Review)
        } else {
            Err(RbmemError::InvalidSectionType(string_of(&t)))
        }
    }
}

pub open spec fn compact_mode_name(m: CompactMode) -> Seq<char> {
    match m {
        CompactMode::Full => "full"@,
        CompactMode::Compact => "compact"@,
        CompactMode::Minified => "minified"@,
    }
}

/// The compact mode a text names.
pub open spec fn parse_compact_mode(value: Seq<char>) -> Option<CompactMode> {
    let t = lower_seq(trim(value));
    if t == "full"@ {
        Some(CompactMode::Full)
    } else if t == "compact"@ {
        Some(CompactMode::Compact)
    } else if t == "minified"@ || t == "tiny"@ {
        Some(CompactMode::Minified)
    } else {
        None
    }
}

impl CompactMode {
    pub fn as_str(self) -> (r: &'static str)
        ensures
            r@ == compact_mode_name(self),
    {
        match self {
            CompactMode::Full => "full",
            CompactMode::Compact => "compact",
            CompactMode::Minified => "minified",
        }
    }

    /// `CompactMode::from_str`; the error names the trimmed, lower-cased text.
    pub fn from_str(value: &str) -> (r: Result<CompactMode, RbmemError>)
        ensures
            r matches Ok(m) ==> parse_compact_mode(value@) == Some(m),
            r is Err ==> parse_compact_mode(value@) is None,
            r matches Err(e) ==> e is Parse && e->Parse_0@ == "invalid compact mode: "@ + lower_seq(
                trim(value@),
            ),
    {
        let v = chars_of(value);
        let t = lower_chars(&trimmed(&v));
        if chars_eq(&t, &chars_of("full")) {
            Ok(CompactMode::Full)
        } else if chars_eq(&t, &chars_of("compact")) {
            Ok(CompactMode::Compact)
        } else if chars_eq(&t, &chars_of("minified")) || chars_eq(&t, &chars_of("tiny")) {
            Ok(CompactMode::Minified)
        } else {
            let mut msg = String::new();
            msg.push_str("invalid compact mode: ");
            push_chars(&mut msg, &t);
            Err(RbmemError::Parse(msg))
        }
    }
}

pub open spec fn inference_strategy_name(s: InferenceStrategy) -> Seq<char> {
    match s {
        InferenceStrategy::Off => "off"@,
        InferenceStrategy::Explicit => "explicit"@,
        InferenceStrategy::Balanced => "balanced"@,
        InferenceStrategy::Aggressive => "aggressive"@,
    }
}

/// The inference strategy a text names.
pub open spec fn parse_inference_strategy(value: Seq<char>) -> Option<InferenceStrategy> {
    let t = lower_seq(trim(value));
    if t == "off"@ || t == "none"@ || t == "disabled"@ {
        Some(InferenceStrategy::Off)
    } else if t == "explicit"@ || t == "strict"@ || t == "conservative"@ {
        Some(InferenceStrategy::Explicit)
    } else if t == "balanced"@ || t == "default"@ {
        Some(InferenceStrategy::Balanced)
    } else if t == "aggressive"@ {
        Some(InferenceStrategy::Aggressive)
    } else {
        None
    }
}

/// Confidence values are held in hundredths (0..=100).
pub open spec fn clamp_confidence(c: int) -> int {
    if c < 0 {
        0
    } else if c > 100 {
        100
    } else {
        c
    }
}

impl InferenceStrategy {
    pub fn as_str(self) -> (r: &'static str)
        ensures
            r@ == inference_strategy_name(self),
    {
        match self {
            InferenceStrategy::Off => "off",
            InferenceStrategy::Explicit => "explicit",
            InferenceStrategy::Balanced => "balanced",
            InferenceStrategy::Aggressive => "aggressive",
        }
    }

    /// `InferenceStrategy::from_str`.
    pub fn from_str(value: &str) -> (r: Result<InferenceStrategy, RbmemError>)
        ensures
            r matches Ok(m) ==> parse_inference_strategy(value@) == Some(m),
            r is Err ==> parse_inference_strategy(value@) is None,
            r matches Err(e) ==> e is Parse && e->Parse_0@ == "invalid inference strategy: "@
                + lower_seq(trim(value@)),
    {
        let v = chars_of(value);
        let t = lower_chars(&trimmed(&v));
        if chars_eq(&t, &chars_of("off")) || chars_eq(&t, &chars_of("none")) || chars_eq(
            &t,
            &chars_of("disabled"),
        ) {
            Ok(InferenceStrategy::Off)
        } else if chars_eq(&t, &chars_of("explicit")) || chars_eq(&t, &chars_of("strict"))
            || chars_eq(&t, &chars_of("conservative")) {
            Ok(InferenceStrategy::Explicit)
        } else if chars_eq(&t, &chars_of("balanced")) || chars_eq(&t, &chars_of("default")) {
            Ok(InferenceStrategy::Balanced)
        } else if chars_eq(&t, &chars_of("aggressive")) {
            Ok(InferenceStrategy::Aggressive)
        } else {
            let mut msg = String::new();
            msg.push_str("invalid inference strategy: ");
            push_chars(&mut msg, &t);
            Err(RbmemError::Parse(msg))
        }
    }

    /// The threshold that applies: the given one clamped to 0..=100, lowered by
    /// ten hundredths for the aggressive strategy.
    pub open spec fn spec_effective_min_confidence(self, min_confidence: int) -> int {
        let m = clamp_confidence(min_confidence);
        match self {
            InferenceStrategy::Aggressive => clamp_confidence(m - 10),
            _ => m,
        }
    }

    pub fn effective_min_confidence(self, min_confidence: u32) -> (r: u32)
        ensures
            r == self.spec_effective_min_confidence(min_confidence as int),
            r <= 100,
    {
        let m = if min_confidence > 100 {
            100
        } else {
            min_confidence
        };
        match self {
            InferenceStrategy::Aggressive => {
                if m < 10 {
                    0
                } else {
                    m - 10
                }
            },
            _ => m,
        }
    }

    pub open spec fn spec_allows(self, kind: InferredRelationKind) -> bool {
        match self {
            InferenceStrategy::Off => false,
            InferenceStrategy::Explicit => kind == InferredRelationKind::Explicit,
            InferenceStrategy::Balanced | InferenceStrategy::Aggressive => true,
        }
    }

    pub fn allows_candidate_kind(self, kind: InferredRelationKind) -> (r: bool)
        ensures
            r == self.spec_allows(kind),
    {
        match self {
            InferenceStrategy::Off => false,
            InferenceStrategy::Explicit => kind == InferredRelationKind::Explicit,
            InferenceStrategy::Balanced | InferenceStrategy::Aggressive => true,
        }
    }
}

// ---------------------------------------------------------------------------
// Records and their views
// ---------------------------------------------------------------------------

#[derive(Debug, Clone, PartialEq, Eq)]
pub struct EncryptedPayload {
    pub nonce: String,
    pub ciphertext: String,
    pub encrypted_at: Timestamp,
}

pub struct EncryptedPayloadV {
    pub nonce: Seq<char>,
    pub ciphertext: Seq<char>,
    pub encrypted_at: Timestamp,
}

impl View for EncryptedPayload {
    type V = EncryptedPayloadV;

    open spec fn view(&self) -> EncryptedPayloadV {
        EncryptedPayloadV {
            nonce: self.nonce@,
            ciphertext: self.ciphertext@,
            encrypted_at: self.encrypted_at,
        }
    }
}

impl EncryptedPayload {
    pub fn duplicate(&self) -> (r: Self)
        ensures
            r@ == self@,
    {
        EncryptedPayload {
            nonce: self.nonce.clone(),
            ciphertext: self.ciphertext.clone(),
            encrypted_at: self.encrypted_at,
        }
    }
}

#[derive(Debug, Clone, Copy, PartialEq, Eq, Structural)]
pub struct Temporal {
    pub created_at: Timestamp,
    pub updated_at: Timestamp,
    pub expires_at: Option<Timestamp>,
}

impl Temporal {
    pub open spec fn valid(self) -> bool {
        &&& self.created_at.valid()
        &&& self.updated_at.valid()
        &&& self.expires_at matches Some(e) ==> e.valid()
    }

    pub open spec fn spec_new(now: Timestamp, default_expiry_days: Option<i64>) -> Temporal {
        Temporal {
            created_at: now,
            updated_at: now,
            expires_at: match default_expiry_days {
                Some(days) => Some(spec_plus_days(now, days)),
                None => None,
            },
        }
    }

    /// Created and updated now; expiring `default_expiry_days` later where given.
    pub fn new(now: Timestamp, default_expiry_days: Option<i64>) -> (r: Temporal)
        requires
            now.valid(),
            expiry_fits(now, default_expiry_days),
        ensures
            r == Temporal::spec_new(now, default_expiry_days),
            r.valid(),
    {
        Temporal {
            created_at: now,
            updated_at: now,
            expires_at: match default_expiry_days {
                Some(days) => Some(plus_days(&now, days)),
                None => None,
            },
        }
    }

    /// Tool-owned timestamps; the same as `Temporal::new`.
    pub fn protected(now: Timestamp, default_expiry_days: Option<i64>) -> (r: Temporal)
        requires
            now.valid(),
            expiry_fits(now, default_expiry_days),
        ensures
            r == Temporal::spec_new(now, default_expiry_days),
            r.valid(),
    {
        Temporal::new(now, default_expiry_days)
    }

    pub open spec fn spec_is_expired(self, now: Timestamp) -> bool {
        match self.expires_at {
            Some(expiry) => expiry.lt(now),
            None => false,
        }
    }

    /// The expiry lies strictly before `now`.
    pub fn is_expired(&self, now: Timestamp) -> (r: bool)
        ensures
            r == self.spec_is_expired(now),
    {
        match self.expires_at {
            Some(expiry) => expiry.is_before(&now),
            None => false,
        }
    }
}

#[derive(Debug, Clone, PartialEq, Eq)]
pub struct SourceInfo {
    pub kind: String,
    pub path: Option<String>,
    pub actor: Option<String>,
    pub hash: Option<String>,
}

pub struct SourceInfoV {
    pub kind: Seq<char>,
    pub path: Option<Seq<char>>,
    pub actor: Option<Seq<char>>,
    pub hash: Option<Seq<char>>,
}

impl View for SourceInfo {
    type V = SourceInfoV;

    open spec fn view(&self) -> SourceInfoV {
        SourceInfoV {
            kind: self.kind@,
            path: self.path.deep_view(),
            actor: self.actor.deep_view(),
            hash: self.hash.deep_view(),
        }
    }
}

pub fn dup_opt_string(o: &Option<String>) -> (r: Option<String>)
    ensures
        r.deep_view() == o.deep_view(),
{
    match o {
        Some(s) => Some(s.clone()),
        None => None,
    }
}

pub fn opt_string_eq(a: &Option<String>, b: &Option<String>) -> (r: bool)
    ensures
        r == (a.deep_view() == b.deep_view()),
{
    match (a, b) {
        (Some(x), Some(y)) => str_eq(x.as_str(), y.as_str()),
        (None, None) => true,
        _ => false,
    }
}

impl SourceInfo {
    pub fn duplicate(&self) -> (r: Self)
        ensures
            r@ == self@,
    {
        SourceInfo {
            kind: self.kind.clone(),
            path: dup_opt_string(&self.path),
            actor: dup_opt_string(&self.actor),
            hash: dup_opt_string(&self.hash),
        }
    }

    pub fn same(&self, other: &SourceInfo) -> (r: bool)
        ensures
            r == (self@ == other@),
    {
        str_eq(self.kind.as_str(), other.kind.as_str()) && opt_string_eq(&self.path, &other.path)
            && opt_string_eq(&self.actor, &other.actor) && opt_string_eq(&self.hash, &other.hash)
    }
}

/// A relation from a section to another path. Confidence is in hundredths.
#[derive(Debug, Clone, PartialEq, Eq)]
pub struct GraphRelation {
    pub to: String,
    pub relation_type: String,
    pub valid_from: Option<Timestamp>,
    pub valid_until: Option<Timestamp>,
    pub inferred: bool,
    pub confidence: Option<u32>,
}

pub struct GraphRelationV {
    pub to: Seq<char>,
    pub relation_type: Seq<char>,
    pub valid_from: Option<Timestamp>,
    pub valid_until: Option<Timestamp>,
    pub inferred: bool,
    pub confidence: Option<u32>,
}

impl View for GraphRelation {
    type V = GraphRelationV;

    open spec fn view(&self) -> GraphRelationV {
        GraphRelationV {
            to: self.to@,
            relation_type: self.relation_type@,
            valid_from: self.valid_from,
            valid_until: self.valid_until,
            inferred: self.inferred,
            confidence: self.confidence,
        }
    }
}

impl GraphRelation {
    pub fn duplicate(&self) -> (r: Self)
        ensures
            r@ == self@,
    {
        GraphRelation {
            to: self.to.clone(),
            relation_type: self.relation_type.clone(),
            valid_from: self.valid_from,
            valid_until: self.valid_until,
            inferred: self.inferred,
            confidence: self.confidence,
        }
    }

    pub fn same(&self, other: &GraphRelation) -> (r: bool)
        ensures
            r == (self@ == other@),
    {
        str_eq(self.to.as_str(), other.to.as_str()) && str_eq(
            self.relation_type.as_str(),
            other.relation_type.as_str(),
        ) && self.valid_from == other.valid_from && self.valid_until == other.valid_until
            && self.inferred == other.inferred && self.confidence == other.confidence
    }
}

pub open spec fn relation_views(v: Seq<GraphRelation>) -> Seq<GraphRelationV> {
    v.map_values(|r: GraphRelation| r@)
}

pub fn dup_relations(v: &Vec<GraphRelation>) -> (r: Vec<GraphRelation>)
    ensures
        relation_views(r@) == relation_views(v@),
{
    let mut out: Vec<GraphRelation> = Vec::new();
    let mut i: usize = 0;
    while i < v.len()
        invariant
            i <= v@.len(),
            relation_views(out@) == relation_views(v@.take(i as int)),
        decreases v@.len() - i,
    {
        let ghost prev = out@;
        let d = v[i].duplicate();
        out.push(d);
        proof {
            let n = i as int;
            assert(relation_views(prev).len() == n);
            assert forall|j: int| 0 <= j <= n implies #[trigger] relation_views(out@)[j]
                == relation_views(v@.take(n + 1))[j] by {
                if j < n {
                    assert(relation_views(prev)[j] == relation_views(v@.take(n))[j]);
                    assert(out@[j] == prev[j]);
                } else {
                    assert(out@[j] == d);
                }
            }
            assert(relation_views(out@) =~= relation_views(v@.take(n + 1)));
        }
        i += 1;
    }
    assert(v@.take(v@.len() as int) =~= v@);
    out
}

pub fn relations_eq(a: &Vec<GraphRelation>, b: &Vec<GraphRelation>) -> (r: bool)
    ensures
        r == (relation_views(a@) == relation_views(b@)),
{
    if a.len() != b.len() {
        assert(relation_views(a@).len() != relation_views(b@).len());
        return false;
    }
    let mut i: usize = 0;
    while i < a.len()
        invariant
            a@.len() == b@.len(),
            i <= a@.len(),
            forall|j: int| 0 <= j < i ==> a@[j]@ == b@[j]@,
        decreases a@.len() - i,
    {
        if !a[i].same(&b[i]) {
            assert(relation_views(a@)[i as int] != relation_views(b@)[i as int]);
            return false;
        }
        i += 1;
    }
    assert(relation_views(a@) =~= relation_views(b@));
    true
}

#[derive(Debug, Clone, PartialEq, Eq, Default)]
pub struct GraphInfo {
    pub node_type: Option<String>,
    pub relations: Vec<GraphRelation>,
}

pub struct GraphInfoV {
    pub node_type: Option<Seq<char>>,
    pub relations: Seq<GraphRelationV>,
}

impl View for GraphInfo {
    type V = GraphInfoV;

    open spec fn view(&self) -> GraphInfoV {
        GraphInfoV { node_type: self.node_type.deep_view(), relations: relation_views(self.relations@) }
    }
}

impl GraphInfo {
    pub fn empty() -> (r: GraphInfo)
        ensures
            r@.node_type is None,
            r@.relations.len() == 0,
    {
        GraphInfo { node_type: None, relations: Vec::new() }
    }

    pub fn duplicate(&self) -> (r: Self)
        ensures
            r@ == self@,
    {
        GraphInfo { node_type: dup_opt_string(&self.node_type), relations: dup_relations(&self.relations) }
    }

    pub fn same(&self, other: &GraphInfo) -> (r: bool)
        ensures
            r == (self@ == other@),
    {
        opt_string_eq(&self.node_type, &other.node_type) && relations_eq(
            &self.relations,
            &other.relations,
        )
    }
}

pub open spec fn opt_source_view(o: Option<SourceInfo>) -> Option<SourceInfoV> {
    match o {
        Some(s) => Some(s@),
        None => None,
    }
}

pub open spec fn opt_graph_view(o: Option<GraphInfo>) -> Option<GraphInfoV> {
    match o {
        Some(g) => Some(g@),
        None => None,
    }
}

pub open spec fn opt_payload_view(o: Option<EncryptedPayload>) -> Option<EncryptedPayloadV> {
    match o {
        Some(p) => Some(p@),
        None => None,
    }
}

pub fn dup_opt_source(o: &Option<SourceInfo>) -> (r: Option<SourceInfo>)
    ensures
        opt_source_view(r) == opt_source_view(*o),
{
    match o {
        Some(s) => Some(s.duplicate()),
        None => None,
    }
}

pub fn dup_opt_graph(o: &Option<GraphInfo>) -> (r: Option<GraphInfo>)
    ensures
        opt_graph_view(r) == opt_graph_view(*o),
{
    match o {
        Some(g) => Some(g.duplicate()),
        None => None,
    }
}

pub fn dup_opt_payload(o: &Option<EncryptedPayload>) -> (r: Option<EncryptedPayload>)
    ensures
        opt_payload_view(r) == opt_payload_view(*o),
{
    match o {
        Some(p) => Some(p.duplicate()),
        None => None,
    }
}

pub fn opt_source_eq(a: &Option<SourceInfo>, b: &Option<SourceInfo>) -> (r: bool)
    ensures
        r == (opt_source_view(*a) == opt_source_view(*b)),
{
    match (a, b) {
        (Some(x), Some(y)) => x.same(y),
        (None, None) => true,
        _ => false,
    }
}

pub fn opt_graph_eq(a: &Option<GraphInfo>, b: &Option<GraphInfo>) -> (r: bool)
    ensures
        r == (opt_graph_view(*a) == opt_graph_view(*b)),
{
    match (a, b) {
        (Some(x), Some(y)) => x.same(y),
        (None, None) => true,
        _ => false,
    }
}

pub fn opt_payload_eq(a: &Option<EncryptedPayload>, b: &Option<EncryptedPayload>) -> (r: bool)
    ensures
        r == (opt_payload_view(*a) == opt_payload_view(*b)),
{
    match (a, b) {
        (Some(x), Some(y)) => str_eq(x.nonce.as_str(), y.nonce.as_str()) && str_eq(
            x.ciphertext.as_str(),
            y.ciphertext.as_str(),
        ) && x.encrypted_at == y.encrypted_at,
        (None, None) => true,
        _ => false,
    }
}

/// One section of a document.
#[derive(Debug, Clone, PartialEq, Eq)]
pub struct Section {
    pub path: String,
    pub section_type: SectionType,
    pub temporal: Temporal,
    pub source: Option<SourceInfo>,
    pub graph: Option<GraphInfo>,
    pub encrypted: Option<EncryptedPayload>,
    pub content: String,
}

pub struct SectionV {
    pub path: Seq<char>,
    pub section_type: SectionType,
    pub temporal: Temporal,
    pub source: Option<SourceInfoV>,
    pub graph: Option<GraphInfoV>,
    pub encrypted: Option<EncryptedPayloadV>,
    pub content: Seq<char>,
}

impl View for Section {
    type V = SectionV;

    open spec fn view(&self) -> SectionV {
        SectionV {
            path: self.path@,
            section_type: self.section_type,
            temporal: self.temporal,
            source: opt_source_view(self.source),
            graph: opt_graph_view(self.graph),
            encrypted: opt_payload_view(self.encrypted),
            content: self.content@,
        }
    }
}

pub open spec fn section_views(v: Seq<Section>) -> Seq<SectionV> {
    v.map_values(|s: Section| s@)
}

/// The non-empty `.`-separated parts of a path.
pub open spec fn path_parts(path: Seq<char>) -> Seq<Seq<char>> {
    split_on(path, '.').filter(|p: Seq<char>| p.len() > 0)
}

/// The proper prefixes of a path's parts, joined with `.`: the parent paths.
pub open spec fn parent_paths(path: Seq<char>) -> Seq<Seq<char>> {
    let parts = path_parts(path);
    Seq::new(
        if parts.len() == 0 {
            0nat
        } else {
            (parts.len() - 1) as nat
        },
        |i: int| join(parts.take(i + 1), "."@),
    )
}

impl Section {
    pub open spec fn spec_new(path: Seq<char>, section_type: SectionType, now: Timestamp) -> SectionV {
        SectionV {
            path,
            section_type,
            temporal: Temporal::spec_new(now, None),
            source: None,
            graph: None,
            encrypted: None,
            content: Seq::empty(),
        }
    }

    /// An empty section created now, without expiry, provenance or relations.
    pub fn new(path: &str, section_type: SectionType, now: Timestamp) -> (r: Section)
        requires
            now.valid(),
        ensures
            r@ == Section::spec_new(path@, section_type, now),
    {
        Section {
            path: path.to_owned(),
            section_type,
            temporal: Temporal::new(now, None),
            source: None,
            graph: None,
            encrypted: None,
            content: String::new(),
        }
    }

    pub fn duplicate(&self) -> (r: Self)
        ensures
            r@ == self@,
    {
        Section {
            path: self.path.clone(),
            section_type: self.section_type,
            temporal: self.temporal,
            source: dup_opt_source(&self.source),
            graph: dup_opt_graph(&self.graph),
            encrypted: dup_opt_payload(&self.encrypted),
            content: self.content.clone(),
        }
    }

    /// The non-empty parts of the path.
    pub fn path_parts(&self) -> (r: Vec<Vec<char>>)
        ensures
            views(r@) == path_parts(self.path@),
    {
        split_path(self.path.as_str())
    }

    /// The parent paths, shortest first.
    pub fn parent_paths(&self) -> (r: Vec<String>)
        ensures
            r@.map_values(|s: String| s@) == parent_paths(self.path@),
    {
        let parts = self.path_parts();
        prefixes_of_parts(&parts)
    }
}

/// The non-empty `.`-separated parts of a path.
pub fn split_path(path: &str) -> (r: Vec<Vec<char>>)
    ensures
        views(r@) == path_parts(path@),
{
    let v = chars_of(path);
    let pieces = split_chars(&v, '.');
    let mut out: Vec<Vec<char>> = Vec::new();
    let mut i: usize = 0;
    let ghost p = views(pieces@);
    while i < pieces.len()
        invariant
            p == views(pieces@),
            i <= pieces@.len(),
            views(out@) == p.take(i as int).filter(|x: Seq<char>| x.len() > 0),
        decreases pieces@.len() - i,
    {
        proof {
            reveal_with_fuel(Seq::filter, 1);
            assert(p.take(i + 1).drop_last() =~= p.take(i as int));
        }
        if pieces[i].len() > 0 {
            let ghost before = views(out@);
            let piece = copy_range(&pieces[i], 0, pieces[i].len());
            assert(piece@ =~= p[i as int]);
            out.push(piece);
            assert(views(out@) =~= before.push(p[i as int]));
        }
        i += 1;
    }
    assert(p.take(pieces@.len() as int) =~= p);
    out
}

/// `parts[..i].join(".")` for each `i` in `1..parts.len()`.
pub fn prefixes_of_parts(parts: &Vec<Vec<char>>) -> (r: Vec<String>)
    ensures
        r@.map_values(|s: String| s@) == Seq::new(
            if parts@.len() == 0 {
                0nat
            } else {
                (parts@.len() - 1) as nat
            },
            |i: int| join(views(parts@).take(i + 1), "."@),
        ),
{
    let mut out: Vec<String> = Vec::new();
    if parts.len() == 0 {
        assert(out@.map_values(|s: String| s@) =~= Seq::<Seq<char>>::empty());
        return out;
    }
    let mut prefix: Vec<char> = copy_range(&parts[0], 0, parts[0].len());
    let mut i: usize = 1;
    proof {
        assert(views(parts@).take(1) =~= seq![parts@[0]@]);
    }
    while i < parts.len()
        invariant
            1 <= i <= parts@.len(),
            prefix@ == join(views(parts@).take(i as int), "."@),
            out@.len() == i - 1,
            forall|k: int|
                0 <= k < i - 1 ==> #[trigger] out@[k]@ == join(views(parts@).take(k + 1), "."@),
        decreases parts@.len() - i,
    {
        out.push(string_of(&prefix));
        let ghost before = prefix@;
        prefix.push('.');
        proof {
            reveal_strlit(".");
            assert(prefix@ =~= before + "."@ + parts@[i as int]@.take(0));
        }
        let part = &parts[i];
        let mut k: usize = 0;
        while k < part.len()
            invariant
                k <= part@.len(),
                prefix@ == before + "."@ + part@.take(k as int),
            decreases part@.len() - k,
        {
            prefix.push(part[k]);
            k += 1;
            assert(prefix@ =~= before + "."@ + part@.take(k as int));
        }
        proof {
            assert(part@.take(part@.len() as int) =~= part@);
            let t = views(parts@).take(i + 1);
            assert(t.drop_last() =~= views(parts@).take(i as int));
            assert(t.last() == part@);
            reveal_strlit(".");
            assert(prefix@ =~= join(t, "."@));
        }
        i += 1;
    }
    assert(out@.map_values(|s: String| s@) =~= Seq::new(
        (parts@.len() - 1) as nat,
        |i: int| join(views(parts@).take(i + 1), "."@),
    ));
    out
}


// ---------------------------------------------------------------------------
// Meta data and documents
// ---------------------------------------------------------------------------

#[derive(Debug, Clone, PartialEq, Eq)]
pub struct Meta {
    pub version: String,
    pub source_version: Option<String>,
    pub purpose: String,
    pub generated_at: Timestamp,
    pub last_updated: Timestamp,
    pub valid_until: Option<Timestamp>,
    pub created_by: String,
    pub default_expiry_days: Option<i64>,
    pub compact_mode: CompactMode,
}

pub struct MetaV {
    pub version: Seq<char>,
    pub source_version: Option<Seq<char>>,
    pub purpose: Seq<char>,
    pub generated_at: Timestamp,
    pub last_updated: Timestamp,
    pub valid_until: Option<Timestamp>,
    pub created_by: Seq<char>,
    pub default_expiry_days: Option<i64>,
    pub compact_mode: CompactMode,
}

impl View for Meta {
    type V = MetaV;

    open spec fn view(&self) -> MetaV {
        MetaV {
            version: self.version@,
            source_version: self.source_version.deep_view(),
            purpose: self.purpose@,
            generated_at: self.generated_at,
            last_updated: self.last_updated,
            valid_until: self.valid_until,
            created_by: self.created_by@,
            default_expiry_days: self.default_expiry_days,
            compact_mode: self.compact_mode,
        }
    }
}

impl MetaV {
    pub open spec fn valid(self) -> bool {
        &&& self.generated_at.valid()
        &&& self.last_updated.valid()
        &&& self.valid_until matches Some(t) ==> t.valid()
    }
}

/// The warning that normalising a version text records.
pub open spec fn version_warning(original: Seq<char>) -> Seq<char> {
    if supported_version(original) {
        "legacy document version '"@ + original + "' was normalized to RBMEM v1.4.0"@
    } else {
        "document version '"@ + original + "' was normalized to RBMEM v1.4.0"@
    }
}

impl Meta {
    pub open spec fn spec_new(now: Timestamp, created_by: Seq<char>) -> MetaV {
        MetaV {
            version: "1.4.0"@,
            source_version: None,
            purpose: "personal-agent-memory"@,
            generated_at: now,
            last_updated: now,
            valid_until: None,
            created_by,
            default_expiry_days: None,
            compact_mode: CompactMode::Full,
        }
    }

    pub fn new(now: Timestamp, created_by: &str) -> (r: Meta)
        ensures
            r@ == Meta::spec_new(now, created_by@),
    {
        Meta {
            version: "1.4.0".to_owned(),
            source_version: None,
            purpose: "personal-agent-memory".to_owned(),
            generated_at: now,
            last_updated: now,
            valid_until: None,
            created_by: created_by.to_owned(),
            default_expiry_days: None,
            compact_mode: CompactMode::Full,
        }
    }

    /// Normalises the version to 1.4.0, keeping the original as
    /// `source_version` and recording a warning, where it differs.
    pub fn enforce_v13(&mut self, warnings: &mut Vec<String>)
        ensures
            old(self)@.version == "1.4.0"@ ==> final(self)@ == old(self)@ && final(warnings)@
                == old(warnings)@,
            old(self)@.version != "1.4.0"@ ==> final(self)@ == (MetaV {
                version: "1.4.0"@,
                source_version: Some(old(self)@.version),
                ..old(self)@
            }) && final(warnings)@.map_values(|w: String| w@) == old(warnings)@.map_values(
                |w: String| w@,
            ).push(version_warning(old(self)@.version)),
    {
        if !str_eq(self.version.as_str(), "1.4.0") {
            let original = self.version.clone();
            self.source_version = Some(self.version.clone());
            let mut msg = String::new();
            if is_supported_format_version(original.as_str()) {
                msg.push_str("legacy document version '");
            } else {
                msg.push_str("document version '");
            }
            msg.push_str(original.as_str());
            msg.push_str("' was normalized to RBMEM v1.4.0");
            proof {
                lemma_map_push(warnings@, msg, |w: String| w@);
            }
            warnings.push(msg);
            self.version = "1.4.0".to_owned();
        }
    }

    pub fn duplicate(&self) -> (r: Meta)
        ensures
            r@ == self@,
    {
        Meta {
            version: self.version.clone(),
            source_version: dup_opt_string(&self.source_version),
            purpose: self.purpose.clone(),
            generated_at: self.generated_at,
            last_updated: self.last_updated,
            valid_until: self.valid_until,
            created_by: self.created_by.clone(),
            default_expiry_days: self.default_expiry_days,
            compact_mode: self.compact_mode,
        }
    }
}

impl SectionV {
    /// Every timestamp in the section lies in `chrono`'s range.
    pub open spec fn valid(self) -> bool {
        &&& self.temporal.valid()
        &&& self.graph matches Some(g) ==> forall|i: int|
            0 <= i < g.relations.len() ==> {
                &&& (#[trigger] g.relations[i]).valid_from matches Some(t) ==> t.valid()
                &&& g.relations[i].valid_until matches Some(t) ==> t.valid()
            }
        &&& self.encrypted matches Some(p) ==> p.encrypted_at.valid()
    }
}

#[derive(Debug, Clone, PartialEq, Eq)]
pub struct RbmemDocument {
    pub meta: Meta,
    pub sections: Vec<Section>,
    pub warnings: Vec<String>,
}

pub struct DocumentV {
    pub meta: MetaV,
    pub sections: Seq<SectionV>,
    pub warnings: Seq<Seq<char>>,
}

impl View for RbmemDocument {
    type V = DocumentV;

    open spec fn view(&self) -> DocumentV {
        DocumentV {
            meta: self.meta@,
            sections: section_views(self.sections@),
            warnings: self.warnings@.map_values(|w: String| w@),
        }
    }
}

impl DocumentV {
    /// Every timestamp of the document lies in `chrono`'s range.
    pub open spec fn valid(self) -> bool {
        &&& self.meta.valid()
        &&& forall|i: int| 0 <= i < self.sections.len() ==> (#[trigger] self.sections[i]).valid()
    }

    /// The index of the first section with this path.
    pub open spec fn first_index_of(self, path: Seq<char>) -> Option<int> {
        if exists|i: int| 0 <= i < self.sections.len() && self.sections[i].path == path {
            Some(
                choose|i: int|
                    0 <= i < self.sections.len() && self.sections[i].path == path && forall|j: int|
                        0 <= j < i ==> self.sections[j].path != path,
            )
        } else {
            None
        }
    }

    pub open spec fn has_path(self, path: Seq<char>) -> bool {
        exists|i: int| 0 <= i < self.sections.len() && self.sections[i].path == path
    }

    /// No two sections share a path.
    pub open spec fn unique_paths(self) -> bool {
        forall|i: int, j: int|
            0 <= i < j < self.sections.len() ==> self.sections[i].path != self.sections[j].path
    }
}

/// Whether the content already holds the entry as a whole line: some line,
/// trimmed, equals it.
pub open spec fn has_entry_line(existing: Seq<char>, entry: Seq<char>) -> bool {
    exists|i: int| 0 <= i < lines(existing).len() && trim(#[trigger] lines(existing)[i]) == entry
}

/// Whether some line of the content, trimmed, equals the entry.
pub fn has_entry_line_exec(existing: &Vec<char>, entry: &Vec<char>) -> (r: bool)
    ensures
        r == has_entry_line(existing@, entry@),
{
    let ls = split_lines(existing);
    let mut i: usize = 0;
    while i < ls.len()
        invariant
            i <= ls@.len(),
            views(ls@) == lines(existing@),
            forall|k: int| 0 <= k < i ==> trim(#[trigger] lines(existing@)[k]) != entry@,
        decreases ls@.len() - i,
    {
        assert(views(ls@)[i as int] == ls@[i as int]@);
        let t = trimmed(&ls[i]);
        if chars_eq(&t, entry) {
            return true;
        }
        i += 1;
    }
    false
}

/// Appends an entry to memory-like content: an empty side yields the other
/// (trimmed), an entry that is already a whole line of the content is not
/// repeated, and otherwise the entry goes on a new line.
pub open spec fn spec_append_memory_entries(existing: Seq<char>, incoming: Seq<char>) -> Seq<char> {
    if trim(existing).len() == 0 {
        trim(incoming)
    } else if trim(incoming).len() == 0 || has_entry_line(existing, trim(incoming)) {
        existing
    } else {
        trim_end(existing) + "\n"@ + trim(incoming)
    }
}

pub fn append_memory_entries(existing: &str, incoming: &str) -> (r: String)
    ensures
        r@ == spec_append_memory_entries(existing@, incoming@),
{
    let e = chars_of(existing);
    let inc = chars_of(incoming);
    let inc_t = trimmed(&inc);
    if is_blank(&e) {
        return string_of(&inc_t);
    }
    if inc_t.len() == 0 || has_entry_line_exec(&e, &inc_t) {
        return existing.to_owned();
    }
    let n = trim_end_len(&e);
    let mut out = string_of(&copy_range(&e, 0, n));
    out.push('\n');
    push_chars(&mut out, &inc_t);
    proof {
        reveal_strlit("\n");
        assert(out@ =~= trim_end(existing@) + "\n"@ + trim(incoming@));
    }
    out
}

/// Content after an update of a section of the given type: list-like types
/// append, the others replace.
pub open spec fn spec_merge_update_content(
    section_type: SectionType,
    existing: Seq<char>,
    incoming: Seq<char>,
) -> Seq<char> {
    match section_type {
        SectionType::HermesMemory | SectionType::Timeline | SectionType::List => {
            spec_append_memory_entries(existing, incoming)
        },
        _ => incoming,
    }
}

pub fn merge_update_content(section_type: SectionType, existing: &str, incoming: &str) -> (r:
    String)
    ensures
        r@ == spec_merge_update_content(section_type, existing@, incoming@),
{
    match section_type {
        SectionType::HermesMemory | SectionType::Timeline | SectionType::List => {
            append_memory_entries(existing, incoming)
        },
        _ => incoming.to_owned(),
    }
}

/// Where a section with the given path goes in a list sorted stably by path:
/// after every section whose path is not greater.
pub open spec fn insert_pos(s: Seq<SectionV>, key: Seq<char>) -> int
    decreases s.len(),
{
    if s.len() == 0 {
        0
    } else if lex_lt(key, s[0].path) {
        0
    } else {
        1 + insert_pos(s.drop_first(), key)
    }
}

pub open spec fn insert_by_path(s: Seq<SectionV>, x: SectionV) -> Seq<SectionV> {
    s.insert(insert_pos(s, x.path), x)
}

/// The stable sort by path (`sort_by(|l, r| l.path.cmp(&r.path))`), written
/// as insertion of each section in turn.
pub open spec fn sort_by_path(s: Seq<SectionV>) -> Seq<SectionV>
    decreases s.len(),
{
    if s.len() == 0 {
        s
    } else {
        insert_by_path(sort_by_path(s.drop_last()), s.last())
    }
}

pub proof fn lemma_insert_pos_bounds(s: Seq<SectionV>, key: Seq<char>)
    ensures
        0 <= insert_pos(s, key) <= s.len(),
    decreases s.len(),
{
    if s.len() > 0 && !lex_lt(key, s[0].path) {
        lemma_insert_pos_bounds(s.drop_first(), key);
    }
}

pub proof fn lemma_sort_len(s: Seq<SectionV>)
    ensures
        sort_by_path(s).len() == s.len(),
    decreases s.len(),
{
    if s.len() > 0 {
        lemma_sort_len(s.drop_last());
        lemma_insert_pos_bounds(sort_by_path(s.drop_last()), s.last().path);
    }
}

/// The position at which a section with this path is inserted.
fn insertion_point(v: &Vec<Section>, key: &str) -> (r: usize)
    ensures
        r as int == insert_pos(section_views(v@), key@),
{
    let k = chars_of(key);
    let mut i: usize = 0;
    let ghost s = section_views(v@);
    assert(s.skip(0) =~= s);
    while i < v.len()
        invariant
            s == section_views(v@),
            k@ == key@,
            i <= v@.len(),
            insert_pos(s, key@) == i + insert_pos(s.skip(i as int), key@),
        decreases v@.len() - i,
    {
        let p = chars_of(v[i].path.as_str());
        assert(s.skip(i as int)[0] == s[i as int]);
        assert(s[i as int] == v@[i as int]@);
        assert(s.skip(i as int).len() > 0);
        assert(p@ == s.skip(i as int)[0].path);
        assert(k@ == key@);
        if chars_lt(&k, &p) {
            assert(insert_pos(s.skip(i as int), key@) == 0);
            return i;
        }
        assert(insert_pos(s.skip(i as int), key@) == 1 + insert_pos(s.skip(i as int).drop_first(), key@));
        assert(s.skip(i as int).drop_first() =~= s.skip(i + 1));
        i += 1;
    }
    i
}

/// Sorts sections stably by path.
pub fn sort_sections_by_path(v: &Vec<Section>) -> (r: Vec<Section>)
    ensures
        section_views(r@) == sort_by_path(section_views(v@)),
{
    let mut out: Vec<Section> = Vec::new();
    let ghost all = section_views(v@);
    let mut i: usize = 0;
    assert(section_views(out@) =~= sort_by_path(all.take(0)));
    while i < v.len()
        invariant
            all == section_views(v@),
            i <= v@.len(),
            section_views(out@) == sort_by_path(all.take(i as int)),
        decreases v@.len() - i,
    {
        let x = v[i].duplicate();
        assert(x@ == all[i as int]);
        let pos = insertion_point(&out, x.path.as_str());
        proof {
            lemma_insert_pos_bounds(section_views(out@), x@.path);
        }
        let ghost before = section_views(out@);
        out.insert(pos, x);
        i += 1;
        proof {
            assert(all.take(i as int).drop_last() =~= all.take(i - 1));
            assert(all.take(i as int).last() == x@);
            assert(section_views(out@) =~= before.insert(pos as int, x@));
        }
    }
    assert(all.take(v@.len() as int) =~= all);
    out
}

proof fn lemma_first_index_from(d: DocumentV, path: Seq<char>, k: int, w: int)
    requires
        0 <= k <= w < d.sections.len(),
        d.sections[w].path == path,
        forall|j: int| 0 <= j < k ==> d.sections[j].path != path,
    ensures
        d.first_index_of(path) matches Some(i) && 0 <= i < d.sections.len() && d.sections[i].path == path,
    decreases w - k,
{
    if d.sections[k].path == path {
        lemma_first_index(d, path, k);
    } else {
        lemma_first_index_from(d, path, k + 1, w);
    }
}

/// A path that some section has has a first section with it.
pub proof fn lemma_first_index_in_range(d: DocumentV, path: Seq<char>)
    ensures
        d.first_index_of(path) matches Some(i) ==> 0 <= i < d.sections.len() && d.sections[i].path == path,
        d.has_path(path) ==> d.first_index_of(path) is Some,
{
    if d.has_path(path) {
        let w = choose|i: int| 0 <= i < d.sections.len() && d.sections[i].path == path;
        lemma_first_index_from(d, path, 0, w);
    }
}

pub proof fn lemma_first_index(d: DocumentV, path: Seq<char>, i: int)
    requires
        0 <= i < d.sections.len(),
        d.sections[i].path == path,
        forall|j: int| 0 <= j < i ==> d.sections[j].path != path,
    ensures
        d.first_index_of(path) == Some(i),
{
    let k = choose|k: int|
        0 <= k < d.sections.len() && d.sections[k].path == path && forall|j: int|
            0 <= j < k ==> d.sections[j].path != path;
    assert(d.sections[i].path == path);
    if k < i {
    } else if k > i {
        assert(d.sections[i].path != path);
    }
}

impl RbmemDocument {
    pub open spec fn spec_new(now: Timestamp, created_by: Seq<char>) -> DocumentV {
        DocumentV { meta: Meta::spec_new(now, created_by), sections: Seq::empty(), warnings: Seq::empty() }
    }

    /// An empty document created now.
    pub fn new(now: Timestamp, created_by: &str) -> (r: RbmemDocument)
        ensures
            r@ == RbmemDocument::spec_new(now, created_by@),
    {
        let r = RbmemDocument { meta: Meta::new(now, created_by), sections: Vec::new(), warnings: Vec::new() };
        assert(r@.sections =~= Seq::<SectionV>::empty());
        assert(r@.warnings =~= Seq::<Seq<char>>::empty());
        r
    }

    /// The index of the first section with this path.
    pub fn find_index(&self, path: &str) -> (r: Option<usize>)
        ensures
            r matches Some(i) ==> self@.first_index_of(path@) == Some(i as int) && i
                < self.sections@.len() && self@.sections[i as int].path == path@,
            r is None ==> self@.first_index_of(path@) is None && !self@.has_path(path@),
    {
        let mut i: usize = 0;
        while i < self.sections.len()
            invariant
                i <= self.sections@.len(),
                forall|j: int| 0 <= j < i ==> self@.sections[j].path != path@,
            decreases self.sections@.len() - i,
        {
            if str_eq(self.sections[i].path.as_str(), path) {
                proof {
                    lemma_first_index(self@, path@, i as int);
                }
                return Some(i);
            }
            i += 1;
        }
        None
    }

    /// The updated section that `upsert_section` leaves at an existing path.
    pub open spec fn upserted(old_section: SectionV, section_type: SectionType, content: Seq<char>, now: Timestamp) -> SectionV {
        let merge_type = if old_section.section_type == SectionType::HermesMemory {
            SectionType::HermesMemory
        } else {
            section_type
        };
        SectionV {
            section_type,
            encrypted: None,
            content: spec_merge_update_content(merge_type, old_section.content, content),
            temporal: Temporal { updated_at: now, ..old_section.temporal },
            ..old_section
        }
    }

    /// The section that `upsert_section` creates at a new path.
    pub open spec fn fresh(path: Seq<char>, section_type: SectionType, content: Seq<char>, now: Timestamp, days: Option<i64>) -> SectionV {
        SectionV {
            path,
            section_type,
            temporal: Temporal::spec_new(now, days),
            source: None,
            graph: None,
            encrypted: None,
            content,
        }
    }

    pub open spec fn spec_upsert(self_v: DocumentV, path: Seq<char>, section_type: SectionType, content: Seq<char>, now: Timestamp) -> DocumentV {
        let meta = MetaV { last_updated: now, ..self_v.meta };
        match self_v.first_index_of(path) {
            Some(i) => DocumentV {
                meta,
                sections: self_v.sections.update(i, RbmemDocument::upserted(self_v.sections[i], section_type, content, now)),
                ..self_v
            },
            None => DocumentV {
                meta,
                sections: sort_by_path(self_v.sections.push(RbmemDocument::fresh(path, section_type, content, now, self_v.meta.default_expiry_days))),
                ..self_v
            },
        }
    }

    /// Adds a section, or updates the first section with this path: its type
    /// is replaced, any encrypted payload dropped, and its content replaced or,
    /// for list-like types (and any `hermes:memory` section), appended to.
    /// A new section gets the document's default expiry, and the sections are
    /// then sorted stably by path.
    #[verifier::rlimit(40)]
    pub fn upsert_section(&mut self, path: &str, section_type: SectionType, content: String, now: Timestamp)
        requires
            now.valid(),
            expiry_fits(now, old(self)@.meta.default_expiry_days),
        ensures
            final(self)@ == RbmemDocument::spec_upsert(old(self)@, path@, section_type, content@, now),
    {
        self.meta.last_updated = now;
        match self.find_index(path) {
            Some(i) => {
                let old_section = self.sections[i].duplicate();
                let ghost old_view = old_section@;
                let merge_type = if old_section.section_type == SectionType::HermesMemory {
                    SectionType::HermesMemory
                } else {
                    section_type
                };
                let mut section = old_section;
                section.section_type = section_type;
                section.encrypted = None;
                section.content = merge_update_content(merge_type, section.content.as_str(), content.as_str());
                section.temporal.updated_at = now;
                assert(section@ == RbmemDocument::upserted(old_view, section_type, content@, now));
                let ghost before = section_views(self.sections@);
                self.sections.set(i, section);
                assert(section_views(self.sections@) =~= before.update(i as int, section@));
            },
            None => {
                let mut section = Section::new(path, section_type, now);
                section.temporal.expires_at = match self.meta.default_expiry_days {
                    Some(days) => Some(plus_days(&now, days)),
                    None => None,
                };
                section.content = content;
                let ghost before = section_views(self.sections@);
                let mut sections: Vec<Section> = Vec::new();
                std::mem::swap(&mut sections, &mut self.sections);
                sections.push(section);
                assert(section_views(sections@) =~= before.push(section@));
                self.sections = sort_sections_by_path(&sections);
            },
        }
    }
}


/// The sections that `prune_expired` keeps: those not expired at `now`, in order.
pub open spec fn unexpired(s: Seq<SectionV>, now: Timestamp) -> Seq<SectionV>
    decreases s.len(),
{
    if s.len() == 0 {
        s
    } else {
        let prev = unexpired(s.drop_last(), now);
        if s.last().temporal.spec_is_expired(now) {
            prev
        } else {
            prev.push(s.last())
        }
    }
}

pub proof fn lemma_unexpired_len(s: Seq<SectionV>, now: Timestamp)
    ensures
        unexpired(s, now).len() <= s.len(),
    decreases s.len(),
{
    if s.len() > 0 {
        lemma_unexpired_len(s.drop_last(), now);
    }
}

/// Pruning leaves no section that is expired at the time of pruning.
pub proof fn lemma_pruned_none_expired(s: Seq<SectionV>, now: Timestamp)
    ensures
        forall|i: int|
            0 <= i < unexpired(s, now).len() ==> !(#[trigger] unexpired(s, now)[i]).temporal.spec_is_expired(now),
    decreases s.len(),
{
    if s.len() > 0 {
        lemma_pruned_none_expired(s.drop_last(), now);
    }
}

/// Pruning keeps every section that has not expired.
pub proof fn lemma_pruned_keeps_live(s: Seq<SectionV>, now: Timestamp, i: int)
    requires
        0 <= i < s.len(),
        !s[i].temporal.spec_is_expired(now),
    ensures
        unexpired(s, now).contains(s[i]),
    decreases s.len(),
{
    if i < s.len() - 1 {
        lemma_pruned_keeps_live(s.drop_last(), now, i);
        let prev = unexpired(s.drop_last(), now);
        let k = choose|k: int| 0 <= k < prev.len() && prev[k] == s[i];
        if !s.last().temporal.spec_is_expired(now) {
            assert(prev.push(s.last())[k] == s[i]);
        }
    } else {
        let prev = unexpired(s.drop_last(), now);
        assert(prev.push(s.last())[prev.len() as int] == s[i]);
    }
}

/// A section after `enforce_protected_timestamps`: updated now, and created no
/// later than now.
pub open spec fn protected_section(s: SectionV, now: Timestamp) -> SectionV {
    SectionV {
        temporal: Temporal {
            created_at: if now.lt(s.temporal.created_at) {
                now
            } else {
                s.temporal.created_at
            },
            updated_at: now,
            ..s.temporal
        },
        ..s
    }
}

impl RbmemDocument {
    /// Removes the sections expired at `now` and returns how many went; the
    /// document is marked updated when any did.
    pub fn prune_expired(&mut self, now: Timestamp) -> (removed: usize)
        ensures
            final(self)@.sections == unexpired(old(self)@.sections, now),
            removed == old(self)@.sections.len() - final(self)@.sections.len(),
            final(self)@.meta == (if removed > 0 {
                MetaV { last_updated: now, ..old(self)@.meta }
            } else {
                old(self)@.meta
            }),
            final(self)@.warnings == old(self)@.warnings,
    {
        let before = self.sections.len();
        let mut kept: Vec<Section> = Vec::new();
        let mut i: usize = 0;
        let ghost all = section_views(self.sections@);
        assert(all.take(0) =~= Seq::<SectionV>::empty());
        while i < self.sections.len()
            invariant
                all == section_views(self.sections@),
                i <= self.sections@.len(),
                section_views(kept@) == unexpired(all.take(i as int), now),
            decreases self.sections@.len() - i,
        {
            assert(all.take(i + 1).drop_last() =~= all.take(i as int));
            assert(all.take(i + 1).last() == self.sections@[i as int]@);
            if !self.sections[i].temporal.is_expired(now) {
                let ghost prev = section_views(kept@);
                kept.push(self.sections[i].duplicate());
                assert(section_views(kept@) =~= prev.push(self.sections@[i as int]@));
            }
            i += 1;
        }
        assert(all.take(all.len() as int) =~= all);
        proof {
            lemma_unexpired_len(all, now);
        }
        self.sections = kept;
        let removed = before - self.sections.len();
        if removed > 0 {
            self.meta.last_updated = now;
        }
        removed
    }

    /// Marks every section updated now and pulls creation times from the
    /// future back to now; the document is marked updated now.
    pub fn enforce_protected_timestamps(&mut self, now: Timestamp)
        ensures
            final(self)@.meta == (MetaV { last_updated: now, ..old(self)@.meta }),
            final(self)@.sections == old(self)@.sections.map_values(|s: SectionV| protected_section(s, now)),
            final(self)@.warnings == old(self)@.warnings,
    {
        self.meta.last_updated = now;
        let ghost all = section_views(self.sections@);
        let mut i: usize = 0;
        while i < self.sections.len()
            invariant
                i <= self.sections@.len(),
                all.len() == self.sections@.len(),
                self@.meta == (MetaV { last_updated: now, ..old(self)@.meta }),
                self@.warnings == old(self)@.warnings,
                forall|j: int| 0 <= j < i ==> (#[trigger] self.sections@[j])@ == protected_section(all[j], now),
                forall|j: int| i <= j < self.sections@.len() ==> (#[trigger] self.sections@[j])@ == all[j],
            decreases self.sections@.len() - i,
        {
            let mut section = self.sections[i].duplicate();
            section.temporal.updated_at = now;
            if now.is_before(&section.temporal.created_at) {
                section.temporal.created_at = now;
            }
            self.sections.set(i, section);
            i += 1;
        }
        assert(section_views(self.sections@) =~= all.map_values(|s: SectionV| protected_section(s, now)));
    }
}

/// After `enforce_protected_timestamps`, every section is updated at `now` and
/// was created no later than `now`.
pub proof fn lemma_protected_timestamps(s: Seq<SectionV>, now: Timestamp)
    ensures
        forall|i: int|
            0 <= i < s.len() ==> {
                &&& (#[trigger] protected_section(s[i], now)).temporal.updated_at == now
                &&& !now.lt(protected_section(s[i], now).temporal.created_at)
                &&& protected_section(s[i], now).path == s[i].path
                &&& protected_section(s[i], now).content == s[i].content
            },
{
}


/// Sorting keeps exactly the sections it was given.
pub proof fn lemma_sort_members(s: Seq<SectionV>)
    ensures
        sort_by_path(s).len() == s.len(),
        forall|x: SectionV| #[trigger] sort_by_path(s).contains(x) <==> s.contains(x),
    decreases s.len(),
{
    lemma_sort_len(s);
    if s.len() > 0 {
        let front = s.drop_last();
        let t = sort_by_path(front);
        lemma_sort_members(front);
        lemma_insert_pos_bounds(t, s.last().path);
        let p = insert_pos(t, s.last().path);
        let u = t.insert(p, s.last());
        assert forall|x: SectionV| #[trigger] u.contains(x) <==> s.contains(x) by {
            if u.contains(x) {
                let j = choose|j: int| 0 <= j < u.len() && u[j] == x;
                if j < p {
                    assert(t[j] == x);
                    assert(t.contains(x));
                    let k = choose|k: int| 0 <= k < front.len() && front[k] == x;
                    assert(s[k] == x);
                } else if j > p {
                    assert(t[j - 1] == x);
                    assert(t.contains(x));
                    let k = choose|k: int| 0 <= k < front.len() && front[k] == x;
                    assert(s[k] == x);
                } else {
                    assert(s[s.len() - 1] == x);
                }
            }
            if s.contains(x) {
                let k = choose|k: int| 0 <= k < s.len() && s[k] == x;
                if k < s.len() - 1 {
                    assert(front[k] == x);
                    assert(front.contains(x));
                    assert(t.contains(x));
                    let j = choose|j: int| 0 <= j < t.len() && t[j] == x;
                    if j < p {
                        assert(u[j] == x);
                    } else {
                        assert(u[j + 1] == x);
                    }
                } else {
                    assert(u[p] == x);
                }
            }
        }
    }
}

/// Sections sorted by path: each path is not greater than any later one.
pub open spec fn sorted_by_path(s: Seq<SectionV>) -> bool {
    forall|i: int, j: int| 0 <= i < j < s.len() ==> !lex_lt(#[trigger] s[j].path, #[trigger] s[i].path)
}

proof fn lemma_insert_pos_facts(s: Seq<SectionV>, key: Seq<char>)
    ensures
        0 <= insert_pos(s, key) <= s.len(),
        forall|j: int| 0 <= j < insert_pos(s, key) ==> !lex_lt(key, #[trigger] s[j].path),
        insert_pos(s, key) < s.len() ==> lex_lt(key, s[insert_pos(s, key)].path),
    decreases s.len(),
{
    lemma_insert_pos_bounds(s, key);
    if s.len() > 0 && !lex_lt(key, s[0].path) {
        lemma_insert_pos_facts(s.drop_first(), key);
        assert forall|j: int| 0 <= j < insert_pos(s, key) implies !lex_lt(key, #[trigger] s[j].path) by {
            if j > 0 {
                assert(s[j] == s.drop_first()[j - 1]);
            }
        }
    }
}

/// Sorting by path yields sections in order of their paths.
pub proof fn lemma_sort_sorted(s: Seq<SectionV>)
    ensures
        sorted_by_path(sort_by_path(s)),
    decreases s.len(),
{
    if s.len() > 0 {
        let t = sort_by_path(s.drop_last());
        let x = s.last();
        lemma_sort_sorted(s.drop_last());
        lemma_insert_pos_facts(t, x.path);
        let p = insert_pos(t, x.path);
        let u = t.insert(p, x);
        assert forall|j: int| p <= j < t.len() implies lex_lt(x.path, #[trigger] t[j].path) by {
            if j > p {
                crate::text::lemma_lex_lt_total(t[p].path, t[j].path);
                if lex_lt(t[p].path, t[j].path) {
                    crate::text::lemma_lex_lt_transitive(x.path, t[p].path, t[j].path);
                }
            }
        }
        assert forall|i: int, j: int| 0 <= i < j < u.len() implies !lex_lt(#[trigger] u[j].path, #[trigger] u[i].path) by {
            if j < p {
                assert(u[i] == t[i] && u[j] == t[j]);
            } else if j == p {
                assert(u[i] == t[i]);
            } else if i < p {
                assert(u[i] == t[i] && u[j] == t[j - 1]);
                crate::text::lemma_lex_lt_total(t[i].path, x.path);
                crate::text::lemma_lex_lt_asymmetric(x.path, t[j - 1].path);
                if lex_lt(t[i].path, x.path) {
                    if lex_lt(t[j - 1].path, t[i].path) {
                        crate::text::lemma_lex_lt_transitive(t[j - 1].path, t[i].path, x.path);
                    }
                }
            } else if i == p {
                assert(u[j] == t[j - 1]);
                crate::text::lemma_lex_lt_asymmetric(x.path, t[j - 1].path);
            } else {
                assert(u[i] == t[i - 1] && u[j] == t[j - 1]);
            }
        }
    }
}

/// Sorting sections that are already in path order leaves them as they are.
proof fn lemma_sort_sorted_id(s: Seq<SectionV>)
    requires
        sorted_by_path(s),
    ensures
        sort_by_path(s) == s,
    decreases s.len(),
{
    if s.len() > 0 {
        let t = s.drop_last();
        assert(sorted_by_path(t)) by {
            assert forall|i: int, j: int| 0 <= i < j < t.len() implies !lex_lt(#[trigger] t[j].path, #[trigger] t[i].path) by {
                assert(t[i] == s[i] && t[j] == s[j]);
            }
        }
        lemma_sort_sorted_id(t);
        lemma_insert_pos_facts(t, s.last().path);
        let p = insert_pos(t, s.last().path);
        if p < t.len() {
            assert(t[p] == s[p]);
            assert(!lex_lt(s[s.len() - 1].path, s[p].path));
        }
        assert(t.insert(p, s.last()) =~= s);
    }
}

/// Two section lists with the same paths, place by place, are alike in
/// path order and in repeated paths.
proof fn lemma_same_paths(s: Seq<SectionV>, u: Seq<SectionV>)
    requires
        s.len() == u.len(),
        forall|k: int| 0 <= k < s.len() ==> (#[trigger] u[k]).path == s[k].path,
        sorted_by_path(s),
        forall|a: int, b: int| 0 <= a < b < s.len() ==> s[a].path != s[b].path,
    ensures
        sorted_by_path(u),
        forall|a: int, b: int| 0 <= a < b < u.len() ==> u[a].path != u[b].path,
{
    assert forall|i: int, j: int| 0 <= i < j < u.len() implies !lex_lt(#[trigger] u[j].path, #[trigger] u[i].path) by {
        assert(u[i].path == s[i].path && u[j].path == s[j].path);
    }
    assert forall|a: int, b: int| 0 <= a < b < u.len() implies u[a].path != u[b].path by {
        assert(u[a].path == s[a].path && u[b].path == s[b].path);
    }
}

/// A section with a new path goes where path order puts it.
#[verifier::spinoff_prover]
#[verifier::rlimit(40)]
proof fn lemma_insert_new_path(s: Seq<SectionV>, x: SectionV)
    requires
        sorted_by_path(s),
        forall|a: int, b: int| 0 <= a < b < s.len() ==> s[a].path != s[b].path,
        forall|k: int| 0 <= k < s.len() ==> s[k].path != x.path,
    ensures
        sorted_by_path(sort_by_path(s.push(x))),
        forall|a: int, b: int| 0 <= a < b < sort_by_path(s.push(x)).len() ==> sort_by_path(s.push(x))[a].path != sort_by_path(s.push(x))[b].path,
{
    lemma_sort_sorted(s.push(x));
    assert(s.push(x).drop_last() =~= s);
    assert(s.push(x).last() == x);
    lemma_sort_sorted_id(s);
    lemma_insert_pos_facts(s, x.path);
    let p = insert_pos(s, x.path);
    let u = s.insert(p, x);
    assert(sort_by_path(s.push(x)) == u);
    assert forall|a: int, b: int| 0 <= a < b < u.len() implies u[a].path != u[b].path by {
        if a < p && b < p {
            assert(u[a] == s[a] && u[b] == s[b]);
        } else if a < p && b == p {
            assert(u[a] == s[a]);
        } else if a < p {
            assert(u[a] == s[a] && u[b] == s[b - 1]);
        } else if a == p {
            assert(u[b] == s[b - 1]);
        } else {
            assert(u[a] == s[a - 1] && u[b] == s[b - 1]);
        }
    }
}

/// Upserting into sections that are in path order, no two with one path,
/// keeps them in path order with no two sharing a path.
#[verifier::spinoff_prover]
#[verifier::rlimit(60)]
pub proof fn lemma_upsert_keeps_order(d: DocumentV, path: Seq<char>, t: SectionType, content: Seq<char>, now: Timestamp)
    requires
        sorted_by_path(d.sections),
        d.unique_paths(),
    ensures
        sorted_by_path(RbmemDocument::spec_upsert(d, path, t, content, now).sections),
        RbmemDocument::spec_upsert(d, path, t, content, now).unique_paths(),
{
    let r = RbmemDocument::spec_upsert(d, path, t, content, now);
    let s = d.sections;
    match d.first_index_of(path) {
        Some(i) => {
            let j = choose|j: int| 0 <= j < s.len() && s[j].path == path;
            assert(0 <= i < s.len());
            assert(r.sections == s.update(i, RbmemDocument::upserted(s[i], t, content, now)));
            assert(RbmemDocument::upserted(s[i], t, content, now).path == s[i].path);
            lemma_same_paths(s, r.sections);
        },
        None => {
            let x = RbmemDocument::fresh(path, t, content, now, d.meta.default_expiry_days);
            assert(!d.has_path(path));
            assert(x.path == path);
            lemma_insert_new_path(s, x);
        },
    }
}

/// Upserting at a path that has a section rewrites that first section in
/// place: it stays the first with the path, takes the given type and `now` as
/// its update time, keeps its creation time, and has its content replaced or,
/// for list-like types (and any `hermes:memory` section), appended to; every
/// other section is unchanged and the document is marked updated now.
pub proof fn lemma_upsert_existing(d: DocumentV, path: Seq<char>, t: SectionType, content: Seq<char>, now: Timestamp, j: int)
    requires
        0 <= j < d.sections.len(),
        d.sections[j].path == path,
        forall|k: int| 0 <= k < j ==> d.sections[k].path != path,
    ensures
        ({
            let r = RbmemDocument::spec_upsert(d, path, t, content, now);
            &&& r.meta.last_updated == now
            &&& r.first_index_of(path) == Some(j)
            &&& r.sections == d.sections.update(j, RbmemDocument::upserted(d.sections[j], t, content, now))
        }),
{
    lemma_first_index(d, path, j);
    let r = RbmemDocument::spec_upsert(d, path, t, content, now);
    let u = RbmemDocument::upserted(d.sections[j], t, content, now);
    assert(r.sections == d.sections.update(j, u));
    assert forall|k: int| 0 <= k < j implies #[trigger] r.sections[k].path != path by {
        assert(r.sections[k] == d.sections[k]);
    }
    lemma_first_index(r, path, j);
}

/// Upserting at a path that has no section adds one new section there, with
/// the given type and content, created and updated now and expiring after the
/// document's default expiry; the sections are the old ones plus that one.
pub proof fn lemma_upsert_new(d: DocumentV, path: Seq<char>, t: SectionType, content: Seq<char>, now: Timestamp)
    requires
        !d.has_path(path),
    ensures
        ({
            let r = RbmemDocument::spec_upsert(d, path, t, content, now);
            let fresh = RbmemDocument::fresh(path, t, content, now, d.meta.default_expiry_days);
            &&& r.meta.last_updated == now
            &&& r.sections.len() == d.sections.len() + 1
            &&& r.first_index_of(path) matches Some(i) && r.sections[i] == fresh
            &&& forall|x: SectionV| #[trigger] r.sections.contains(x) <==> (d.sections.contains(x) || x == fresh)
        }),
{
    lemma_first_index_in_range(d, path);
    let r = RbmemDocument::spec_upsert(d, path, t, content, now);
    let fresh = RbmemDocument::fresh(path, t, content, now, d.meta.default_expiry_days);
    let pushed = d.sections.push(fresh);
    lemma_sort_members(pushed);
    assert forall|x: SectionV| #[trigger] pushed.contains(x) <==> (d.sections.contains(x) || x == fresh) by {
        if pushed.contains(x) {
            let k = choose|k: int| 0 <= k < pushed.len() && pushed[k] == x;
            if k < d.sections.len() {
                assert(d.sections[k] == x);
            }
        }
        if d.sections.contains(x) {
            let k = choose|k: int| 0 <= k < d.sections.len() && d.sections[k] == x;
            assert(pushed[k] == x);
        }
        if x == fresh {
            assert(pushed[d.sections.len() as int] == x);
        }
    }
    assert(r.sections.contains(fresh));
    let w = choose|w: int| 0 <= w < r.sections.len() && r.sections[w] == fresh;
    assert(r.sections[w].path == path);
    assert(r.has_path(path));
    lemma_first_index_in_range(r, path);
    let i = r.first_index_of(path)->0;
    assert(r.sections.contains(r.sections[i]));
    if r.sections[i] != fresh {
        let x = r.sections[i];
        assert(d.sections.contains(x));
        let k = choose|k: int| 0 <= k < d.sections.len() && d.sections[k] == x;
        assert(d.sections[k].path == path);
        assert(false);
    }
}

} // verus!
