//! Calls into `serde_json` that the document logic makes on section text.
use vstd::prelude::*;

verus! {

/// What `serde_json::from_str::<serde_json::Value>` reports for a text: `None`
/// where the text is valid JSON, else the rendered error message.
pub uninterp spec fn json_error_text(text: Seq<char>) -> Option<Seq<char>>;

/// Calls `serde_json::from_str::<serde_json::Value>` and renders its error.
/// Claimed: the outcome is the named result `json_error_text` of the text.
#[verifier::external_body]
pub(crate) fn json_error(text: &str) -> (r: Option<String>)
    ensures
        r.deep_view() == json_error_text(text@),
{
    serde_json::from_str::<serde_json::Value>(text).err().map(|error| error.to_string())
}


#[verifier::external_type_specification]
#[verifier::external_body]
pub struct ExJsonNumber(serde_json::Number);

#[verifier::external_type_specification]
#[verifier::external_body]
pub struct ExJsonValue(serde_json::Value);

/// A JSON value as the merge logic sees it; numbers are carried through as
/// they were read.
pub enum JsonValue {
    Null,
    Bool(bool),
    Number(serde_json::Number),
    Str(String),
    Array(Vec<JsonValue>),
    Object(Vec<(String, JsonValue)>),
}

/// The mathematical form of a JSON value.
pub enum JsonV {
    Null,
    Bool(bool),
    Number(serde_json::Number),
    Str(Seq<char>),
    Array(Seq<JsonV>),
    Object(Seq<(Seq<char>, JsonV)>),
}

pub open spec fn json_view(v: JsonValue) -> JsonV
    decreases v,
{
    match v {
        JsonValue::Null => JsonV::Null,
        JsonValue::Bool(b) => JsonV::Bool(b),
        JsonValue::Number(n) => JsonV::Number(n),
        JsonValue::Str(s) => JsonV::Str(s@),
        JsonValue::Array(a) => JsonV::Array(json_views(a@)),
        JsonValue::Object(o) => JsonV::Object(json_entry_views(o@)),
    }
}

pub open spec fn json_views(s: Seq<JsonValue>) -> Seq<JsonV>
    decreases s,
{
    if s.len() == 0 {
        Seq::empty()
    } else {
        json_views(s.subrange(0, s.len() - 1)).push(json_view(s[s.len() - 1]))
    }
}

pub open spec fn json_entry_views(s: Seq<(String, JsonValue)>) -> Seq<(Seq<char>, JsonV)>
    decreases s,
{
    if s.len() == 0 {
        Seq::empty()
    } else {
        json_entry_views(s.subrange(0, s.len() - 1)).push((s[s.len() - 1].0@, json_view(s[s.len() - 1].1)))
    }
}


pub open spec fn opt_json_view(o: Option<JsonValue>) -> Option<JsonV> {
    match o {
        Some(v) => Some(json_view(v)),
        None => None,
    }
}

/// `Number::clone`, a derived `Clone`: the copy equals the original.
pub assume_specification[ <serde_json::Number as Clone>::clone ](n: &serde_json::Number) -> (r: serde_json::Number)
    ensures
        r == *n,
;

/// A copy of a JSON value.
pub fn json_copy(v: &JsonValue) -> (r: JsonValue)
    ensures
        json_view(r) == json_view(*v),
    decreases v,
{
    match v {
        JsonValue::Null => JsonValue::Null,
        JsonValue::Bool(b) => JsonValue::Bool(*b),
        JsonValue::Number(n) => JsonValue::Number(n.clone()),
        JsonValue::Str(s) => JsonValue::Str(s.clone()),
        JsonValue::Array(a) => JsonValue::Array(json_copy_all(a)),
        JsonValue::Object(o) => JsonValue::Object(json_copy_entries(o)),
    }
}

fn json_copy_all(a: &Vec<JsonValue>) -> (r: Vec<JsonValue>)
    ensures
        json_views(r@) == json_views(a@),
    decreases a,
{
    let mut r: Vec<JsonValue> = Vec::new();
    let mut i: usize = 0;
    assert(a@.subrange(0, 0) =~= Seq::<JsonValue>::empty());
    while i < a.len()
        invariant
            i <= a@.len(),
            json_views(r@) == json_views(a@.subrange(0, i as int)),
        decreases a@.len() - i,
    {
        let ghost before = r@;
        let x = json_copy(&a[i]);
        r.push(x);
        assert(r@.subrange(0, r@.len() - 1) =~= before);
        assert(a@.subrange(0, i + 1).subrange(0, i as int) =~= a@.subrange(0, i as int));
        i += 1;
    }
    assert(a@.subrange(0, a@.len() as int) =~= a@);
    r
}

fn json_copy_entries(o: &Vec<(String, JsonValue)>) -> (r: Vec<(String, JsonValue)>)
    ensures
        json_entry_views(r@) == json_entry_views(o@),
    decreases o,
{
    let mut r: Vec<(String, JsonValue)> = Vec::new();
    let mut i: usize = 0;
    assert(o@.subrange(0, 0) =~= Seq::<(String, JsonValue)>::empty());
    while i < o.len()
        invariant
            i <= o@.len(),
            json_entry_views(r@) == json_entry_views(o@.subrange(0, i as int)),
        decreases o@.len() - i,
    {
        let ghost before = r@;
        let x = json_copy(&o[i].1);
        r.push((o[i].0.clone(), x));
        assert(r@.subrange(0, r@.len() - 1) =~= before);
        assert(o@.subrange(0, i + 1).subrange(0, i as int) =~= o@.subrange(0, i as int));
        i += 1;
    }
    assert(o@.subrange(0, o@.len() as int) =~= o@);
    r
}

/// The last entry with the key.
pub open spec fn entry_pos(es: Seq<(Seq<char>, JsonV)>, k: Seq<char>) -> Option<int>
    decreases es.len(),
{
    if es.len() == 0 {
        None
    } else if es.last().0 == k {
        Some(es.len() - 1)
    } else {
        entry_pos(es.drop_last(), k)
    }
}

proof fn lemma_entry_pos(es: Seq<(Seq<char>, JsonV)>, k: Seq<char>)
    ensures
        entry_pos(es, k) matches Some(i) ==> 0 <= i < es.len() && es[i].0 == k,
        entry_pos(es, k) is None ==> forall|i: int| 0 <= i < es.len() ==> es[i].0 != k,
    decreases es.len(),
{
    if es.len() > 0 && es.last().0 != k {
        lemma_entry_pos(es.drop_last(), k);
        assert forall|i: int| 0 <= i < es.len() - 1 implies es[i] == es.drop_last()[i] by {}
    }
}

/// The child merged over the parent: objects key by key, recursively;
/// arrays concatenated; anything else replaced by the child.
pub open spec fn deep_merge(p: JsonV, c: JsonV) -> JsonV
    decreases c,
{
    match c {
        JsonV::Object(ce) => match p {
            JsonV::Object(pe) => JsonV::Object(merge_entries(pe, ce)),
            _ => c,
        },
        JsonV::Array(ca) => match p {
            JsonV::Array(pa) => JsonV::Array(pa + ca),
            _ => c,
        },
        _ => c,
    }
}

/// The child's entries merged into the parent's, in the child's order: a key
/// the parent has gets the two values merged, a new key is added.
pub open spec fn merge_entries(pe: Seq<(Seq<char>, JsonV)>, ce: Seq<(Seq<char>, JsonV)>) -> Seq<(Seq<char>, JsonV)>
    decreases ce,
{
    if ce.len() == 0 {
        pe
    } else {
        let acc = merge_entries(pe, ce.subrange(0, ce.len() - 1));
        let k = ce[ce.len() - 1].0;
        match entry_pos(acc, k) {
            Some(i) => acc.update(i, (k, deep_merge(acc[i].1, ce[ce.len() - 1].1))),
            None => acc.push((k, ce[ce.len() - 1].1)),
        }
    }
}

/// Merges a child JSON value over a parent one.
pub fn deep_merge_json(parent: &JsonValue, child: &JsonValue) -> (r: JsonValue)
    ensures
        json_view(r) == deep_merge(json_view(*parent), json_view(*child)),
    decreases child,
{
    match child {
        JsonValue::Object(ce) => match parent {
            JsonValue::Object(pe) => JsonValue::Object(merge_entries_exec(pe, ce)),
            _ => json_copy(child),
        },
        JsonValue::Array(ca) => match parent {
            JsonValue::Array(pa) => {
                let mut out = json_copy_all(pa);
                let tail = json_copy_all(ca);
                let ghost a = json_views(out@);
                let mut i: usize = 0;
                assert(tail@.subrange(0, 0) =~= Seq::<JsonValue>::empty());
                while i < tail.len()
                    invariant
                        i <= tail@.len(),
                        json_views(out@) == a + json_views(tail@.subrange(0, i as int)),
                    decreases tail@.len() - i,
                {
                    let ghost before = out@;
                    out.push(json_copy(&tail[i]));
                    assert(out@.subrange(0, out@.len() - 1) =~= before);
                    assert(tail@.subrange(0, i + 1).subrange(0, i as int) =~= tail@.subrange(0, i as int));
                    assert(json_views(out@) =~= a + json_views(tail@.subrange(0, i + 1)));
                    i += 1;
                }
                assert(tail@.subrange(0, tail@.len() as int) =~= tail@);
                JsonValue::Array(out)
            },
            _ => json_copy(child),
        },
        _ => json_copy(child),
    }
}

fn merge_entries_exec(pe: &Vec<(String, JsonValue)>, ce: &Vec<(String, JsonValue)>) -> (r: Vec<(String, JsonValue)>)
    ensures
        json_entry_views(r@) == merge_entries(json_entry_views(pe@), json_entry_views(ce@)),
    decreases ce,
{
    let ghost pv = json_entry_views(pe@);
    let mut acc = json_copy_entries(pe);
    let mut i: usize = 0;
    assert(ce@.subrange(0, 0) =~= Seq::<(String, JsonValue)>::empty());
    while i < ce.len()
        invariant
            i <= ce@.len(),
            pv == json_entry_views(pe@),
            json_entry_views(acc@) == merge_entries(pv, json_entry_views(ce@.subrange(0, i as int))),
        decreases ce@.len() - i,
    {
        let ghost av = json_entry_views(acc@);
        let ghost cs = ce@.subrange(0, i + 1);
        let ghost prior = json_entry_views(ce@.subrange(0, i as int));
        let ghost entry = (ce@[i as int].0@, json_view(ce@[i as int].1));
        proof {
            lemma_entry_view_len(acc@);
            assert(cs.subrange(0, cs.len() - 1) =~= ce@.subrange(0, i as int));
            assert(cs[cs.len() - 1] == ce@[i as int]);
            assert(json_entry_views(cs) == prior.push(entry));
            assert(prior.push(entry).subrange(0, prior.push(entry).len() - 1) =~= prior);
        }
        let key = &ce[i].0;
        let mut pos: usize = acc.len();
        let mut j: usize = acc.len();
        assert(av.subrange(0, j as int) =~= av);
        while j > 0
            invariant
                j <= acc@.len(),
                av.len() == acc@.len(),
                av == json_entry_views(acc@),
                entry_pos(av, key@) == entry_pos(av.subrange(0, j as int), key@),
            ensures
                j <= acc@.len(),
                entry_pos(av, key@) == entry_pos(av.subrange(0, j as int), key@),
                j > 0 ==> av[j - 1].0 == key@,
            decreases j,
        {
            assert(av.subrange(0, j as int).last() == av[j - 1]);
            assert(av[j - 1].0 == acc@[j - 1].0@) by {
                lemma_entry_view_at(acc@, j - 1);
            }
            if str_eq_ref(&acc[j - 1].0, key) {
                break;
            }
            assert(av.subrange(0, j as int).drop_last() =~= av.subrange(0, j - 1));
            j -= 1;
        }
        proof {
            lemma_entry_view_len(acc@);
        }
        if j > 0 {
            pos = j - 1;
            assert(entry_pos(av, key@) == Some(pos as int));
            proof {
                lemma_entry_view_at(acc@, pos as int);
            }
            let merged = deep_merge_json(&acc[pos].1, &ce[i].1);
            let ghost before = acc@;
            acc[pos] = (key.clone(), merged);
            proof {
                lemma_entry_views_update(before, pos as int, acc@[pos as int]);
            }
        } else {
            assert(av.subrange(0, 0) =~= Seq::<(Seq<char>, JsonV)>::empty());
            let ghost before = acc@;
            acc.push((key.clone(), json_copy(&ce[i].1)));
            assert(acc@.subrange(0, acc@.len() - 1) =~= before);
        }
        i += 1;
    }
    assert(ce@.subrange(0, ce@.len() as int) =~= ce@);
    acc
}

fn str_eq_ref(a: &String, b: &String) -> (r: bool)
    ensures
        r == (a@ == b@),
{
    crate::text::str_eq(a.as_str(), b.as_str())
}

proof fn lemma_entry_view_len(s: Seq<(String, JsonValue)>)
    ensures
        json_entry_views(s).len() == s.len(),
    decreases s.len(),
{
    if s.len() > 0 {
        lemma_entry_view_len(s.subrange(0, s.len() - 1));
    }
}

proof fn lemma_entry_view_at(s: Seq<(String, JsonValue)>, i: int)
    requires
        0 <= i < s.len(),
    ensures
        json_entry_views(s)[i] == (s[i].0@, json_view(s[i].1)),
    decreases s.len(),
{
    lemma_entry_view_len(s);
    if i < s.len() - 1 {
        lemma_entry_view_at(s.subrange(0, s.len() - 1), i);
        lemma_entry_view_len(s.subrange(0, s.len() - 1));
    }
}

proof fn lemma_entry_views_update(s: Seq<(String, JsonValue)>, i: int, x: (String, JsonValue))
    requires
        0 <= i < s.len(),
    ensures
        json_entry_views(s.update(i, x)) == json_entry_views(s).update(i, (x.0@, json_view(x.1))),
    decreases s.len(),
{
    lemma_entry_view_len(s);
    lemma_entry_view_len(s.update(i, x));
    if i < s.len() - 1 {
        lemma_entry_views_update(s.subrange(0, s.len() - 1), i, x);
        assert(s.update(i, x).subrange(0, s.len() - 1) =~= s.subrange(0, s.len() - 1).update(i, x));
    } else {
        assert(s.update(i, x).subrange(0, s.len() - 1) =~= s.subrange(0, s.len() - 1));
    }
    assert(json_entry_views(s.update(i, x)) =~= json_entry_views(s).update(i, (x.0@, json_view(x.1))));
}


/// The value that `serde_json::from_str::<serde_json::Value>` reads from a
/// text, `None` where the text is no JSON.
pub uninterp spec fn parsed_json(text: Seq<char>) -> Option<JsonV>;

/// `serde_json::Value` turned into the library's form, variant for variant.
#[verifier::external_body]
fn json_from_serde(v: serde_json::Value) -> JsonValue {
    match v {
        serde_json::Value::Null => JsonValue::Null,
        serde_json::Value::Bool(b) => JsonValue::Bool(b),
        serde_json::Value::Number(n) => JsonValue::Number(n),
        serde_json::Value::String(s) => JsonValue::Str(s),
        serde_json::Value::Array(a) => JsonValue::Array(a.into_iter().map(json_from_serde).collect()),
        serde_json::Value::Object(o) => JsonValue::Object(o.into_iter().map(|(k, x)| (k, json_from_serde(x))).collect()),
    }
}

/// The library's form turned back into `serde_json::Value`, variant for
/// variant.
#[verifier::external_body]
fn json_to_serde(v: &JsonValue) -> serde_json::Value {
    match v {
        JsonValue::Null => serde_json::Value::Null,
        JsonValue::Bool(b) => serde_json::Value::Bool(*b),
        JsonValue::Number(n) => serde_json::Value::Number(n.clone()),
        JsonValue::Str(s) => serde_json::Value::String(s.clone()),
        JsonValue::Array(a) => serde_json::Value::Array(a.iter().map(json_to_serde).collect()),
        JsonValue::Object(o) => serde_json::Value::Object(o.iter().map(|(k, x)| (k.clone(), json_to_serde(x))).collect()),
    }
}

/// Calls `serde_json::from_str::<serde_json::Value>`. Claimed: the outcome
/// is the named result `parsed_json` of the text.
#[verifier::external_body]
pub(crate) fn parse_json(text: &str) -> (r: Option<JsonValue>)
    ensures
        opt_json_view(r) == parsed_json(text@),
{
    serde_json::from_str::<serde_json::Value>(text).ok().map(json_from_serde)
}

/// The text that `serde_json::to_string_pretty` writes for a value.
pub uninterp spec fn pretty_json(v: JsonV) -> Seq<char>;

/// Calls `serde_json::to_string_pretty` on the value. Claimed: the text is
/// the named result `pretty_json` of the value. Writing a
/// `serde_json::Value` cannot fail, so the empty fallback is never taken.
#[verifier::external_body]
pub(crate) fn json_pretty(v: &JsonValue) -> (r: String)
    ensures
        r@ == pretty_json(json_view(*v)),
{
    serde_json::to_string_pretty(&json_to_serde(v)).unwrap_or_default()
}

/// The JSON number that `serde_json::Number::from` makes of an integer.
pub uninterp spec fn json_u64(n: u64) -> serde_json::Number;

/// Calls `serde_json::Number::from` on an unsigned integer. Claimed: the
/// number is the named result `json_u64` of the integer.
#[verifier::external_body]
pub(crate) fn json_number(n: u64) -> (r: serde_json::Number)
    ensures
        r == json_u64(n),
{
    serde_json::Number::from(n)
}

pub proof fn lemma_entry_views_push(s: Seq<(String, JsonValue)>, e: (String, JsonValue))
    ensures
        json_entry_views(s.push(e)) == json_entry_views(s).push((e.0@, json_view(e.1))),
{
    assert(s.push(e).subrange(0, s.len() as int) =~= s);
}

pub proof fn lemma_json_views_push(s: Seq<JsonValue>, e: JsonValue)
    ensures
        json_views(s.push(e)) == json_views(s).push(json_view(e)),
{
    assert(s.push(e).subrange(0, s.len() as int) =~= s);
}

/// Adds a key and its value at the end of an object's entries.
pub fn push_entry(entries: &mut Vec<(String, JsonValue)>, key: &str, value: JsonValue)
    ensures
        json_entry_views(final(entries)@) == json_entry_views(old(entries)@).push((key@, json_view(value))),
{
    let ghost before = entries@;
    let k = key.to_owned();
    entries.push((k, value));
    proof {
        lemma_entry_views_push(before, (k, value));
    }
}

/// A text read as JSON, an empty object where it is none.
pub open spec fn json_or_empty(text: Seq<char>) -> JsonV {
    match parsed_json(text) {
        Some(v) => v,
        None => JsonV::Object(Seq::empty()),
    }
}

/// Two JSON texts merged, the child over the parent, and written pretty.
pub open spec fn merged_json_text(parent: Seq<char>, child: Seq<char>) -> Seq<char> {
    pretty_json(deep_merge(json_or_empty(parent), json_or_empty(child)))
}

pub fn deep_merge_json_text(parent: &str, child: &str) -> (r: String)
    ensures
        r@ == merged_json_text(parent@, child@),
{
    let p = match parse_json(parent) {
        Some(v) => v,
        None => JsonValue::Object(Vec::new()),
    };
    let c = match parse_json(child) {
        Some(v) => v,
        None => JsonValue::Object(Vec::new()),
    };
    proof {
        assert(json_entry_views(Seq::<(String, JsonValue)>::empty()) =~= Seq::<(Seq<char>, JsonV)>::empty());
    }
    let merged = deep_merge_json(&p, &c);
    json_pretty(&merged)
}

} // verus!
