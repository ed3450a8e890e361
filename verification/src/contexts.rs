//! Context packs for planning: named lists of section paths in a
//! `.rbmempacks` file, and the documents cut down to them.
use vstd::prelude::*;
use crate::document::{section_views, DocumentV, RbmemDocument, Section, SectionV};
use crate::plan::{insert_sorted_unique, lex_pos, lemma_lex_pos_bounds, string_views};
use crate::planner::{document_views, is_planning_context, is_planning_context_exec};
use crate::text::{
    chars_eq, chars_lt, chars_of, copy_range, ends_with_chars, lines, split_lines, starts_with_chars, str_eq, string_of,
    trim, trimmed, views,
};

verus! {

/// The state of reading a packs file: inside the wanted pack, inside its
/// `include:` list, the paths so far, and whether the pack has ended.
pub struct PackScan {
    pub in_pack: bool,
    pub in_include: bool,
    pub includes: Seq<Seq<char>>,
    pub done: bool,
}

pub open spec fn pack_step(st: PackScan, header: Seq<char>, line: Seq<char>) -> PackScan {
    let t = trim(line);
    if st.done {
        st
    } else if "[pack:"@.is_prefix_of(t) {
        if st.in_pack {
            PackScan { done: true, ..st }
        } else {
            PackScan { in_pack: t == header, in_include: false, ..st }
        }
    } else if !st.in_pack {
        st
    } else if t == "include:"@ {
        PackScan { in_include: true, ..st }
    } else if t.len() > 0 && t.last() == ':' {
        PackScan { in_include: false, ..st }
    } else if st.in_include && "- "@.is_prefix_of(t) {
        PackScan { includes: insert_sorted_unique(st.includes, trim(t.skip("- "@.len() as int))), ..st }
    } else {
        st
    }
}

pub open spec fn pack_fold(header: Seq<char>, ls: Seq<Seq<char>>) -> PackScan
    decreases ls.len(),
{
    if ls.len() == 0 {
        PackScan { in_pack: false, in_include: false, includes: Seq::empty(), done: false }
    } else {
        pack_step(pack_fold(header, ls.drop_last()), header, ls.last())
    }
}

/// The paths that a named pack includes, sorted and each once; `None` where
/// the file has no such pack.
pub open spec fn pack_includes(text: Seq<char>, name: Seq<char>) -> Option<Seq<Seq<char>>> {
    let st = pack_fold("[pack: "@ + name + "]"@, lines(text));
    if st.in_pack {
        Some(st.includes)
    } else {
        None
    }
}

pub fn insert_unique_exec(list: &mut Vec<String>, x: Vec<char>)
    ensures
        string_views(final(list)@) == insert_sorted_unique(string_views(old(list)@), x@),
{
    let ghost sv = string_views(list@);
    let mut k: usize = 0;
    let mut pos: usize = 0;
    let mut found = false;
    assert(sv.skip(0) =~= sv);
    while k < list.len()
        invariant
            k <= list@.len(),
            sv == string_views(list@),
            !found ==> forall|j: int| 0 <= j < k ==> sv[j] != x@,
            found ==> sv.contains(x@),
            !found ==> (pos == k || (pos < k && lex_pos(sv, x@) == pos)),
            !found && pos == k ==> lex_pos(sv, x@) == k + lex_pos(sv.skip(k as int), x@),
        ensures
            found ==> sv.contains(x@),
            !found ==> k == list@.len() && (forall|j: int| 0 <= j < k ==> sv[j] != x@) && (pos == k || (pos < k
                && lex_pos(sv, x@) == pos)) && (pos == k ==> lex_pos(sv, x@) == k + lex_pos(sv.skip(k as int), x@)),
        decreases list@.len() - k,
    {
        let item = chars_of(list[k].as_str());
        assert(sv[k as int] == item@);
        if chars_eq(&item, &x) {
            found = true;
            break;
        }
        if pos == k {
            assert(sv.skip(k as int)[0] == sv[k as int]);
            assert(sv.skip(k as int).drop_first() =~= sv.skip(k + 1));
            if !chars_lt(&x, &item) {
                pos = k + 1;
            }
        }
        k += 1;
    }
    if !found {
        proof {
            if pos == k {
                assert(sv.skip(k as int).len() == 0);
            }
            lemma_lex_pos_bounds(sv, x@);
            assert(!sv.contains(x@));
        }
        let s = string_of(&x);
        list.insert(pos, s);
        assert(string_views(list@) =~= sv.insert(pos as int, x@));
    }
}

/// `parse_context_pack_includes`.
pub fn parse_context_pack_includes(text: &str, name: &str) -> (r: Option<Vec<String>>)
    ensures
        r matches Some(v) ==> pack_includes(text@, name@) == Some(string_views(v@)),
        r is None ==> pack_includes(text@, name@) is None,
{
    let mut header = "[pack: ".to_owned();
    header.push_str(name);
    header.push_str("]");
    let hc = chars_of(header.as_str());
    let ls = split_lines(&chars_of(text));
    let ghost lv = views(ls@);
    let mut in_pack = false;
    let mut in_include = false;
    let mut done = false;
    let mut includes: Vec<String> = Vec::new();
    let mut i: usize = 0;
    assert(lv.take(0) =~= Seq::<Seq<char>>::empty());
    assert(string_views(includes@) =~= Seq::<Seq<char>>::empty());
    while i < ls.len()
        invariant
            i <= ls@.len(),
            lv == views(ls@),
            lv == lines(text@),
            hc@ == "[pack: "@ + name@ + "]"@,
            (PackScan { in_pack, in_include, includes: string_views(includes@), done }) == pack_fold(hc@, lv.take(i as int)),
        decreases ls@.len() - i,
    {
        assert(lv.take(i + 1).drop_last() =~= lv.take(i as int));
        assert(lv.take(i + 1).last() == ls@[i as int]@);
        let t = trimmed(&ls[i]);
        if done {
        } else if starts_with_chars(&t, &chars_of("[pack:")) {
            if in_pack {
                done = true;
            } else {
                in_pack = chars_eq(&t, &hc);
                in_include = false;
            }
        } else if !in_pack {
        } else if chars_eq(&t, &chars_of("include:")) {
            in_include = true;
        } else if t.len() > 0 && t[t.len() - 1] == ':' {
            in_include = false;
        } else if in_include && starts_with_chars(&t, &chars_of("- ")) {
            let k = chars_of("- ");
            let rest = copy_range(&t, k.len(), t.len());
            assert(rest@ =~= t@.skip("- "@.len() as int));
            insert_unique_exec(&mut includes, trimmed(&rest));
        }
        i += 1;
    }
    assert(lv.take(lv.len() as int) =~= lv);
    if in_pack {
        Some(includes)
    } else {
        None
    }
}

/// A section a pack keeps: planning context, or at or under an included
/// path.
pub open spec fn pack_keeps(s: SectionV, includes: Seq<Seq<char>>) -> bool {
    is_planning_context(s) || exists|i: int|
        0 <= i < includes.len() && (s.path == includes[i] || (includes[i] + "."@).is_prefix_of(s.path))
}

pub open spec fn kept_sections(ss: Seq<SectionV>, includes: Seq<Seq<char>>) -> Seq<SectionV>
    decreases ss.len(),
{
    if ss.len() == 0 {
        ss
    } else {
        let prev = kept_sections(ss.drop_last(), includes);
        if pack_keeps(ss.last(), includes) {
            prev.push(ss.last())
        } else {
            prev
        }
    }
}

/// The documents cut down to a pack; an empty
/// pack keeps everything.
pub open spec fn filtered_for_pack(d: DocumentV, includes: Seq<Seq<char>>) -> DocumentV {
    if includes.len() == 0 {
        d
    } else {
        DocumentV { sections: kept_sections(d.sections, includes), ..d }
    }
}

fn pack_keeps_exec(section: &Section, includes: &Vec<String>) -> (r: bool)
    ensures
        r == pack_keeps(section@, string_views(includes@)),
{
    if is_planning_context_exec(section) {
        return true;
    }
    let path = chars_of(section.path.as_str());
    let mut i: usize = 0;
    while i < includes.len()
        invariant
            i <= includes@.len(),
            path@ == section@.path,
            forall|j: int|
                0 <= j < i ==> !(section@.path == string_views(includes@)[j] || (string_views(includes@)[j]
                    + "."@).is_prefix_of(section@.path)),
        decreases includes@.len() - i,
    {
        let mut dotted = includes[i].clone();
        dotted.push_str(".");
        assert(string_views(includes@)[i as int] == includes@[i as int]@);
        if str_eq(section.path.as_str(), includes[i].as_str()) || starts_with_chars(&path, &chars_of(dotted.as_str())) {
            return true;
        }
        i += 1;
    }
    false
}

/// `filter_context_for_pack`.
pub fn filter_context_for_pack(documents: Vec<RbmemDocument>, includes: &Vec<String>) -> (r: Vec<RbmemDocument>)
    ensures
        document_views(r@) == document_views(documents@).map_values(
            |d: DocumentV| filtered_for_pack(d, string_views(includes@)),
        ),
{
    if includes.len() == 0 {
        assert(document_views(documents@) =~= document_views(documents@).map_values(
            |d: DocumentV| filtered_for_pack(d, string_views(includes@)),
        ));
        return documents;
    }
    let ghost dv = document_views(documents@);
    let mut out: Vec<RbmemDocument> = Vec::new();
    let mut i: usize = 0;
    while i < documents.len()
        invariant
            i <= documents@.len(),
            dv == document_views(documents@),
            includes@.len() > 0,
            document_views(out@) == dv.take(i as int).map_values(|d: DocumentV| filtered_for_pack(d, string_views(includes@))),
        decreases documents@.len() - i,
    {
        let doc = &documents[i];
        let mut kept: Vec<Section> = Vec::new();
        let mut j: usize = 0;
        assert(doc@.sections.take(0) =~= Seq::<SectionV>::empty());
        while j < doc.sections.len()
            invariant
                j <= doc.sections@.len(),
                section_views(kept@) == kept_sections(doc@.sections.take(j as int), string_views(includes@)),
            decreases doc.sections@.len() - j,
        {
            assert(doc@.sections.take(j + 1).drop_last() =~= doc@.sections.take(j as int));
            assert(doc@.sections.take(j + 1).last() == doc.sections@[j as int]@);
            if pack_keeps_exec(&doc.sections[j], includes) {
                let ghost before = section_views(kept@);
                kept.push(doc.sections[j].duplicate());
                assert(section_views(kept@) =~= before.push(doc.sections@[j as int]@));
            }
            j += 1;
        }
        assert(doc@.sections.take(doc@.sections.len() as int) =~= doc@.sections);
        let copy = RbmemDocument {
            meta: doc.meta.duplicate(),
            sections: kept,
            warnings: crate::text::copy_strings(&doc.warnings),
        };
        let ghost before = document_views(out@);
        out.push(copy);
        assert(document_views(out@) =~= before.push(filtered_for_pack(dv[i as int], string_views(includes@))));
        assert(dv.take(i + 1) =~= dv.take(i as int).push(dv[i as int]));
        i += 1;
    }
    assert(dv.take(dv.len() as int) =~= dv);
    out
}

} // verus!
