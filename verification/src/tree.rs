//! The section paths drawn as an indented tree of their parts.
use vstd::prelude::*;
use crate::contexts::insert_unique_exec;
use crate::document::{path_parts, section_views, RbmemDocument, SectionV};
use crate::plan::{insert_sorted_unique, string_views};
use crate::text::{chars_eq, chars_of, copy_range, views};

verus! {

/// The parts of every section's path, in section order.
pub open spec fn all_parts(ss: Seq<SectionV>) -> Seq<Seq<Seq<char>>> {
    ss.map_values(|s: SectionV| path_parts(s.path))
}

/// The names directly below `prefix`: the next part of every path that
/// extends it, sorted by `str` order, each once.
pub open spec fn kids_of(all: Seq<Seq<Seq<char>>>, prefix: Seq<Seq<char>>) -> Seq<Seq<char>>
    decreases all.len(),
{
    if all.len() == 0 {
        Seq::empty()
    } else {
        let k = kids_of(all.drop_last(), prefix);
        let p = all.last();
        if p.len() > prefix.len() && p.take(prefix.len() as int) == prefix {
            insert_sorted_unique(k, p[prefix.len() as int])
        } else {
            k
        }
    }
}

/// Two spaces for each level.
pub open spec fn indent(n: nat) -> Seq<char>
    decreases n,
{
    if n == 0 {
        Seq::empty()
    } else {
        indent((n - 1) as nat) + "  "@
    }
}

/// Each of these names below `prefix` on a line of its own, indented by its
/// depth, each followed by what lies below it, down to `fuel` levels.
pub open spec fn tree_lines(all: Seq<Seq<Seq<char>>>, prefix: Seq<Seq<char>>, kids: Seq<Seq<char>>, fuel: nat) -> Seq<char>
    decreases fuel, kids.len(),
{
    if fuel == 0 || kids.len() == 0 {
        Seq::empty()
    } else {
        let c = kids.last();
        let sub = prefix.push(c);
        tree_lines(all, prefix, kids.drop_last(), fuel) + indent(prefix.len()) + c + "\n"@ + tree_lines(
            all,
            sub,
            kids_of(all, sub),
            (fuel - 1) as nat,
        )
    }
}

/// The largest number of parts of a path.
pub open spec fn max_depth(all: Seq<Seq<Seq<char>>>) -> nat
    decreases all.len(),
{
    if all.len() == 0 {
        0
    } else {
        let m = max_depth(all.drop_last());
        if all.last().len() > m { all.last().len() } else { m }
    }
}

/// The tree of the sections' paths: every prefix of a path once,
/// children in `str` order under their parent.
pub open spec fn tree_text(ss: Seq<SectionV>) -> Seq<char> {
    let all = all_parts(ss);
    tree_lines(all, Seq::empty(), kids_of(all, Seq::empty()), max_depth(all))
}

pub open spec fn parts_views(v: Seq<Vec<Vec<char>>>) -> Seq<Seq<Seq<char>>> {
    v.map_values(|p: Vec<Vec<char>>| views(p@))
}

fn extends(p: &Vec<Vec<char>>, prefix: &Vec<Vec<char>>) -> (r: bool)
    ensures
        r == (views(p@).len() > views(prefix@).len() && views(p@).take(prefix@.len() as int) == views(prefix@)),
{
    if p.len() <= prefix.len() {
        return false;
    }
    let mut j: usize = 0;
    while j < prefix.len()
        invariant
            j <= prefix@.len() < p@.len(),
            forall|k: int| 0 <= k < j ==> views(p@)[k] == views(prefix@)[k],
        decreases prefix@.len() - j,
    {
        if !chars_eq(&p[j], &prefix[j]) {
            assert(views(p@).take(prefix@.len() as int)[j as int] != views(prefix@)[j as int]);
            return false;
        }
        j += 1;
    }
    assert(views(p@).take(prefix@.len() as int) =~= views(prefix@));
    true
}

fn kids_exec(all: &Vec<Vec<Vec<char>>>, prefix: &Vec<Vec<char>>) -> (r: Vec<String>)
    ensures
        string_views(r@) == kids_of(parts_views(all@), views(prefix@)),
{
    let ghost a = parts_views(all@);
    let mut kids: Vec<String> = Vec::new();
    let mut i: usize = 0;
    assert(a.take(0) =~= Seq::<Seq<Seq<char>>>::empty());
    assert(string_views(kids@) =~= Seq::<Seq<char>>::empty());
    while i < all.len()
        invariant
            a == parts_views(all@),
            i <= a.len(),
            string_views(kids@) == kids_of(a.take(i as int), views(prefix@)),
        decreases a.len() - i,
    {
        assert(a.take(i + 1).drop_last() =~= a.take(i as int));
        assert(a.take(i + 1).last() == views(all@[i as int]@));
        let p = &all[i];
        if extends(p, prefix) {
            let n = prefix.len();
            assert(views(p@)[n as int] == p@[n as int]@);
            let name = copy_range(&p[n], 0, p[n].len());
            assert(name@ =~= p@[n as int]@);
            insert_unique_exec(&mut kids, name);
        }
        i += 1;
    }
    assert(a.take(a.len() as int) =~= a);
    kids
}

fn copy_parts(p: &Vec<Vec<char>>) -> (r: Vec<Vec<char>>)
    ensures
        views(r@) == views(p@),
{
    let mut r: Vec<Vec<char>> = Vec::new();
    let mut i: usize = 0;
    while i < p.len()
        invariant
            i <= p@.len(),
            views(r@) == views(p@).take(i as int),
        decreases p@.len() - i,
    {
        let c = copy_range(&p[i], 0, p[i].len());
        assert(c@ =~= p@[i as int]@);
        let ghost before = views(r@);
        r.push(c);
        assert(views(r@) =~= before.push(p@[i as int]@));
        assert(views(p@).take(i + 1) =~= views(p@).take(i as int).push(p@[i as int]@));
        i += 1;
    }
    assert(views(p@).take(p@.len() as int) =~= views(p@));
    r
}

fn push_indent(out: &mut String, n: usize)
    ensures
        final(out)@ == old(out)@ + indent(n as nat),
{
    let mut i: usize = 0;
    while i < n
        invariant
            i <= n,
            out@ == old(out)@ + indent(i as nat),
        decreases n - i,
    {
        out.push_str("  ");
        i += 1;
    }
}

fn render_below(all: &Vec<Vec<Vec<char>>>, prefix: &Vec<Vec<char>>, fuel: usize, out: &mut String)
    ensures
        final(out)@ == old(out)@ + tree_lines(
            parts_views(all@),
            views(prefix@),
            kids_of(parts_views(all@), views(prefix@)),
            fuel as nat,
        ),
    decreases fuel,
{
    let ghost a = parts_views(all@);
    let ghost pv = views(prefix@);
    if fuel == 0 {
        return;
    }
    let kids = kids_exec(all, prefix);
    let ghost ks = string_views(kids@);
    let ghost start = out@;
    let mut i: usize = 0;
    assert(ks.take(0) =~= Seq::<Seq<char>>::empty());
    while i < kids.len()
        invariant
            a == parts_views(all@),
            pv == views(prefix@),
            ks == string_views(kids@),
            fuel > 0,
            i <= ks.len(),
            out@ == start + tree_lines(a, pv, ks.take(i as int), fuel as nat),
        decreases ks.len() - i,
    {
        assert(ks.take(i + 1).drop_last() =~= ks.take(i as int));
        assert(ks.take(i + 1).last() == kids@[i as int]@);
        push_indent(out, prefix.len());
        out.push_str(kids[i].as_str());
        out.push_str("\n");
        let mut sub = copy_parts(prefix);
        sub.push(chars_of(kids[i].as_str()));
        assert(views(sub@) =~= pv.push(kids@[i as int]@));
        render_below(all, &sub, fuel - 1, out);
        i += 1;
    }
    assert(ks.take(ks.len() as int) =~= ks);
}

impl RbmemDocument {
    /// The section paths as an indented tree of their parts.
    pub fn tree(&self) -> (r: String)
        ensures
            r@ == tree_text(self@.sections),
    {
        let ghost ss = section_views(self.sections@);
        let mut all: Vec<Vec<Vec<char>>> = Vec::new();
        let mut depth: usize = 0;
        let mut i: usize = 0;
        while i < self.sections.len()
            invariant
                ss == section_views(self.sections@),
                i <= ss.len(),
                parts_views(all@) == all_parts(ss.take(i as int)),
                depth == max_depth(all_parts(ss.take(i as int))),
            decreases ss.len() - i,
        {
            let p = self.sections[i].path_parts();
            let ghost before = parts_views(all@);
            assert(all_parts(ss.take(i + 1)) =~= all_parts(ss.take(i as int)).push(views(p@)));
            assert(all_parts(ss.take(i + 1)).drop_last() =~= all_parts(ss.take(i as int)));
            if p.len() > depth {
                depth = p.len();
            }
            all.push(p);
            assert(parts_views(all@) =~= before.push(views(p@)));
            i += 1;
        }
        assert(ss.take(ss.len() as int) =~= ss);
        let mut out = String::new();
        let root: Vec<Vec<char>> = Vec::new();
        assert(views(root@) =~= Seq::<Seq<char>>::empty());
        render_below(&all, &root, depth, &mut out);
        out
    }
}

} // verus!
