//! Reading back what the writer wrote: the content block that the writer
//! emits for a section is read by the body reader as the same content.
use vstd::prelude::*;
use crate::body::{body_content, body_fold, body_start, body_step, content_start, drop_trailing_blank, flush, read_body, strip_content_indent, BodyMode, BodyV};
use crate::writer::{content_block, has_newline, indented, RbmemWriteStyle};
use crate::text::{is_ws, join, lines, split_on, strip_cr, trim, trim_end, trim_start, lemma_split_on_nonempty};

verus! {

/// Appending text without the separator extends the last piece.
proof fn lemma_split_extend(a: Seq<char>, x: Seq<char>, sep: char)
    requires
        forall|i: int| 0 <= i < x.len() ==> x[i] != sep,
    ensures
        split_on(a + x, sep) == split_on(a, sep).update(
            split_on(a, sep).len() - 1,
            split_on(a, sep).last() + x,
        ),
    decreases x.len(),
{
    lemma_split_on_nonempty(a, sep);
    if x.len() == 0 {
        assert(a + x =~= a);
        assert(split_on(a, sep).last() + x =~= split_on(a, sep).last());
        assert(split_on(a, sep).update(split_on(a, sep).len() - 1, split_on(a, sep).last())
            =~= split_on(a, sep));
    } else {
        let y = x.drop_last();
        lemma_split_extend(a, y, sep);
        assert((a + x).drop_last() =~= a + y);
        assert((a + x).last() == x.last());
        let p = split_on(a, sep);
        assert(p.last() + y + seq![x.last()] =~= p.last() + x);
        lemma_split_on_nonempty(a + y, sep);
        let prev = split_on(a + y, sep);
        assert(x.last() != sep);
        assert(split_on(a + x, sep) == prev.update(prev.len() - 1, prev.last().push(x.last())));
        assert(prev.len() == p.len());
        assert(prev.last() == p.last() + y);
        assert(prev.last().push(x.last()) =~= p.last() + x);
        assert(split_on(a + x, sep) =~= p.update(p.len() - 1, p.last() + x));
    }
}

/// Appending the separator starts a new, empty piece.
proof fn lemma_split_sep(a: Seq<char>, sep: char)
    ensures
        split_on(a.push(sep), sep) == split_on(a, sep).push(Seq::<char>::empty()),
{
    assert(a.push(sep).drop_last() =~= a);
}

/// No piece holds the separator, nor a character that the text lacks.
proof fn lemma_split_pieces(s: Seq<char>, sep: char, bad: char)
    ensures
        forall|i: int, j: int|
            0 <= i < split_on(s, sep).len() && 0 <= j < split_on(s, sep)[i].len() ==> #[trigger] split_on(s, sep)[i][j] != sep,
        (forall|k: int| 0 <= k < s.len() ==> s[k] != bad) ==> forall|i: int, j: int|
            0 <= i < split_on(s, sep).len() && 0 <= j < split_on(s, sep)[i].len() ==> #[trigger] split_on(s, sep)[i][j] != bad,
    decreases s.len(),
{
    if s.len() > 0 {
        let t = s.drop_last();
        lemma_split_pieces(t, sep, bad);
        lemma_split_on_nonempty(t, sep);
        if (forall|k: int| 0 <= k < s.len() ==> s[k] != bad) {
            assert forall|k: int| 0 <= k < t.len() implies t[k] != bad by {
                assert(t[k] == s[k]);
            }
        }
    }
}

/// Joining the pieces again with the separator gives back the text.
proof fn lemma_join_split(s: Seq<char>)
    ensures
        join(split_on(s, '\n'), "\n"@) == s,
    decreases s.len(),
{
    lemma_split_on_nonempty(s, '\n');
    if s.len() == 0 {
        assert(join(split_on(s, '\n'), "\n"@) =~= s);
    } else {
        let t = s.drop_last();
        lemma_join_split(t);
        lemma_split_on_nonempty(t, '\n');
        let p = split_on(t, '\n');
        assert(s =~= t.push(s.last()));
        if s.last() == '\n' {
            let q = p.push(Seq::<char>::empty());
            assert(q.drop_last() =~= p);
            assert(join(q, "\n"@) == join(p, "\n"@) + "\n"@ + Seq::<char>::empty());
            reveal_strlit("\n");
            assert(join(q, "\n"@) =~= s);
        } else {
            let q = p.update(p.len() - 1, p.last().push(s.last()));
            if p.len() == 1 {
                assert(join(p, "\n"@) == p[0]);
                assert(join(q, "\n"@) =~= s);
            } else {
                assert(q.drop_last() =~= p.drop_last());
                assert(join(p, "\n"@) == join(p.drop_last(), "\n"@) + "\n"@ + p.last());
                assert(join(q, "\n"@) == join(p.drop_last(), "\n"@) + "\n"@ + p.last().push(s.last()));
                assert(join(q, "\n"@) =~= s);
            }
        }
    }
}

/// The lines of a text with no carriage return and no white space at its
/// end are its pieces between newlines, and join back into it.
proof fn lemma_lines_plain(c: Seq<char>)
    requires
        c.len() > 0,
        !is_ws(c.last()),
        forall|k: int| 0 <= k < c.len() ==> c[k] != '\r',
    ensures
        lines(c) == split_on(c, '\n'),
        join(lines(c), "\n"@) == c,
        lines(c).len() > 0,
        lines(c).last().len() > 0,
        lines(c).last().last() == c.last(),
        forall|i: int, j: int| 0 <= i < lines(c).len() && 0 <= j < lines(c)[i].len()
            ==> #[trigger] lines(c)[i][j] != '\n' && lines(c)[i][j] != '\r',
{
    let p = split_on(c, '\n');
    lemma_split_pieces(c, '\n', '\r');
    lemma_join_split(c);
    lemma_split_on_nonempty(c, '\n');
    lemma_split_on_nonempty(c.drop_last(), '\n');
    assert(c.last() != '\n');
    let prev = split_on(c.drop_last(), '\n');
    assert(p == prev.update(prev.len() - 1, prev.last().push(c.last())));
    assert(p.last() == prev.last().push(c.last()));
    let body = p.drop_last().map_values(|x: Seq<char>| strip_cr(x));
    assert forall|i: int| 0 <= i < p.drop_last().len() implies body[i] == p[i] by {
        let x = p[i];
        if x.len() > 0 {
            assert(x[x.len() - 1] != '\r');
        }
    }
    assert(body.push(p.last()) =~= p);
}

/// Text that ends in a visible character is not blank.
proof fn lemma_trim_nonblank(x: Seq<char>)
    requires
        x.len() > 0,
        !is_ws(x.last()),
    ensures
        trim(x).len() > 0,
{
    lemma_trim_start_keeps_last(x);
    let y = trim_start(x);
    assert(trim_end(y) == y);
}

proof fn lemma_trim_start_keeps_last(x: Seq<char>)
    requires
        x.len() > 0,
        !is_ws(x.last()),
    ensures
        trim_start(x).len() > 0,
        trim_start(x).last() == x.last(),
    decreases x.len(),
{
    if is_ws(x[0]) {
        assert(x.len() > 1);
        assert(x.drop_first().last() == x.last());
        lemma_trim_start_keeps_last(x.drop_first());
    }
}

/// Indentation by two spaces does not change the trimmed text.
proof fn lemma_trim_indent(l: Seq<char>)
    ensures
        trim("  "@ + l) == trim(l),
{
    reveal_strlit("  ");
    let a = "  "@ + l;
    assert(is_ws(' '));
    assert(a[0] == ' ');
    assert(a.drop_first()[0] == ' ');
    assert(a.drop_first().drop_first() =~= l);
    assert(trim_start(a) == trim_start(a.drop_first()));
    assert(trim_start(a.drop_first()) == trim_start(a.drop_first().drop_first()));
}

/// Each line indented by two spaces.
pub open spec fn indent_all(ls: Seq<Seq<char>>) -> Seq<Seq<char>> {
    ls.map_values(|l: Seq<char>| "  "@ + l)
}

/// The pieces of an indented block written after text that ends a line.
proof fn lemma_split_indented(a: Seq<char>, ls: Seq<Seq<char>>)
    requires
        split_on(a, '\n').last().len() == 0,
        forall|i: int, j: int| 0 <= i < ls.len() && 0 <= j < ls[i].len() ==> #[trigger] ls[i][j] != '\n',
    ensures
        split_on(a + indented(ls), '\n') == split_on(a, '\n').drop_last() + indent_all(ls) + seq![Seq::<char>::empty()],
    decreases ls.len(),
{
    lemma_split_on_nonempty(a, '\n');
    let p = split_on(a, '\n');
    if ls.len() == 0 {
        assert(a + indented(ls) =~= a);
        assert(indent_all(ls) =~= Seq::<Seq<char>>::empty());
        assert(p.last() =~= Seq::<char>::empty());
        assert(p.drop_last() + indent_all(ls) + seq![Seq::<char>::empty()] =~= p);
    } else {
        let front = ls.drop_last();
        let l = ls.last();
        lemma_split_indented(a, front);
        let b = a + indented(front);
        let x = "  "@ + l;
        reveal_strlit("  ");
        reveal_strlit("\n");
        assert forall|i: int| 0 <= i < x.len() implies x[i] != '\n' by {
            if i >= 2 {
                assert(x[i] == ls[ls.len() - 1][i - 2]);
            }
        }
        lemma_split_extend(b, x, '\n');
        lemma_split_sep(b + x, '\n');
        assert(a + indented(ls) =~= (b + x).push('\n'));
        let q = split_on(b, '\n');
        assert(q =~= p.drop_last() + indent_all(front) + seq![Seq::<char>::empty()]);
        assert(q.last() + x =~= x);
        assert(indent_all(ls) =~= indent_all(front).push(x));
        assert(q.update(q.len() - 1, q.last() + x) =~= p.drop_last() + indent_all(ls));
    }
}

/// The text a content block starts with.
pub open spec fn block_head() -> Seq<char> {
    "content: |"@
}

proof fn lemma_split_head()
    ensures
        split_on("content: |\n"@, '\n') == seq![block_head(), Seq::<char>::empty()],
{
    reveal_strlit("content: |\n");
    reveal_strlit("content: |");
    let h = block_head();
    assert("content: |\n"@ =~= h.push('\n'));
    assert(forall|i: int| 0 <= i < h.len() ==> h[i] != '\n');
    lemma_split_extend(Seq::<char>::empty(), h, '\n');
    assert(Seq::<char>::empty() + h =~= h);
    assert(split_on(Seq::<char>::empty(), '\n') == seq![Seq::<char>::empty()]);
    assert(split_on(h, '\n') =~= seq![h]);
    lemma_split_sep(h, '\n');
}

/// The lines of the block that the writer emits for a content.
proof fn lemma_block_lines(c: Seq<char>)
    requires
        c.len() > 0,
        !is_ws(c.last()),
        forall|k: int| 0 <= k < c.len() ==> c[k] != '\r',
    ensures
        lines(content_block(c, RbmemWriteStyle::Canonical)) == seq![block_head()] + indent_all(lines(c)),
{
    reveal(content_block);
    lemma_lines_plain(c);
    lemma_split_head();
    let ls = lines(c);
    let a = "content: |\n"@;
    assert(content_block(c, RbmemWriteStyle::Canonical) == a + indented(ls));
    lemma_split_indented(a, ls);
    let p = split_on(a + indented(ls), '\n');
    assert(seq![block_head(), Seq::<char>::empty()].drop_last() =~= seq![block_head()]);
    let q = seq![block_head()] + indent_all(ls);
    assert(p =~= q.push(Seq::<char>::empty()));
    assert(p.drop_last() =~= q);
    reveal_strlit("content: |");
    reveal_strlit("  ");
    assert forall|i: int| 0 <= i < q.len() implies strip_cr(#[trigger] q[i]) == q[i] by {
        if i > 0 {
            let l = ls[i - 1];
            assert(q[i] == "  "@ + l);
            if l.len() > 0 {
                assert(q[i].last() == l[l.len() - 1]);
            }
        }
    }
    assert(lines(a + indented(ls)) =~= q);
}

/// The block written for empty content.
proof fn lemma_empty_block_lines(style: RbmemWriteStyle)
    ensures
        lines(content_block(Seq::<char>::empty(), style)) == seq![block_head(), Seq::<char>::empty()],
{
    reveal(content_block);
    reveal_strlit("content: |\n");
    reveal_strlit("\n");
    lemma_split_head();
    let e = Seq::<char>::empty();
    assert(!has_newline(e));
    assert(trim(e) =~= e);
    let a = "content: |\n"@;
    assert(content_block(e, style) == a + "\n"@);
    assert(a + "\n"@ =~= a.push('\n'));
    lemma_split_sep(a, '\n');
    let p = split_on(a.push('\n'), '\n');
    assert(p =~= seq![block_head(), e, e]);
    reveal_strlit("content: |");
    assert(strip_cr(block_head()) == block_head());
    assert(strip_cr(e) == e);
    assert(lines(a.push('\n')) =~= seq![block_head(), e]);
}

/// The body reader run from a given state over further lines.
pub open spec fn fold_from(st: BodyV, ls: Seq<Seq<char>>) -> BodyV
    decreases ls.len(),
{
    if ls.len() == 0 {
        st
    } else {
        body_step(fold_from(st, ls.drop_last()), ls.last())
    }
}

/// A trimmed line that opens a block of a section body.
pub open spec fn block_header(t: Seq<char>) -> bool {
    t == "temporal:"@ || t == "source:"@ || t == "graph:"@ || "content:"@.is_prefix_of(t)
}

/// Reading more lines goes on from where the first lines left the reader.
pub proof fn lemma_fold_append(a: Seq<Seq<char>>, b: Seq<Seq<char>>)
    ensures
        body_fold(a + b) == fold_from(body_fold(a), b),
    decreases b.len(),
{
    if b.len() == 0 {
        assert(a + b =~= a);
    } else {
        lemma_fold_append(a, b.drop_last());
        assert((a + b).drop_last() =~= a + b.drop_last());
        assert((a + b).last() == b.last());
    }
}

/// Inside a content block, each indented line that opens no block is taken
/// as a content line with its indentation removed.
pub proof fn lemma_fold_content(st: BodyV, ls: Seq<Seq<char>>)
    requires
        st.mode == BodyMode::Content,
        forall|i: int| 0 <= i < ls.len() ==> !block_header(#[trigger] trim(ls[i])),
    ensures
        fold_from(st, indent_all(ls)) == (BodyV { content: st.content + ls, ..st }),
    decreases ls.len(),
{
    if ls.len() == 0 {
        assert(st.content + ls =~= st.content);
    } else {
        let front = ls.drop_last();
        let l = ls.last();
        assert forall|i: int| 0 <= i < front.len() implies !block_header(#[trigger] trim(front[i])) by {
            assert(front[i] == ls[i]);
        }
        lemma_fold_content(st, front);
        assert(indent_all(ls).drop_last() =~= indent_all(front));
        let line = "  "@ + l;
        assert(indent_all(ls).last() == line);
        lemma_trim_indent(l);
        assert(!block_header(trim(ls[ls.len() - 1])));
        let prev = BodyV { content: st.content + front, ..st };
        reveal_strlit("  ");
        assert("  "@.is_prefix_of(line));
        assert(line.skip(2) =~= l);
        assert(strip_content_indent(line) == l);
        assert(body_step(prev, line) == BodyV { content: prev.content.push(l), ..prev });
        assert(prev.content.push(l) =~= st.content + ls);
    }
}

/// The first line of a content block turns the reader to content.
proof fn lemma_head_step()
    ensures
        body_step(body_start(), block_head()) == (BodyV { mode: BodyMode::Content, ..body_start() }),
{
    reveal_strlit("content: |");
    reveal_strlit("content:");
    reveal_strlit("temporal:");
    reveal_strlit("source:");
    reveal_strlit("graph:");
    reveal_strlit("|");
    let h = block_head();
    assert(!is_ws(h[0]));
    assert(!is_ws(h.last()));
    assert(trim_start(h) == h);
    assert(trim_end(h) == h);
    assert(trim(h) == h);
    assert("content:"@.is_prefix_of(h));
    assert(h != "temporal:"@);
    assert(h != "source:"@);
    assert(h != "graph:"@);
    let r = h.skip(8);
    assert(r =~= seq![' ', '|']);
    assert(r[0] == ' ' && is_ws(' '));
    assert(trim_start(r) == trim_start(r.drop_first()));
    assert(r.drop_first() =~= seq!['|']);
    assert(!is_ws('|'));
    assert(trim_start(r.drop_first()) == r.drop_first());
    assert(trim_end(r.drop_first()) == r.drop_first());
    assert(trim(r) =~= "|"@);
    assert(flush(body_start()) == body_start());
}

/// Content that reads back unchanged from the block the writer emits: empty
/// content, or content that ends in a visible character, holds no carriage
/// return, and has no line that, trimmed, opens a block of a section body.
pub open spec fn content_reads_back(c: Seq<char>) -> bool {
    c.len() == 0 || {
        &&& !is_ws(c.last())
        &&& forall|k: int| 0 <= k < c.len() ==> c[k] != '\r'
        &&& forall|i: int| 0 <= i < lines(c).len() ==> !block_header(#[trigger] trim(lines(c)[i]))
    }
}

/// What the writer emits as the content block of a section, the body reader
/// reads back as the same content. This holds in the canonical layout, and
/// in the human layout wherever the content is written as a block.
pub proof fn lemma_content_block_reads_back(c: Seq<char>, style: RbmemWriteStyle)
    requires
        content_reads_back(c),
        style == RbmemWriteStyle::Canonical || has_newline(c) || c.len() == 0,
    ensures
        body_content(read_body(content_block(c, style))) == c,
{
    let h = block_head();
    let st1 = BodyV { mode: BodyMode::Content, ..body_start() };
    lemma_head_step();
    assert(body_fold(seq![h]) == body_step(body_fold(seq![h].drop_last()), h));
    assert(seq![h].drop_last() =~= Seq::<Seq<char>>::empty());
    assert(body_fold(seq![h]) == st1);
    if c.len() == 0 {
        assert(c =~= Seq::<char>::empty());
        lemma_empty_reads_back(style);
    } else {
        assert(content_block(c, style) == content_block(c, RbmemWriteStyle::Canonical)) by {
            reveal(content_block);
        }
        lemma_block_lines(c);
        lemma_lines_plain(c);
        let l = lines(c);
        lemma_fold_append(seq![h], indent_all(l));
        lemma_fold_content(st1, l);
        let st2 = body_fold(seq![h] + indent_all(l));
        assert(st1.content + l =~= l);
        assert(st2 == BodyV { content: l, ..st1 });
        assert(flush(st2) == st2);
        lemma_trim_nonblank(l.last());
        assert(drop_trailing_blank(l) == l);
    }
}

proof fn lemma_empty_reads_back(style: RbmemWriteStyle)
    ensures
        body_content(read_body(content_block(Seq::<char>::empty(), style))) == Seq::<char>::empty(),
{
    let h = block_head();
    let st1 = BodyV { mode: BodyMode::Content, ..body_start() };
    lemma_head_step();
    assert(seq![h].drop_last() =~= Seq::<Seq<char>>::empty());
    assert(body_fold(seq![h]) == body_step(body_fold(seq![h].drop_last()), h));
    assert(body_fold(seq![h]) == st1);
    lemma_empty_block_lines(style);
    let e = Seq::<char>::empty();
    let ls = seq![h, e];
    assert(ls.drop_last() =~= seq![h]);
    reveal_strlit("content:");
    reveal_strlit("temporal:");
    reveal_strlit("source:");
    reveal_strlit("graph:");
    assert(trim(e) =~= e);
    assert(!"content:"@.is_prefix_of(e));
    assert(strip_content_indent(e) == e);
    let st2 = body_fold(ls);
    assert(st2 == body_step(st1, e));
    assert(st2.content =~= seq![e]);
    assert(flush(st2) == st2);
    let one = seq![e];
    assert(one.drop_last() =~= Seq::<Seq<char>>::empty());
    assert(drop_trailing_blank(Seq::<Seq<char>>::empty()) == Seq::<Seq<char>>::empty());
    assert(trim(one.last()).len() == 0);
    assert(drop_trailing_blank(one) == drop_trailing_blank(one.drop_last()));
    assert(body_content(read_body(content_block(e, style))) =~= e);
}

}
