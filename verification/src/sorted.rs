//! Sorted sets of texts kept as sequences in `str` order: what insertion
//! does to their order and their members.
use vstd::prelude::*;
use crate::plan::{insert_sorted_unique, lex_pos, lemma_lex_pos_bounds};
use crate::text::{lex_lt, lemma_lex_lt_asymmetric, lemma_lex_lt_irreflexive, lemma_lex_lt_total, lemma_lex_lt_transitive};

verus! {

/// Strictly increasing in `str` order (so each text once).
pub open spec fn sorted_strict(s: Seq<Seq<char>>) -> bool {
    forall|i: int, j: int| 0 <= i < j < s.len() ==> lex_lt(s[i], s[j])
}

pub proof fn lemma_lex_pos_facts(s: Seq<Seq<char>>, x: Seq<char>)
    ensures
        0 <= lex_pos(s, x) <= s.len(),
        forall|j: int| 0 <= j < lex_pos(s, x) ==> !lex_lt(x, #[trigger] s[j]),
        lex_pos(s, x) < s.len() ==> lex_lt(x, s[lex_pos(s, x)]),
    decreases s.len(),
{
    lemma_lex_pos_bounds(s, x);
    if s.len() > 0 && !lex_lt(x, s[0]) {
        lemma_lex_pos_facts(s.drop_first(), x);
        assert forall|j: int| 0 <= j < lex_pos(s, x) implies !lex_lt(x, #[trigger] s[j]) by {
            if j > 0 {
                assert(s[j] == s.drop_first()[j - 1]);
            }
        }
    }
}

/// Inserting into a sorted set keeps it sorted and adds exactly that text.
pub proof fn lemma_insert_sorted_unique(s: Seq<Seq<char>>, x: Seq<char>)
    requires
        sorted_strict(s),
    ensures
        sorted_strict(insert_sorted_unique(s, x)),
        forall|y: Seq<char>| #[trigger] insert_sorted_unique(s, x).contains(y) <==> (s.contains(y) || y == x),
{
    if s.contains(x) {
        return ;
    }
    lemma_lex_pos_facts(s, x);
    let p = lex_pos(s, x);
    let t = s.insert(p, x);
    assert forall|j: int| 0 <= j < p implies lex_lt(#[trigger] s[j], x) by {
        lemma_lex_lt_total(s[j], x);
        assert(s[j] != x);
    }
    assert forall|j: int| p <= j < s.len() implies lex_lt(x, #[trigger] s[j]) by {
        if j > p {
            lemma_lex_lt_transitive(x, s[p], s[j]);
        }
    }
    assert forall|i: int, j: int| 0 <= i < j < t.len() implies lex_lt(t[i], t[j]) by {
        if j < p {
        } else if j == p {
        } else if i < p {
            lemma_lex_lt_transitive(s[i], x, s[j - 1]);
        } else if i == p {
        } else {
        }
    }
    assert forall|y: Seq<char>| #[trigger] t.contains(y) <==> (s.contains(y) || y == x) by {
        if t.contains(y) {
            let k = choose|k: int| 0 <= k < t.len() && t[k] == y;
            if k < p {
                assert(s[k] == y);
            } else if k > p {
                assert(s[k - 1] == y);
            }
        }
        if s.contains(y) {
            let k = choose|k: int| 0 <= k < s.len() && s[k] == y;
            if k < p {
                assert(t[k] == y);
            } else {
                assert(t[k + 1] == y);
            }
        }
        if y == x {
            assert(t[p] == x);
        }
    }
}


/// Two strictly sorted sequences with the same members are the same.
pub proof fn lemma_sorted_unique(a: Seq<Seq<char>>, b: Seq<Seq<char>>)
    requires
        sorted_strict(a),
        sorted_strict(b),
        forall|x: Seq<char>| #[trigger] a.contains(x) <==> b.contains(x),
    ensures
        a == b,
    decreases a.len(),
{
    if a.len() == 0 {
        if b.len() > 0 {
            assert(b.contains(b[0]));
            assert(a.contains(b[0]));
            let k = choose|k: int| 0 <= k < a.len() && a[k] == b[0];
            assert(false);
        }
        assert(a =~= b);
    } else {
        assert(a.contains(a[0]));
        assert(b.len() > 0);
        assert(b.contains(b[0]));
        assert(b.contains(a[0]));
        assert(a.contains(b[0]));
        let i = choose|i: int| 0 <= i < b.len() && b[i] == a[0];
        let j = choose|j: int| 0 <= j < a.len() && a[j] == b[0];
        if i > 0 {
            assert(lex_lt(b[0], b[i]));
            if j > 0 {
                assert(lex_lt(a[0], a[j]));
                lemma_lex_lt_asymmetric(a[0], b[0]);
            } else {
                lemma_lex_lt_irreflexive(a[0]);
            }
        }
        assert(a[0] == b[0]);
        let a1 = a.drop_first();
        let b1 = b.drop_first();
        assert forall|x: Seq<char>| #[trigger] a1.contains(x) <==> b1.contains(x) by {
            if a1.contains(x) {
                let k = choose|k: int| 0 <= k < a1.len() && a1[k] == x;
                assert(a[k + 1] == x);
                assert(a.contains(x));
                assert(b.contains(x));
                let m = choose|m: int| 0 <= m < b.len() && b[m] == x;
                if m == 0 {
                    assert(lex_lt(a[0], a[k + 1]));
                    lemma_lex_lt_irreflexive(x);
                }
                assert(b1[m - 1] == x);
            }
            if b1.contains(x) {
                let k = choose|k: int| 0 <= k < b1.len() && b1[k] == x;
                assert(b[k + 1] == x);
                assert(b.contains(x));
                assert(a.contains(x));
                let m = choose|m: int| 0 <= m < a.len() && a[m] == x;
                if m == 0 {
                    assert(lex_lt(b[0], b[k + 1]));
                    lemma_lex_lt_irreflexive(x);
                }
                assert(a1[m - 1] == x);
            }
        }
        lemma_sorted_unique(a1, b1);
        assert(a =~= seq![a[0]] + a1);
        assert(b =~= seq![b[0]] + b1);
    }
}

} // verus!
