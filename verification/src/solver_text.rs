//! What an external SAT solver printed, read as a result.
use vstd::prelude::*;
use crate::planner::SatStatus;
use crate::steps::SolverResult;
use crate::text::{chars_of, contains, contains_chars, split_words, views, words};

verus! {

/// The value of a run of decimal digits, or `None` where something else is in
/// it or it is empty.
pub open spec fn digits_value(s: Seq<char>) -> Option<nat>
    decreases s.len(),
{
    if s.len() == 0 {
        None
    } else if !('0' <= s.last() && s.last() <= '9') {
        None
    } else if s.len() == 1 {
        Some(((s.last() as u32) - ('0' as u32)) as nat)
    } else {
        match digits_value(s.drop_last()) {
            Some(v) => Some(v * 10 + ((s.last() as u32) - ('0' as u32)) as nat),
            None => None,
        }
    }
}

/// The positive literal a token names, as `str::parse::<i32>` reads it: an
/// optional `+` then digits, at most `i32::MAX`, above zero. Other tokens,
/// negative literals among them, name none.
pub open spec fn positive_literal(t: Seq<char>) -> Option<nat> {
    let body = if t.len() > 1 && t[0] == '+' { t.drop_first() } else { t };
    match digits_value(body) {
        Some(v) => if 0 < v <= i32::MAX { Some(v) } else { None },
        None => None,
    }
}

/// `n` variables, all false, then each positive literal below `n` set true.
pub open spec fn model_of(tokens: Seq<Seq<char>>, n: nat) -> Seq<bool>
    decreases tokens.len(),
{
    if tokens.len() == 0 {
        Seq::new(n, |i: int| false)
    } else {
        let prev = model_of(tokens.drop_last(), n);
        match positive_literal(tokens.last()) {
            Some(l) => if l < n { prev.update(l as int, true) } else { prev },
            None => prev,
        }
    }
}

/// The solver's answer: unsatisfiable where the text says
/// `UNSATISFIABLE`; else satisfiable, with the model its literals give, where
/// it says `SATISFIABLE`; else none.
pub open spec fn solver_answer(text: Seq<char>, n: nat) -> Option<(SatStatus, Seq<bool>)> {
    if contains(text, "UNSATISFIABLE"@) {
        Some((SatStatus::Unsat, Seq::new(n, |i: int| false)))
    } else if contains(text, "SATISFIABLE"@) {
        Some((SatStatus::Sat, model_of(words(text), n)))
    } else {
        None
    }
}

fn positive_literal_exec(t: &Vec<char>) -> (r: Option<u64>)
    ensures
        match positive_literal(t@) {
            Some(v) => r == Some(v as u64),
            None => r is None,
        },
{
    let start: usize = if t.len() > 1 && t[0] == '+' { 1 } else { 0 };
    let ghost body = if t@.len() > 1 && t@[0] == '+' { t@.drop_first() } else { t@ };
    assert(body =~= t@.skip(start as int));
    if start >= t.len() {
        return None;
    }
    let mut v: u64 = 0;
    let mut i: usize = start;
    assert(t@.subrange(start as int, start as int + 1).drop_last() =~= Seq::<char>::empty());
    while i < t.len()
        invariant
            start <= i <= t@.len(),
            start < t@.len(),
            body == t@.skip(start as int),
            body == (if t@.len() > 1 && t@[0] == '+' { t@.drop_first() } else { t@ }),
            i > start ==> digits_value(t@.subrange(start as int, i as int)) == Some(v as nat),
            i == start ==> v == 0,
            v <= i32::MAX,
        decreases t@.len() - i,
    {
        let c = t[i];
        let ghost pre = t@.subrange(start as int, i as int);
        let ghost next = t@.subrange(start as int, i + 1);
        assert(next.drop_last() =~= pre);
        assert(next.last() == c);
        assert(body[(i - start) as int] == c);
        if !('0' <= c && c <= '9') {
            proof {
                lemma_digits_stop(body, (i - start) as int);
            }
            return None;
        }
        let d: u64 = (c as u32 - '0' as u32) as u64;
        let w: u64 = v * 10 + d;
        assert(body.take((i - start) + 1) =~= next);
        assert(digits_value(next) == Some(w as nat)) by {
            assert(next.last() == c);
            assert('0' <= next.last() && next.last() <= '9');
            assert(((c as u32) - ('0' as u32)) as nat == d);
            if i > start {
                assert(next.len() > 1);
                assert(digits_value(next.drop_last()) == Some(v as nat));
            } else {
                assert(next.len() == 1);
                assert(v == 0);
            }
        }
        if w > 2147483647 {
            proof {
                lemma_digits_big(body, (i - start) as int, w as nat);
            }
            return None;
        }
        v = w;
        i += 1;
    }
    assert(t@.subrange(start as int, t@.len() as int) =~= body);
    if v == 0 {
        None
    } else {
        Some(v)
    }
}

/// A non-digit ends every longer run as no number.
proof fn lemma_digits_stop(s: Seq<char>, k: int)
    requires
        0 <= k < s.len(),
        !('0' <= s[k] && s[k] <= '9'),
    ensures
        digits_value(s) is None,
    decreases s.len(),
{
    if k < s.len() - 1 {
        lemma_digits_stop(s.drop_last(), k);
    }
}

/// A prefix worth more than `i32::MAX` makes the whole run worth more.
proof fn lemma_digits_big(s: Seq<char>, k: int, w: nat)
    requires
        0 <= k < s.len(),
        digits_value(s.take(k + 1)) == Some(w),
        w > i32::MAX,
    ensures
        digits_value(s) is None || digits_value(s)->0 > i32::MAX,
    decreases s.len(),
{
    if k == s.len() - 1 {
        assert(s.take(k + 1) =~= s);
    } else {
        assert(s.drop_last().take(k + 1) =~= s.take(k + 1));
        lemma_digits_big(s.drop_last(), k, w);
    }
}

/// Reads a solver's output for a problem of `n - 1` candidates.
pub fn read_solver_output(text: &str, n: usize, solver: &str) -> (r: Option<SolverResult>)
    ensures
        match solver_answer(text@, n as nat) {
            Some((status, model)) => r matches Some(x) && x.status == status && x.assignment@ == model && x.solver@ == solver@,
            None => r is None,
        },
{
    let chars = chars_of(text);
    let unsat = chars_of("UNSATISFIABLE");
    let sat = chars_of("SATISFIABLE");
    let mut model: Vec<bool> = Vec::new();
    let mut k: usize = 0;
    while k < n
        invariant
            k <= n,
            model@ == Seq::new(k as nat, |i: int| false),
        decreases n - k,
    {
        model.push(false);
        assert(model@ =~= Seq::new((k + 1) as nat, |i: int| false));
        k += 1;
    }
    if contains_chars(&chars, &unsat) {
        return Some(SolverResult { status: SatStatus::Unsat, assignment: model, solver: solver.to_owned() });
    }
    if !contains_chars(&chars, &sat) {
        return None;
    }
    let tokens = split_words(&chars);
    let ghost tv = views(tokens@);
    let mut i: usize = 0;
    assert(tv.take(0) =~= Seq::<Seq<char>>::empty());
    while i < tokens.len()
        invariant
            tv == views(tokens@),
            i <= tv.len(),
            model@ == model_of(tv.take(i as int), n as nat),
            model@.len() == n,
        decreases tv.len() - i,
    {
        assert(tv.take(i + 1).drop_last() =~= tv.take(i as int));
        assert(tv.take(i + 1).last() == tokens@[i as int]@);
        match positive_literal_exec(&tokens[i]) {
            Some(l) => {
                if l < n as u64 {
                    model.set(l as usize, true);
                }
            },
            None => {},
        }
        i += 1;
    }
    assert(tv.take(tv.len() as int) =~= tv);
    Some(SolverResult { status: SatStatus::Sat, assignment: model, solver: solver.to_owned() })
}

} // verus!
