//! What holds of every table that the construction yields: it accepts the
//! language of its pattern, and it is the only table of that pattern.

use vstd::prelude::*;
use crate::alphabet::{
    in_sigma,
    lemma_index_round_trip,
    lemma_symbol_round_trip,
    symbol_at,
    symbol_index,
    SIGMA_LEN,
};
use crate::builder::{
    before,
    cell_ok,
    compiled,
    found_ok,
    grid,
    lemma_accepting_list,
    low_before,
    tabulates,
};
use crate::compiler::{compile_result, compiles_to};
use crate::fronts::{lang, lemma_dead, lemma_next_front, lemma_start_front, next_front};
use crate::marks::cons;
use crate::nfa::has_state;
use crate::syntax::{lemma_matches_in_sigma, Regex};
use crate::table::{all_in_sigma, lemma_run_split, TransitionTable};

verus! {

/// A table of a pattern is well formed.
pub proof fn lemma_compiled_wf(t: TransitionTable, r: Regex)
    requires
        compiled(t, r),
    ensures
        t.wf(),
{
    let (ks, found) = choose|ks: Seq<Seq<bool>>, found: Seq<(int, int)>|
        tabulates(grid(t.rows@), t.accept@, r, ks, found);
    let g = grid(t.rows@);
    lemma_accepting_list(ks, ks.len() as int);
    assert forall|q: int| 0 <= q < t.rows@.len() implies (#[trigger] t.rows@[q])@.len()
        == SIGMA_LEN as nat by {
        assert(g[q].len() == SIGMA_LEN as nat);
    }
    assert forall|q: int, a: int|
        0 <= q < t.rows@.len() && 0 <= a < SIGMA_LEN as int implies (
    #[trigger] t.rows@[q]@[a] matches Some(x) ==> x < t.rows@.len()) by {
        assert(cell_ok(r, ks, q, a, g[q][a]));
    }
}

/// In a table of a pattern with the fronts `ks`, the strings that lead from
/// state `s` to acceptance are those that lead from its front to a match.
proof fn lemma_state_language(
    t: TransitionTable,
    r: Regex,
    ks: Seq<Seq<bool>>,
    found: Seq<(int, int)>,
    s: int,
    w: Seq<char>,
)
    requires
        tabulates(grid(t.rows@), t.accept@, r, ks, found),
        0 <= s < ks.len(),
        all_in_sigma(w),
    ensures
        t.accepts_from(s, w) == lang(r, ks[s], w),
    decreases w.len(),
{
    let g = grid(t.rows@);
    lemma_accepting_list(ks, ks.len() as int);
    if w.len() == 0 {
        assert(t.run(s, w) == Some(s));
        assert(t.is_accepting(s) == has_state(t.accept@, s));
    } else {
        let c = w[0];
        let v = w.drop_first();
        let a = symbol_index(c);
        lemma_symbol_round_trip(c);
        assert(w =~= cons(c, v));
        assert(g[s].len() == SIGMA_LEN as nat);
        assert(cell_ok(r, ks, s, a, g[s][a]));
        assert(all_in_sigma(v)) by {
            assert forall|i: int| 0 <= i < v.len() implies in_sigma(#[trigger] v[i]) by {
                assert(v[i] == w[i + 1]);
            }
        }
        match g[s][a] {
            Some(j) => {
                assert(t.cell(s, a) == Some(j as int));
                lemma_state_language(t, r, ks, found, j as int, v);
                lemma_next_front(r, ks[s], c, v);
            },
            None => {
                assert(t.cell(s, a).is_none());
                lemma_dead(r, ks[s], c, v);
            },
        }
    }
}

/// A table of a pattern accepts exactly the strings that the pattern
/// matches.
pub proof fn lemma_compiled_language(t: TransitionTable, r: Regex, w: Seq<char>)
    requires
        compiled(t, r),
    ensures
        t.accepts(w) == r.matches(w),
{
    let (ks, found) = choose|ks: Seq<Seq<bool>>, found: Seq<(int, int)>|
        tabulates(grid(t.rows@), t.accept@, r, ks, found);
    if all_in_sigma(w) {
        lemma_state_language(t, r, ks, found, 0, w);
        lemma_start_front(r, w);
    } else {
        if r.matches(w) {
            lemma_matches_in_sigma(r, w);
        }
    }
}

/// In a table of a pattern with the fronts `ks`, some string of symbols
/// leads from the start state to state `j`.
proof fn lemma_state_reachable(
    t: TransitionTable,
    r: Regex,
    ks: Seq<Seq<bool>>,
    found: Seq<(int, int)>,
    j: int,
) -> (w: Seq<char>)
    requires
        tabulates(grid(t.rows@), t.accept@, r, ks, found),
        0 <= j < ks.len(),
    ensures
        all_in_sigma(w),
        t.run(0, w) == Some(j),
    decreases j,
{
    if j == 0 {
        Seq::empty()
    } else {
        let g = grid(t.rows@);
        assert(found_ok(g, found, j));
        let s = found[j].0;
        let a = found[j].1;
        let v = lemma_state_reachable(t, r, ks, found, s);
        let c = symbol_at(a);
        let w = v.push(c);
        assert(g[s].len() == SIGMA_LEN as nat);
        lemma_index_round_trip(a);
        lemma_run_split(&t, 0, w, v.len() as int);
        assert(w.subrange(0, v.len() as int) =~= v);
        let tail = w.subrange(v.len() as int, w.len() as int);
        assert(tail[0] == c);
        assert(tail.drop_first() =~= Seq::<char>::empty());
        assert(t.cell(s, a) == Some(j));
        assert(t.run(j, tail.drop_first()) == Some(j));
        w
    }
}

/// No row of a table of a pattern is idle: for every state, some string of
/// symbols leads from the start state to it.
pub proof fn lemma_every_state_reachable(t: TransitionTable, r: Regex, j: int) -> (w: Seq<char>)
    requires
        compiled(t, r),
        0 <= j < t.states(),
    ensures
        all_in_sigma(w),
        t.run(0, w) == Some(j),
{
    let (ks, found) = choose|ks: Seq<Seq<bool>>, found: Seq<(int, int)>|
        tabulates(grid(t.rows@), t.accept@, r, ks, found);
    lemma_state_reachable(t, r, ks, found, j)
}

/// Two tables of one pattern agree on the front of every state that the
/// first has.
proof fn lemma_same_front(
    r: Regex,
    g1: Seq<Seq<Option<usize>>>,
    a1: Seq<usize>,
    ks1: Seq<Seq<bool>>,
    f1: Seq<(int, int)>,
    g2: Seq<Seq<Option<usize>>>,
    a2: Seq<usize>,
    ks2: Seq<Seq<bool>>,
    f2: Seq<(int, int)>,
    j: int,
)
    requires
        tabulates(g1, a1, r, ks1, f1),
        tabulates(g2, a2, r, ks2, f2),
        0 <= j < ks1.len(),
    ensures
        j < ks2.len(),
        ks1[j] == ks2[j],
    decreases j,
{
    if j > 0 {
        assert(found_ok(g1, f1, j));
        let s = f1[j].0;
        let a = f1[j].1;
        lemma_same_front(r, g1, a1, ks1, f1, g2, a2, ks2, f2, s);
        assert(g1[s].len() == SIGMA_LEN as nat);
        assert(g2[s].len() == SIGMA_LEN as nat);
        assert(cell_ok(r, ks1, s, a, g1[s][a]));
        assert(cell_ok(r, ks2, s, a, g2[s][a]));
        let front = next_front(r, ks1[s], symbol_at(a));
        let j2 = g2[s][a].unwrap() as int;
        assert(ks2[j2] == front);
        if j2 < j {
            lemma_same_front(r, g1, a1, ks1, f1, g2, a2, ks2, f2, j2);
            assert(ks1[j2] != ks1[j]);
        } else if j2 > j {
            assert(found_ok(g2, f2, j));
            let s2 = f2[j].0;
            let b2 = f2[j].1;
            assert(low_before(g2, s2, b2, j));
            assert(before(s2, b2, s, a)) by {
                if before(s, a, s2, b2) {
                    assert(g2[s][a] matches Some(x) ==> x < j);
                }
            }
            lemma_same_front(r, g1, a1, ks1, f1, g2, a2, ks2, f2, s2);
            assert(g2[s2].len() == SIGMA_LEN as nat);
            assert(g1[s2].len() == SIGMA_LEN as nat);
            assert(cell_ok(r, ks2, s2, b2, g2[s2][b2]));
            assert(cell_ok(r, ks1, s2, b2, g1[s2][b2]));
            let j1 = g1[s2][b2].unwrap() as int;
            assert(low_before(g1, s, a, j));
            assert(g1[s2][b2] matches Some(x) ==> x < j);
            lemma_same_front(r, g1, a1, ks1, f1, g2, a2, ks2, f2, j1);
            assert(ks2[j1] != ks2[j]);
        }
    }
}

/// Compiling is a function of the pattern: two tables of one pattern have
/// the same rows and the same accepting states.
pub proof fn lemma_compiled_unique(t1: TransitionTable, t2: TransitionTable, r: Regex)
    requires
        compiled(t1, r),
        compiled(t2, r),
    ensures
        grid(t1.rows@) == grid(t2.rows@),
        t1.accept@ == t2.accept@,
{
    let (ks1, f1) = choose|ks: Seq<Seq<bool>>, found: Seq<(int, int)>|
        tabulates(grid(t1.rows@), t1.accept@, r, ks, found);
    let (ks2, f2) = choose|ks: Seq<Seq<bool>>, found: Seq<(int, int)>|
        tabulates(grid(t2.rows@), t2.accept@, r, ks, found);
    let g1 = grid(t1.rows@);
    let g2 = grid(t2.rows@);
    if ks1.len() > ks2.len() {
        lemma_same_front(r, g1, t1.accept@, ks1, f1, g2, t2.accept@, ks2, f2, ks2.len() as int);
    }
    if ks2.len() > ks1.len() {
        lemma_same_front(r, g2, t2.accept@, ks2, f2, g1, t1.accept@, ks1, f1, ks1.len() as int);
    }
    assert forall|j: int| 0 <= j < ks1.len() implies ks1[j] == ks2[j] by {
        lemma_same_front(r, g1, t1.accept@, ks1, f1, g2, t2.accept@, ks2, f2, j);
    }
    assert(ks1 =~= ks2);
    assert forall|s: int| 0 <= s < g1.len() implies g1[s] == g2[s] by {
        assert(g1[s].len() == SIGMA_LEN as nat);
        assert(g2[s].len() == SIGMA_LEN as nat);
        assert forall|a: int| 0 <= a < SIGMA_LEN as int implies g1[s][a] == g2[s][a] by {
            assert(cell_ok(r, ks1, s, a, g1[s][a]));
            assert(cell_ok(r, ks2, s, a, g2[s][a]));
            if g1[s][a].is_some() {
                let x = g1[s][a].unwrap() as int;
                let y = g2[s][a].unwrap() as int;
                if x < y {
                    assert(ks1[x] != ks1[y]);
                }
                if y < x {
                    assert(ks1[y] != ks1[x]);
                }
            }
        }
        assert(g1[s] =~= g2[s]);
    }
    assert(g1 =~= g2);
}

/// Compiling a pattern twice gives the same table: any two tables of the
/// same characters have the same rows and the same accepting states.
pub proof fn lemma_compile_deterministic(s: Seq<char>, t1: TransitionTable, t2: TransitionTable)
    requires
        compiles_to(s, t1),
        compiles_to(s, t2),
    ensures
        grid(t1.rows@) == grid(t2.rows@),
        t1.accept@ == t2.accept@,
{
    lemma_compiled_unique(t1, t2, compile_result(s).unwrap());
}

} // verus!
