//! The subset construction: from the position automaton of a pattern to its
//! transition table.

use vstd::prelude::*;
use crate::alphabet::{symbol_at, symbol_of, SIGMA_LEN};
use crate::fronts::{
    distinct_fronts,
    front_of,
    hit,
    lemma_fronts_bound,
    next_front,
    start_front,
    two_to,
};
use crate::marks::unmarked;
use crate::nfa::{
    built,
    has_state,
    lemma_has_state_prefix,
    lemma_has_state_push,
    paren_add,
    states_below,
    Nfa,
};
use crate::positions::{
    class_at,
    follows,
    is_first,
    is_last,
    lemma_fin_last,
    marked_before,
    marked_last,
};
use crate::syntax::Regex;
use crate::table::{new_table_row, TransitionTable};

verus! {

/// The automaton `nfa` with the final frontier `last` is the position
/// automaton of `r`: state 0 leads to the first positions, every position to
/// those that can follow it, and the final frontier holds the last positions,
/// and state 0 where `r` matches the empty string.
pub open spec fn describes(nfa: Nfa, last: Seq<usize>, r: Regex) -> bool {
    &&& nfa.wf()
    &&& nfa.states() == r.size() + 1
    &&& forall|q: int| 1 <= q <= r.size() ==> #[trigger] nfa.reads@[q] == class_at(r, q - 1)
    &&& forall|p: int, q: int| #[trigger]
        nfa.edge(p, q) <==> 1 <= q <= r.size() && ((p == 0 && is_first(r, q - 1)) || (1 <= p
            <= r.size() && follows(r, p - 1, q - 1)))
    &&& forall|s: int| #[trigger]
        has_state(last, s) <==> (1 <= s <= r.size() && is_last(r, s - 1)) || (r.nullable() && s
            == 0)
}

/// Builds the position automaton of `r` and its final frontier.
pub fn position_automaton(r: &Regex) -> (res: (Nfa, Vec<usize>))
    ensures
        describes(res.0, res.1@, *r),
{
    let mut nfa = Nfa::new();
    let mut frontier: Vec<usize> = Vec::new();
    frontier.push(0);
    let ghost o = nfa;
    let ghost f = frontier@;
    proof {
        assert(f[0] as int == 0);
    }
    paren_add(r, &mut nfa, &mut frontier);
    proof {
        assert(built(o, nfa, *r, f, frontier@));
        assert forall|p: int| has_state(f, p) <==> p == 0 by {
            if p == 0 {
                assert(f[0] as int == p);
            }
        }
    }
    (nfa, frontier)
}

/// A state of `subset` below `upto` leads to state `q`.
pub open spec fn reached(nfa: Nfa, subset: Seq<bool>, upto: int, q: int) -> bool {
    exists|p: int| 0 <= p < upto && #[trigger] subset[p] && nfa.edge(p, q)
}

/// A state of `subset` is among the first `upto` states of `last`.
pub open spec fn ends(last: Seq<usize>, subset: Seq<bool>, upto: int) -> bool {
    exists|i: int| 0 <= i < upto && subset[#[trigger] last[i] as int]
}

/// The front of a set of states: slot 0 says whether one of them is in the
/// final frontier, every other slot whether its state follows one of them.
pub open spec fn nfa_front(nfa: Nfa, last: Seq<usize>, subset: Seq<bool>) -> Seq<bool> {
    Seq::new(
        nfa.states(),
        |q: int|
            if q == 0 {
                ends(last, subset, last.len() as int)
            } else {
                reached(nfa, subset, subset.len() as int, q)
            },
    )
}

/// The states that a front expects and that read `c`.
pub open spec fn nfa_hit(nfa: Nfa, k: Seq<bool>, c: char) -> Seq<bool> {
    Seq::new(nfa.states(), |q: int| q >= 1 && k[q] && nfa.reads@[q].has(c))
}

/// `n` times `false`.
fn blank(n: usize) -> (v: Vec<bool>)
    ensures
        v@.len() == n,
        forall|i: int| 0 <= i < n ==> !#[trigger] v@[i],
{
    let mut v: Vec<bool> = Vec::new();
    let mut i: usize = 0;
    while i < n
        invariant
            i <= n,
            v@.len() == i,
            forall|j: int| 0 <= j < i ==> !#[trigger] v@[j],
        decreases n - i,
    {
        v.push(false);
        i += 1;
    }
    v
}

/// Sets the slots of the states of `targets`.
fn mark_all(k: &mut Vec<bool>, targets: &Vec<usize>)
    requires
        states_below(targets@, old(k)@.len() as int),
    ensures
        final(k)@.len() == old(k)@.len(),
        forall|q: int|
            0 <= q < old(k)@.len() ==> (#[trigger] final(k)@[q] == (old(k)@[q] || has_state(
                targets@,
                q,
            ))),
{
    let mut j: usize = 0;
    while j < targets.len()
        invariant
            j <= targets@.len(),
            k@.len() == old(k)@.len(),
            states_below(targets@, k@.len() as int),
            forall|q: int|
                0 <= q < k@.len() ==> (#[trigger] k@[q] == (old(k)@[q] || has_state(
                    targets@.subrange(0, j as int),
                    q,
                ))),
        decreases targets@.len() - j,
    {
        let t = targets[j];
        k[t] = true;
        proof {
            lemma_has_state_prefix(targets@, j as int);
        }
        j += 1;
    }
    proof {
        assert(targets@.subrange(0, targets@.len() as int) =~= targets@);
    }
}

/// Computes the front of a set of states.
pub fn expect_after(nfa: &Nfa, last: &Vec<usize>, subset: &Vec<bool>) -> (k: Vec<bool>)
    requires
        nfa.wf(),
        nfa.states() >= 1,
        subset@.len() == nfa.states(),
        states_below(last@, nfa.states() as int),
    ensures
        k@ == nfa_front(*nfa, last@, subset@),
{
    let n = nfa.next.len();
    let mut k = blank(n);
    let mut p: usize = 0;
    while p < n
        invariant
            p <= n,
            n == nfa.states(),
            nfa.wf(),
            subset@.len() == n,
            k@.len() == n,
            forall|q: int| 0 <= q < n ==> #[trigger] k@[q] == reached(*nfa, subset@, p as int, q),
        decreases n - p,
    {
        if subset[p] {
            mark_all(&mut k, &nfa.next[p]);
        }
        proof {
            assert forall|q: int| 0 <= q < n implies #[trigger] k@[q] == reached(
                *nfa,
                subset@,
                p + 1,
                q,
            ) by {
                if reached(*nfa, subset@, p + 1, q) {
                    let x = choose|x: int|
                        0 <= x < p + 1 && #[trigger] subset@[x] && nfa.edge(x, q);
                    if x < p {
                        assert(reached(*nfa, subset@, p as int, q));
                    }
                }
                if reached(*nfa, subset@, p as int, q) {
                    let x = choose|x: int| 0 <= x < p && #[trigger] subset@[x] && nfa.edge(x, q);
                    assert(subset@[x] && nfa.edge(x, q));
                }
                if subset@[p as int] && has_state(nfa.next@[p as int]@, q) {
                    assert(subset@[p as int] && nfa.edge(p as int, q));
                }
            }
        }
        p += 1;
    }
    let mut done = false;
    let mut i: usize = 0;
    while i < last.len()
        invariant
            i <= last@.len(),
            subset@.len() == n,
            states_below(last@, n as int),
            done == ends(last@, subset@, i as int),
        decreases last@.len() - i,
    {
        if subset[last[i]] {
            done = true;
        }
        proof {
            if ends(last@, subset@, i + 1) {
                let x = choose|x: int| 0 <= x < i + 1 && subset@[#[trigger] last@[x] as int];
                if x < i {
                    assert(ends(last@, subset@, i as int));
                }
            }
            if ends(last@, subset@, i as int) {
                let x = choose|x: int| 0 <= x < i && subset@[#[trigger] last@[x] as int];
                assert(subset@[last@[x] as int]);
            }
            if subset@[last@[i as int] as int] {
                assert(ends(last@, subset@, i + 1));
            }
        }
        i += 1;
    }
    k[0] = done;
    proof {
        assert(k@ =~= nfa_front(*nfa, last@, subset@));
    }
    k
}

/// Computes the states that a front expects and that read `c`, and tells
/// whether there is any.
pub fn reached_by(nfa: &Nfa, k: &Vec<bool>, c: char) -> (res: (Vec<bool>, bool))
    requires
        nfa.wf(),
        nfa.states() >= 1,
        k@.len() == nfa.states(),
    ensures
        res.0@ == nfa_hit(*nfa, k@, c),
        res.1 == !unmarked(res.0@),
{
    let n = nfa.next.len();
    let mut h = blank(n);
    let mut any = false;
    let mut q: usize = 1;
    while q < n
        invariant
            1 <= q <= n,
            n == nfa.states(),
            nfa.reads@.len() == n,
            k@.len() == n,
            h@.len() == n,
            forall|x: int|
                0 <= x < q ==> #[trigger] h@[x] == (x >= 1 && k@[x] && nfa.reads@[x].has(c)),
            forall|x: int| q <= x < n ==> !#[trigger] h@[x],
            any == !unmarked(h@),
        decreases n - q,
    {
        if k[q] && nfa.reads[q].reads(c) {
            h[q] = true;
            any = true;
            proof {
                assert(h@[q as int]);
            }
        }
        q += 1;
    }
    proof {
        assert(h@ =~= nfa_hit(*nfa, k@, c));
    }
    (h, any)
}

/// Looks for a front among those found so far.
fn find_front(fronts: &Vec<Vec<bool>>, k: &Vec<bool>) -> (r: Option<usize>)
    ensures
        match r {
            Some(j) => j < fronts@.len() && fronts@[j as int]@ == k@,
            None => forall|j: int| 0 <= j < fronts@.len() ==> (#[trigger] fronts@[j])@ != k@,
        },
{
    let mut j: usize = 0;
    while j < fronts.len()
        invariant
            j <= fronts@.len(),
            forall|i: int| 0 <= i < j ==> (#[trigger] fronts@[i])@ != k@,
        decreases fronts@.len() - j,
    {
        if same_front(&fronts[j], k) {
            return Some(j);
        }
        j += 1;
    }
    None
}

/// Tells whether two fronts are the same.
fn same_front(a: &Vec<bool>, b: &Vec<bool>) -> (r: bool)
    ensures
        r == (a@ == b@),
{
    if a.len() != b.len() {
        return false;
    }
    let mut i: usize = 0;
    while i < a.len()
        invariant
            i <= a@.len(),
            a@.len() == b@.len(),
            forall|j: int| 0 <= j < i ==> a@[j] == b@[j],
        decreases a@.len() - i,
    {
        if a[i] != b[i] {
            return false;
        }
        i += 1;
    }
    proof {
        assert(a@ =~= b@);
    }
    true
}

/// The front of a set of states is the front of its marks.
pub proof fn lemma_front_bridge(nfa: Nfa, last: Seq<usize>, r: Regex, subset: Seq<bool>)
    requires
        describes(nfa, last, r),
        subset.len() == r.size() + 1,
    ensures
        nfa_front(nfa, last, subset) == front_of(
            r,
            subset[0],
            subset.subrange(1, subset.len() as int),
        ),
{
    let n = r.size() as int;
    let e = subset[0];
    let m = subset.subrange(1, n + 1);
    let k1 = nfa_front(nfa, last, subset);
    let k2 = front_of(r, e, m);
    lemma_fin_last(r, m);
    assert forall|q: int| 0 <= q <= n implies k1[q] == k2[q] by {
        if q == 0 {
            if ends(last, subset, last.len() as int) {
                let i = choose|i: int|
                    0 <= i < last.len() && subset[#[trigger] last[i] as int];
                let s = last[i] as int;
                assert(has_state(last, s));
                if s >= 1 {
                    assert(m[s - 1]);
                    assert(marked_last(r, m));
                }
            }
            if e && r.nullable() {
                assert(has_state(last, 0));
                let i = choose|i: int| 0 <= i < last.len() && #[trigger] last[i] as int == 0;
                assert(subset[last[i] as int]);
            }
            if marked_last(r, m) {
                let p = choose|p: int| 0 <= p < m.len() && #[trigger] m[p] && is_last(r, p);
                assert(has_state(last, p + 1));
                let i = choose|i: int| 0 <= i < last.len() && #[trigger] last[i] as int == p + 1;
                assert(subset[last[i] as int]);
            }
        } else {
            if reached(nfa, subset, subset.len() as int, q) {
                let p = choose|p: int|
                    0 <= p < subset.len() && #[trigger] subset[p] && nfa.edge(p, q);
                if p >= 1 {
                    assert(m[p - 1]);
                    assert(marked_before(r, m, q - 1));
                }
            }
            if e && is_first(r, q - 1) {
                assert(subset[0] && nfa.edge(0, q));
            }
            if marked_before(r, m, q - 1) {
                let p = choose|p: int| 0 <= p < m.len() && #[trigger] m[p] && follows(r, p, q - 1);
                assert(subset[p + 1] && nfa.edge(p + 1, q));
            }
        }
    }
    assert(k1 =~= k2);
}

/// The states that read `c` are the positions that read `c`.
pub proof fn lemma_hit_bridge(nfa: Nfa, last: Seq<usize>, r: Regex, k: Seq<bool>, c: char)
    requires
        describes(nfa, last, r),
        k.len() == r.size() + 1,
    ensures
        nfa_hit(nfa, k, c).len() == r.size() + 1,
        !nfa_hit(nfa, k, c)[0],
        nfa_hit(nfa, k, c).subrange(1, r.size() as int + 1) == hit(r, k, c),
        unmarked(nfa_hit(nfa, k, c)) == unmarked(hit(r, k, c)),
{
    let h1 = nfa_hit(nfa, k, c);
    let h2 = hit(r, k, c);
    assert(h1.subrange(1, r.size() as int + 1) =~= h2);
    if !unmarked(h1) {
        let q = choose|q: int| 0 <= q < h1.len() && #[trigger] h1[q];
        assert(h2[q - 1]);
    }
    if !unmarked(h2) {
        let q = choose|q: int| 0 <= q < h2.len() && #[trigger] h2[q];
        assert(h1[q + 1]);
    }
}

/// Cell `(s1, a1)` comes before cell `(s2, a2)` when the rows are read one
/// after the other, each from its first column.
pub open spec fn before(s1: int, a1: int, s2: int, a2: int) -> bool {
    s1 < s2 || (s1 == s2 && a1 < a2)
}

/// The cell of state `s` and column `a` holds what the fronts say: nothing
/// where no expected position reads the symbol, and else the state whose
/// front comes next.
pub open spec fn cell_ok(r: Regex, ks: Seq<Seq<bool>>, s: int, a: int, v: Option<usize>) -> bool {
    match v {
        Some(j) => j < ks.len() && !unmarked(hit(r, ks[s], symbol_at(a))) && ks[j as int]
            == next_front(r, ks[s], symbol_at(a)),
        None => unmarked(hit(r, ks[s], symbol_at(a))),
    }
}

/// The rows of a table as plain values.
pub open spec fn grid(rows: Seq<Vec<Option<usize>>>) -> Seq<Seq<Option<usize>>> {
    Seq::new(rows.len(), |s: int| rows[s]@)
}

/// The fronts of a list as plain values.
pub open spec fn views(fronts: Seq<Vec<bool>>) -> Seq<Seq<bool>> {
    Seq::new(fronts.len(), |s: int| fronts[s]@)
}

/// Every cell before `(s, a)` is empty or names a state below `j`.
pub open spec fn low_before(g: Seq<Seq<Option<usize>>>, s: int, a: int, j: int) -> bool {
    forall|x: int, y: int|
        0 <= x < g.len() && 0 <= y < g[x].len() && before(x, y, s, a) ==> (
        #[trigger] g[x][y] matches Some(t) ==> t < j)
}

/// State `j` was found at the cell `found[j]`: the cell lies in the row of
/// an earlier state, names `j`, and no cell before it names `j` or a later
/// state.
pub open spec fn found_ok(g: Seq<Seq<Option<usize>>>, found: Seq<(int, int)>, j: int) -> bool {
    let s = found[j].0;
    let a = found[j].1;
    &&& 0 <= s < j
    &&& s < g.len()
    &&& 0 <= a < g[s].len()
    &&& g[s][a] == Some(j as usize)
    &&& low_before(g, s, a, j)
}

/// The states below `upto` whose front says that the input is a match, in
/// rising order.
pub open spec fn accepting_list(ks: Seq<Seq<bool>>, upto: int) -> Seq<usize>
    decreases upto,
{
    if upto <= 0 {
        Seq::empty()
    } else if ks[upto - 1][0] {
        accepting_list(ks, upto - 1).push((upto - 1) as usize)
    } else {
        accepting_list(ks, upto - 1)
    }
}

/// The grid `g` and the list `accept` are the table of `r`, with `ks[s]` the
/// front of state `s` and `found[s]` the cell at which state `s` was found:
/// state 0 has the start front, no two states have the same front, every
/// cell holds what the fronts say, the states are numbered in the order in
/// which the cells first name them, and the accepting states are those whose
/// front says so.
pub open spec fn tabulates(
    g: Seq<Seq<Option<usize>>>,
    accept: Seq<usize>,
    r: Regex,
    ks: Seq<Seq<bool>>,
    found: Seq<(int, int)>,
) -> bool {
    &&& 1 <= ks.len() <= usize::MAX
    &&& g.len() == ks.len()
    &&& found.len() == ks.len()
    &&& distinct_fronts(ks, r.size() + 1)
    &&& ks[0] == start_front(r)
    &&& forall|s: int| 0 <= s < g.len() ==> (#[trigger] g[s]).len() == SIGMA_LEN as nat
    &&& forall|s: int, a: int|
        0 <= s < g.len() && 0 <= a < SIGMA_LEN as int ==> cell_ok(r, ks, s, a, #[trigger] g[s][a])
    &&& forall|j: int| 1 <= j < ks.len() ==> #[trigger] found_ok(g, found, j)
    &&& accept == accepting_list(ks, ks.len() as int)
}

/// The table `t` is the table of the pattern `r`.
pub open spec fn compiled(t: TransitionTable, r: Regex) -> bool {
    exists|ks: Seq<Seq<bool>>, found: Seq<(int, int)>|
        tabulates(grid(t.rows@), t.accept@, r, ks, found)
}

/// The accepting list holds exactly the states below `upto` whose front says
/// that the input is a match.
pub proof fn lemma_accepting_list(ks: Seq<Seq<bool>>, upto: int)
    requires
        0 <= upto <= ks.len(),
        upto <= usize::MAX,
    ensures
        forall|q: int| #[trigger]
            has_state(accepting_list(ks, upto), q) <==> 0 <= q < upto && ks[q][0],
        states_below(accepting_list(ks, upto), upto),
    decreases upto,
{
    let l = accepting_list(ks, upto);
    if upto > 0 {
        lemma_accepting_list(ks, upto - 1);
        let p = accepting_list(ks, upto - 1);
        if ks[upto - 1][0] {
            lemma_has_state_push(p, (upto - 1) as usize);
        }
        assert forall|q: int| #[trigger] has_state(l, q) <==> 0 <= q < upto && ks[q][0] by {
            assert(has_state(p, q) <==> 0 <= q < upto - 1 && ks[q][0]);
        }
        assert forall|k: int| 0 <= k < l.len() implies (#[trigger] l[k] as int) < upto by {
            if k < p.len() {
                assert((p[k] as int) < upto - 1);
            }
        }
    } else {
        assert forall|q: int| !has_state(l, q) by {}
    }
}

proof fn lemma_cell_ok_grow(
    r: Regex,
    ks: Seq<Seq<bool>>,
    ks2: Seq<Seq<bool>>,
    s: int,
    a: int,
    v: Option<usize>,
)
    requires
        cell_ok(r, ks, s, a, v),
        0 <= s < ks.len(),
        ks.len() <= ks2.len(),
        forall|i: int| 0 <= i < ks.len() ==> ks2[i] == ks[i],
    ensures
        cell_ok(r, ks2, s, a, v),
{
}

/// A state stays found where the grid changes only at or behind the cell
/// `(s, a)` and the state was found before that cell.
proof fn lemma_found_keep(
    g: Seq<Seq<Option<usize>>>,
    g2: Seq<Seq<Option<usize>>>,
    found: Seq<(int, int)>,
    found2: Seq<(int, int)>,
    j: int,
    s: int,
    a: int,
)
    requires
        found_ok(g, found, j),
        0 <= j < found.len(),
        j < found2.len(),
        found2[j] == found[j],
        before(found[j].0, found[j].1, s, a),
        g.len() <= g2.len(),
        forall|x: int| 0 <= x < g.len() ==> (#[trigger] g2[x]).len() == g[x].len(),
        forall|x: int, y: int|
            0 <= x < g.len() && 0 <= y < g[x].len() && before(x, y, s, a) ==> #[trigger] g2[x][y]
                == g[x][y],
    ensures
        found_ok(g2, found2, j),
{
    let fs = found[j].0;
    let fa = found[j].1;
    assert(g2[fs][fa] == g[fs][fa]);
    assert forall|x: int, y: int|
        0 <= x < g2.len() && 0 <= y < g2[x].len() && before(x, y, fs, fa) implies (
    #[trigger] g2[x][y] matches Some(t) ==> t < j) by {
        assert(x <= fs);
        assert(before(x, y, s, a));
        assert(g2[x][y] == g[x][y]);
    }
}

/// Where the construction stands when the rows before `s` are complete and
/// row `s` is filled up to column `a`: `g` holds the rows so far, `ks` the
/// fronts of the states found so far and `found` the cells at which they
/// were found.
pub open spec fn progress(
    r: Regex,
    g: Seq<Seq<Option<usize>>>,
    ks: Seq<Seq<bool>>,
    found: Seq<(int, int)>,
    s: int,
    a: int,
) -> bool {
    &&& found.len() == ks.len()
    &&& 0 <= s < ks.len()
    &&& g.len() == s + 1
    &&& 0 <= a <= SIGMA_LEN as int
    &&& distinct_fronts(ks, r.size() + 1)
    &&& ks[0] == start_front(r)
    &&& forall|x: int| 0 <= x <= s ==> (#[trigger] g[x]).len() == SIGMA_LEN as nat
    &&& forall|x: int, y: int|
        0 <= x <= s && 0 <= y < SIGMA_LEN as int && before(x, y, s, a) ==> cell_ok(
            r,
            ks,
            x,
            y,
            #[trigger] g[x][y],
        )
    &&& forall|y: int| a <= y < SIGMA_LEN as int ==> (#[trigger] g[s][y]).is_none()
    &&& forall|j: int| 1 <= j < ks.len() ==> #[trigger] found_ok(g, found, j)
    &&& forall|j: int| 1 <= j < ks.len() ==> before((#[trigger] found[j]).0, found[j].1, s, a)
}

/// The grid `g` with the cell of row `s` and column `a` set to `v`.
pub open spec fn with_cell(g: Seq<Seq<Option<usize>>>, s: int, a: int, v: Option<usize>) -> Seq<
    Seq<Option<usize>>,
> {
    g.update(s, g[s].update(a, v))
}

/// Filling a cell with nothing, or with a state that was found before, moves
/// the construction on by one cell.
proof fn lemma_fill_known(
    r: Regex,
    g: Seq<Seq<Option<usize>>>,
    ks: Seq<Seq<bool>>,
    found: Seq<(int, int)>,
    s: int,
    a: int,
    v: Option<usize>,
)
    requires
        progress(r, g, ks, found, s, a),
        a < SIGMA_LEN as int,
        cell_ok(r, ks, s, a, v),
    ensures
        progress(r, with_cell(g, s, a, v), ks, found, s, a + 1),
{
    let g2 = with_cell(g, s, a, v);
    assert forall|x: int, y: int|
        0 <= x <= s && 0 <= y < SIGMA_LEN as int && before(x, y, s, a + 1) implies cell_ok(
        r,
        ks,
        x,
        y,
        #[trigger] g2[x][y],
    ) by {
        if x == s && y == a {
        } else {
            assert(g2[x][y] == g[x][y]);
            assert(before(x, y, s, a));
        }
    }
    assert forall|j: int| 1 <= j < ks.len() implies #[trigger] found_ok(g2, found, j) by {
        assert(found_ok(g, found, j));
        assert(before(found[j].0, found[j].1, s, a));
        lemma_found_keep(g, g2, found, found, j, s, a);
    }
    assert forall|j: int| 1 <= j < ks.len() implies before(
        (#[trigger] found[j]).0,
        found[j].1,
        s,
        a + 1,
    ) by {
        assert(before(found[j].0, found[j].1, s, a));
    }
}

/// Filling a cell with a state that is new moves the construction on by one
/// cell and one state.
proof fn lemma_fill_new(
    r: Regex,
    g: Seq<Seq<Option<usize>>>,
    ks: Seq<Seq<bool>>,
    found: Seq<(int, int)>,
    s: int,
    a: int,
    k: Seq<bool>,
)
    requires
        progress(r, g, ks, found, s, a),
        a < SIGMA_LEN as int,
        ks.len() <= usize::MAX,
        k == next_front(r, ks[s], symbol_at(a)),
        !unmarked(hit(r, ks[s], symbol_at(a))),
        forall|i: int| 0 <= i < ks.len() ==> #[trigger] ks[i] != k,
    ensures
        progress(
            r,
            with_cell(g, s, a, Some(ks.len() as usize)),
            ks.push(k),
            found.push((s, a)),
            s,
            a + 1,
        ),
{
    let j = ks.len() as int;
    let v = Some(j as usize);
    let g2 = with_cell(g, s, a, v);
    let ks2 = ks.push(k);
    let found2 = found.push((s, a));
    assert(distinct_fronts(ks2, r.size() + 1)) by {
        assert forall|x: int, y: int| 0 <= x < y < ks2.len() implies #[trigger] ks2[x]
            != #[trigger] ks2[y] by {
            if y < j {
                assert(ks[x] != ks[y]);
            } else {
                assert(ks[x] != k);
            }
        }
    }
    assert forall|x: int, y: int|
        0 <= x <= s && 0 <= y < SIGMA_LEN as int && before(x, y, s, a + 1) implies cell_ok(
        r,
        ks2,
        x,
        y,
        #[trigger] g2[x][y],
    ) by {
        if x == s && y == a {
            assert(g2[x][y] == v);
            assert(ks2[j] == k);
            assert(ks2[s] == ks[s]);
        } else {
            assert(g2[x][y] == g[x][y]);
            assert(before(x, y, s, a));
            lemma_cell_ok_grow(r, ks, ks2, x, y, g[x][y]);
        }
    }
    assert forall|i: int| 1 <= i < ks2.len() implies #[trigger] found_ok(g2, found2, i) by {
        if i < j {
            assert(found_ok(g, found, i));
            assert(before(found[i].0, found[i].1, s, a));
            lemma_found_keep(g, g2, found, found2, i, s, a);
        } else {
            assert(found2[i] == (s, a));
            assert(g2[s][a] == v);
            assert forall|x: int, y: int|
                0 <= x < g2.len() && 0 <= y < g2[x].len() && before(x, y, s, a) implies (
            #[trigger] g2[x][y] matches Some(t) ==> t < i) by {
                assert(g2[x][y] == g[x][y]);
                assert(cell_ok(r, ks, x, y, g[x][y]));
            }
        }
    }
    assert forall|i: int| 1 <= i < ks2.len() implies before(
        (#[trigger] found2[i]).0,
        found2[i].1,
        s,
        a + 1,
    ) by {
        if i < j {
            assert(before(found[i].0, found[i].1, s, a));
        }
    }
}

/// After a complete row the construction goes on with the next row, empty.
proof fn lemma_next_row(
    r: Regex,
    g: Seq<Seq<Option<usize>>>,
    ks: Seq<Seq<bool>>,
    found: Seq<(int, int)>,
    s: int,
    row: Seq<Option<usize>>,
)
    requires
        progress(r, g, ks, found, s, SIGMA_LEN as int),
        s + 1 < ks.len(),
        row.len() == SIGMA_LEN as nat,
        forall|y: int| 0 <= y < SIGMA_LEN as int ==> (#[trigger] row[y]).is_none(),
    ensures
        progress(r, g.push(row), ks, found, s + 1, 0),
{
    let g2 = g.push(row);
    assert forall|x: int, y: int|
        0 <= x <= s + 1 && 0 <= y < SIGMA_LEN as int && before(x, y, s + 1, 0) implies cell_ok(
        r,
        ks,
        x,
        y,
        #[trigger] g2[x][y],
    ) by {
        assert(g2[x][y] == g[x][y]);
        assert(before(x, y, s, SIGMA_LEN as int));
    }
    assert forall|j: int| 1 <= j < ks.len() implies #[trigger] found_ok(g2, found, j) by {
        assert(found_ok(g, found, j));
        assert(before(found[j].0, found[j].1, s, SIGMA_LEN as int));
        lemma_found_keep(g, g2, found, found, j, s + 1, 0);
    }
    assert forall|j: int| 1 <= j < ks.len() implies before(
        (#[trigger] found[j]).0,
        found[j].1,
        s + 1,
        0,
    ) by {
        assert(before(found[j].0, found[j].1, s, SIGMA_LEN as int));
        assert(found_ok(g, found, j));
    }
}

/// Once the row of the last state is complete, the grid is the table.
proof fn lemma_complete(
    r: Regex,
    g: Seq<Seq<Option<usize>>>,
    ks: Seq<Seq<bool>>,
    found: Seq<(int, int)>,
    s: int,
)
    requires
        progress(r, g, ks, found, s, SIGMA_LEN as int),
        s + 1 == ks.len(),
        ks.len() <= usize::MAX,
    ensures
        tabulates(g, accepting_list(ks, ks.len() as int), r, ks, found),
{
    assert forall|x: int, y: int| 0 <= x < g.len() && 0 <= y < SIGMA_LEN as int implies cell_ok(
        r,
        ks,
        x,
        y,
        #[trigger] g[x][y],
    ) by {
        assert(before(x, y, s, SIGMA_LEN as int));
    }
}

/// Builds the transition table of the pattern `r`.
///
/// State 0 is the start state. The states are numbered in the order in which
/// the cells, read row by row, first name them.
pub fn build_table(r: &Regex) -> (t: TransitionTable)
    ensures
        compiled(t, *r),
{
    let (nfa, last) = position_automaton(r);
    let n = nfa.next.len();
    proof {
        assert forall|i: int| 0 <= i < last@.len() implies (#[trigger] last@[i] as int) < n by {
            assert(has_state(last@, last@[i] as int));
        }
    }
    let mut start = blank(n);
    start[0] = true;
    let k0 = expect_after(&nfa, &last, &start);
    proof {
        lemma_front_bridge(nfa, last@, *r, start@);
        assert(start@.subrange(1, n as int) =~= Seq::new(r.size(), |q: int| false));
    }
    let mut fronts: Vec<Vec<bool>> = Vec::new();
    fronts.push(k0);
    let mut rows: Vec<Vec<Option<usize>>> = Vec::new();
    let mut row = new_table_row();
    let ghost mut found: Seq<(int, int)> = seq![(0int, 0int)];
    let mut s: usize = 0;
    let mut a: usize = 0;
    proof {
        lemma_fronts_bound(views(fronts@), n as nat);
        assert(views(fronts@)[0] == k0@);
    }
    while a < SIGMA_LEN || s < fronts.len() - 1
        invariant
            fronts@.len() >= 1,
            describes(nfa, last@, *r),
            n == nfa.states(),
            n == r.size() + 1,
            states_below(last@, n as int),
            rows@.len() == s,
            fronts@.len() <= two_to(n as nat),
            progress(*r, grid(rows@).push(row@), views(fronts@), found, s as int, a as int),
        decreases two_to(n as nat) - s, SIGMA_LEN - a,
    {
        let ghost ks = views(fronts@);
        let ghost g = grid(rows@).push(row@);
        if a == SIGMA_LEN {
            let fresh = new_table_row();
            proof {
                lemma_next_row(*r, g, ks, found, s as int, fresh@);
                assert(grid(rows@.push(row)).push(fresh@) =~= g.push(fresh@));
            }
            rows.push(row);
            row = fresh;
            s += 1;
            a = 0;
        } else {
            let c = symbol_of(a);
            assert(ks[s as int].len() == n);
            let (h, any) = reached_by(&nfa, &fronts[s], c);
            proof {
                lemma_hit_bridge(nfa, last@, *r, ks[s as int], c);
            }
            if any {
                let k = expect_after(&nfa, &last, &h);
                proof {
                    lemma_front_bridge(nfa, last@, *r, h@);
                    assert(k@ == next_front(*r, ks[s as int], c));
                }
                match find_front(&fronts, &k) {
                    Some(j) => {
                        row[a] = Some(j);
                        proof {
                            assert(ks[j as int] == k@);
                            lemma_fill_known(*r, g, ks, found, s as int, a as int, Some(j));
                            assert(grid(rows@).push(row@) =~= with_cell(
                                g,
                                s as int,
                                a as int,
                                Some(j),
                            ));
                        }
                    },
                    None => {
                        let j = fronts.len();
                        row[a] = Some(j);
                        proof {
                            assert forall|i: int| 0 <= i < ks.len() implies #[trigger] ks[i]
                                != k@ by {
                                assert(fronts@[i]@ != k@);
                            }
                            lemma_fill_new(*r, g, ks, found, s as int, a as int, k@);
                            found = found.push((s as int, a as int));
                            assert(grid(rows@).push(row@) =~= with_cell(
                                g,
                                s as int,
                                a as int,
                                Some(j),
                            ));
                        }
                        fronts.push(k);
                        proof {
                            assert(views(fronts@) =~= ks.push(k@));
                            lemma_fronts_bound(views(fronts@), n as nat);
                        }
                    },
                }
            } else {
                proof {
                    lemma_fill_known(*r, g, ks, found, s as int, a as int, None);
                    assert(g[s as int][a as int].is_none());
                    assert(g[s as int].update(a as int, None) =~= g[s as int]);
                    assert(g =~= with_cell(g, s as int, a as int, None));
                }
            }
            a += 1;
        }
    }
    proof {
        lemma_complete(*r, grid(rows@).push(row@), views(fronts@), found, s as int);
        assert(grid(rows@.push(row)) =~= grid(rows@).push(row@));
    }
    rows.push(row);
    let mut accept: Vec<usize> = Vec::new();
    let mut q: usize = 0;
    while q < fronts.len()
        invariant
            q <= fronts@.len(),
            distinct_fronts(views(fronts@), n as nat),
            n >= 1,
            accept@ == accepting_list(views(fronts@), q as int),
        decreases fronts@.len() - q,
    {
        assert(views(fronts@)[q as int].len() == n);
        if fronts[q][0] {
            accept.push(q);
        }
        q += 1;
    }
    let t = TransitionTable { rows, accept };
    proof {
        assert(tabulates(grid(t.rows@), t.accept@, *r, views(fronts@), found));
    }
    t
}

} // verus!
