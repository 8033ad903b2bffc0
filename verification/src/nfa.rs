//! The position automaton of a pattern, built step by step from frontiers.
//!
//! State 0 is the start state; every other state stands for one position of
//! the pattern and is entered by reading what that position reads. A
//! frontier is the set of states at which the part of the pattern built so
//! far can end; each step takes the frontier before it and leaves the
//! frontier after it.

use vstd::prelude::*;
use crate::positions::{class_at, follows, is_first, is_last, lemma_some_last};
use crate::syntax::{Class, Regex};

verus! {

/// An automaton with one state per position and a start state.
#[derive(Debug)]
pub struct Nfa {
    /// What is read on entering each state. The entry of state 0 is unused.
    pub reads: Vec<Class>,
    /// The states that can follow each state.
    pub next: Vec<Vec<usize>>,
}

/// State `s` is in the list `f`.
pub open spec fn has_state(f: Seq<usize>, s: int) -> bool {
    exists|k: int| 0 <= k < f.len() && #[trigger] f[k] as int == s
}

/// Every state of the list `f` is below `n`.
pub open spec fn states_below(f: Seq<usize>, n: int) -> bool {
    forall|k: int| 0 <= k < f.len() ==> (#[trigger] f[k] as int) < n
}

/// A list with one more state holds what it held, and that state.
pub proof fn lemma_has_state_push(f: Seq<usize>, t: usize)
    ensures
        forall|s: int| #[trigger] has_state(f.push(t), s) <==> has_state(f, s) || s == t,
{
    let g = f.push(t);
    assert forall|s: int| #[trigger] has_state(g, s) <==> has_state(f, s) || s == t by {
        if has_state(g, s) {
            let k = choose|k: int| 0 <= k < g.len() && #[trigger] g[k] as int == s;
            if k < f.len() {
                assert(f[k] as int == s);
            }
        }
        if has_state(f, s) {
            let k = choose|k: int| 0 <= k < f.len() && #[trigger] f[k] as int == s;
            assert(g[k] as int == s);
        }
        if s == t {
            assert(g[f.len() as int] as int == s);
        }
    }
}

/// The first `j + 1` states of a list are its first `j` states and the next
/// one.
pub proof fn lemma_has_state_prefix(f: Seq<usize>, j: int)
    requires
        0 <= j < f.len(),
    ensures
        forall|s: int| #[trigger]
            has_state(f.subrange(0, j + 1), s) <==> has_state(f.subrange(0, j), s) || s == f[j],
{
    assert(f.subrange(0, j + 1) =~= f.subrange(0, j).push(f[j]));
    lemma_has_state_push(f.subrange(0, j), f[j]);
}

impl Nfa {
    /// Number of states.
    pub open spec fn states(&self) -> nat {
        self.next@.len()
    }

    /// Every state has its class and names existing states only.
    pub open spec fn wf(&self) -> bool {
        &&& self.reads@.len() == self.next@.len()
        &&& forall|p: int|
            0 <= p < self.next@.len() ==> states_below(
                (#[trigger] self.next@[p])@,
                self.next@.len() as int,
            )
    }

    /// State `q` can follow state `p`.
    pub open spec fn edge(&self, p: int, q: int) -> bool {
        0 <= p < self.next@.len() && has_state(self.next@[p]@, q)
    }

    /// An automaton with the start state alone.
    pub fn new() -> (nfa: Nfa)
        ensures
            nfa.wf(),
            nfa.states() == 1,
            forall|p: int, q: int| !nfa.edge(p, q),
    {
        let mut reads: Vec<Class> = Vec::new();
        reads.push(Class::Word);
        let mut next: Vec<Vec<usize>> = Vec::new();
        next.push(Vec::new());
        Nfa { reads, next }
    }
}

/// What building the pattern `r` from the frontier `f` does to an automaton
/// `o`: the result `n` has one new state per position of `r`, in order; the
/// frontier leads to the first positions, every position leads to those that
/// can follow it, and nothing else is added. The frontier `g` afterwards
/// holds the last positions, and `f` too where `r` matches the empty string.
pub open spec fn built(o: Nfa, n: Nfa, r: Regex, f: Seq<usize>, g: Seq<usize>) -> bool {
    let base = o.states() as int;
    let top = base + r.size();
    &&& n.wf()
    &&& n.states() == top
    &&& forall|q: int| 0 <= q < base ==> #[trigger] n.reads@[q] == o.reads@[q]
    &&& forall|q: int| base <= q < top ==> #[trigger] n.reads@[q] == class_at(r, q - base)
    &&& forall|p: int, q: int| #[trigger]
        n.edge(p, q) <==> o.edge(p, q) || (base <= q < top && ((has_state(f, p) && is_first(
            r,
            q - base,
        )) || (base <= p < top && follows(r, p - base, q - base))))
    &&& forall|s: int| #[trigger]
        has_state(g, s) <==> (base <= s < top && is_last(r, s - base)) || (r.nullable()
            && has_state(f, s))
}

/// Lets state `to` follow state `from`.
pub fn add_to(nfa: &mut Nfa, from: usize, to: usize)
    requires
        old(nfa).wf(),
        from < old(nfa).states(),
        to < old(nfa).states(),
    ensures
        final(nfa).wf(),
        final(nfa).reads@ == old(nfa).reads@,
        final(nfa).states() == old(nfa).states(),
        forall|p: int, q: int| #[trigger]
            final(nfa).edge(p, q) <==> old(nfa).edge(p, q) || (p == from && q == to),
{
    let ghost before = nfa.next@[from as int]@;
    nfa.next[from].push(to);
    proof {
        let after = nfa.next@[from as int]@;
        assert(after == before.push(to));
        lemma_has_state_push(before, to);
        assert forall|p: int| 0 <= p < nfa.next@.len() implies states_below(
            (#[trigger] nfa.next@[p])@,
            nfa.next@.len() as int,
        ) by {
            if p != from {
                assert(nfa.next@[p] == old(nfa).next@[p]);
            } else {
                assert(states_below(old(nfa).next@[p]@, old(nfa).next@.len() as int));
            }
        }
        assert forall|p: int, q: int| #[trigger]
            nfa.edge(p, q) <==> old(nfa).edge(p, q) || (p == from && q == to) by {
            if 0 <= p < nfa.next@.len() && p != from {
                assert(nfa.next@[p] == old(nfa).next@[p]);
            }
        }
    }
}

/// Lets every state of `to` follow state `from`.
fn link_one(nfa: &mut Nfa, from: usize, to: &Vec<usize>)
    requires
        old(nfa).wf(),
        from < old(nfa).states(),
        states_below(to@, old(nfa).states() as int),
    ensures
        final(nfa).wf(),
        final(nfa).reads@ == old(nfa).reads@,
        final(nfa).states() == old(nfa).states(),
        forall|p: int, q: int| #[trigger]
            final(nfa).edge(p, q) <==> old(nfa).edge(p, q) || (p == from && has_state(to@, q)),
{
    let mut j: usize = 0;
    while j < to.len()
        invariant
            j <= to@.len(),
            nfa.wf(),
            nfa.reads@ == old(nfa).reads@,
            nfa.states() == old(nfa).states(),
            from < nfa.states(),
            states_below(to@, nfa.states() as int),
            forall|p: int, q: int| #[trigger]
                nfa.edge(p, q) <==> old(nfa).edge(p, q) || (p == from && has_state(
                    to@.subrange(0, j as int),
                    q,
                )),
        decreases to@.len() - j,
    {
        let ghost mid = *nfa;
        let t = to[j];
        add_to(nfa, from, t);
        proof {
            let b = to@.subrange(0, j + 1);
            lemma_has_state_prefix(to@, j as int);
            assert forall|p: int, q: int| #[trigger]
                nfa.edge(p, q) <==> old(nfa).edge(p, q) || (p == from && has_state(b, q)) by {
                assert(nfa.edge(p, q) <==> mid.edge(p, q) || (p == from && q == t));
            }
        }
        j += 1;
    }
    proof {
        assert(to@.subrange(0, to@.len() as int) =~= to@);
    }
}

/// Lets every state of `to` follow every state of `from`.
fn link_all(nfa: &mut Nfa, from: &Vec<usize>, to: &Vec<usize>)
    requires
        old(nfa).wf(),
        states_below(from@, old(nfa).states() as int),
        states_below(to@, old(nfa).states() as int),
    ensures
        final(nfa).wf(),
        final(nfa).reads@ == old(nfa).reads@,
        final(nfa).states() == old(nfa).states(),
        forall|p: int, q: int| #[trigger]
            final(nfa).edge(p, q) <==> old(nfa).edge(p, q) || (has_state(from@, p) && has_state(
                to@,
                q,
            )),
{
    let mut i: usize = 0;
    while i < from.len()
        invariant
            i <= from@.len(),
            nfa.wf(),
            nfa.reads@ == old(nfa).reads@,
            nfa.states() == old(nfa).states(),
            states_below(from@, nfa.states() as int),
            states_below(to@, nfa.states() as int),
            forall|p: int, q: int| #[trigger]
                nfa.edge(p, q) <==> old(nfa).edge(p, q) || (has_state(
                    from@.subrange(0, i as int),
                    p,
                ) && has_state(to@, q)),
        decreases from@.len() - i,
    {
        let ghost mid = *nfa;
        let s = from[i];
        link_one(nfa, s, to);
        proof {
            let b = from@.subrange(0, i + 1);
            lemma_has_state_prefix(from@, i as int);
            assert forall|p: int, q: int| #[trigger]
                nfa.edge(p, q) <==> old(nfa).edge(p, q) || (has_state(b, p) && has_state(
                    to@,
                    q,
                )) by {
                assert(nfa.edge(p, q) <==> mid.edge(p, q) || (p == s && has_state(to@, q)));
            }
        }
        i += 1;
    }
    proof {
        assert(from@.subrange(0, from@.len() as int) =~= from@);
    }
}

/// A copy of a list of states.
fn copy_states(f: &Vec<usize>) -> (g: Vec<usize>)
    ensures
        g@ == f@,
{
    let mut g: Vec<usize> = Vec::new();
    let mut i: usize = 0;
    while i < f.len()
        invariant
            i <= f@.len(),
            g@ == f@.subrange(0, i as int),
        decreases f@.len() - i,
    {
        g.push(f[i]);
        proof {
            assert(f@.subrange(0, i as int).push(f@[i as int]) =~= f@.subrange(0, i + 1));
        }
        i += 1;
    }
    proof {
        assert(f@.subrange(0, f@.len() as int) =~= f@);
    }
    g
}

/// Tells whether state `s` is in the list `f`.
fn holds(f: &Vec<usize>, s: usize) -> (r: bool)
    ensures
        r == has_state(f@, s as int),
{
    let mut i: usize = 0;
    while i < f.len()
        invariant
            i <= f@.len(),
            forall|k: int| 0 <= k < i ==> #[trigger] f@[k] as int != s as int,
        decreases f@.len() - i,
    {
        if f[i] == s {
            return true;
        }
        i += 1;
    }
    false
}

/// Adds to the frontier the states of `other` that it lacks.
fn merge(frontier: &mut Vec<usize>, other: &Vec<usize>)
    ensures
        forall|s: int| #[trigger]
            has_state(final(frontier)@, s) <==> has_state(old(frontier)@, s) || has_state(
                other@,
                s,
            ),
{
    let mut i: usize = 0;
    while i < other.len()
        invariant
            i <= other@.len(),
            forall|s: int| #[trigger]
                has_state(frontier@, s) <==> has_state(old(frontier)@, s) || has_state(
                    other@.subrange(0, i as int),
                    s,
                ),
        decreases other@.len() - i,
    {
        let t = other[i];
        let ghost before = frontier@;
        let present = holds(frontier, t);
        if !present {
            frontier.push(t);
        }
        proof {
            lemma_has_state_prefix(other@, i as int);
            if !present {
                lemma_has_state_push(before, t);
            }
        }
        i += 1;
    }
    proof {
        assert(other@.subrange(0, other@.len() as int) =~= other@);
    }
}

/// Appends one position that reads `symbol`: a new state, which follows every
/// state of the frontier and is the whole frontier afterwards.
pub fn add(symbol: Class, nfa: &mut Nfa, frontier: &mut Vec<usize>) -> (q: usize)
    requires
        old(nfa).wf(),
        states_below(old(frontier)@, old(nfa).states() as int),
    ensures
        q == old(nfa).states(),
        final(frontier)@ == seq![q],
        built(*old(nfa), *final(nfa), Regex::Atom(symbol), old(frontier)@, final(frontier)@),
        states_below(final(frontier)@, final(nfa).states() as int),
{
    let q = nfa.next.len();
    nfa.reads.push(symbol);
    nfa.next.push(Vec::new());
    let ghost mid = *nfa;
    proof {
        assert forall|p: int| 0 <= p < mid.next@.len() implies states_below(
            (#[trigger] mid.next@[p])@,
            mid.next@.len() as int,
        ) by {
            if p < q {
                assert(mid.next@[p] == old(nfa).next@[p]);
                assert(states_below(old(nfa).next@[p]@, old(nfa).next@.len() as int));
            }
        }
        assert forall|p: int, t: int| #[trigger] mid.edge(p, t) <==> old(nfa).edge(p, t) by {
            if 0 <= p < q {
                assert(mid.next@[p] == old(nfa).next@[p]);
            }
        }
    }
    let mut only: Vec<usize> = Vec::new();
    only.push(q);
    link_all(nfa, frontier, &only);
    proof {
        assert(only@[0] as int == q);
        assert forall|t: int| has_state(only@, t) <==> t == q by {
            if t == q {
                assert(only@[0] as int == t);
            }
        }
    }
    *frontier = only;
    q
}

/// Appends one position that reads `symbol` and may be passed over: the new
/// state follows every state of the frontier and joins it.
pub fn add_or(symbol: Class, nfa: &mut Nfa, frontier: &mut Vec<usize>) -> (q: usize)
    requires
        old(nfa).wf(),
        states_below(old(frontier)@, old(nfa).states() as int),
    ensures
        q == old(nfa).states(),
        final(frontier)@ == old(frontier)@.push(q),
        built(
            *old(nfa),
            *final(nfa),
            Regex::Alt(Box::new(Regex::Atom(symbol)), Box::new(Regex::Empty)),
            old(frontier)@,
            final(frontier)@,
        ),
        states_below(final(frontier)@, final(nfa).states() as int),
{
    let mut reached = copy_states(frontier);
    let q = self::add(symbol, nfa, &mut reached);
    let ghost before = frontier@;
    frontier.push(q);
    proof {
        lemma_has_state_push(before, q);
        assert(reached@[0] as int == q);
        assert(has_state(reached@, q as int));
        reveal_with_fuel(Regex::size, 3);
        reveal_with_fuel(Regex::nullable, 3);
        reveal_with_fuel(class_at, 3);
        let r = Regex::Alt(Box::new(Regex::Atom(symbol)), Box::new(Regex::Empty));
        let a = Regex::Atom(symbol);
        assert(r.size() == 1);
        assert(class_at(r, 0) == symbol);
        assert(forall|x: int| is_first(r, x) == is_first(a, x)) by {
            reveal_with_fuel(is_first, 2);
        }
        assert(forall|x: int| x == 0 ==> is_last(r, x) && is_last(a, x)) by {
            reveal_with_fuel(is_last, 2);
        }
        assert(forall|x: int, y: int| !follows(r, x, y) && !follows(a, x, y)) by {
            reveal_with_fuel(follows, 2);
        }
    }
    q
}

/// Appends zero or more repetitions of one position that reads `symbol`: the
/// new state follows every state of the frontier and itself, and joins the
/// frontier.
pub fn star(symbol: Class, nfa: &mut Nfa, frontier: &mut Vec<usize>)
    requires
        old(nfa).wf(),
        states_below(old(frontier)@, old(nfa).states() as int),
    ensures
        built(
            *old(nfa),
            *final(nfa),
            Regex::Star(Box::new(Regex::Atom(symbol))),
            old(frontier)@,
            final(frontier)@,
        ),
        states_below(final(frontier)@, final(nfa).states() as int),
{
    let q = add_or(symbol, nfa, frontier);
    add_to(nfa, q, q);
    proof {
        reveal_with_fuel(Regex::size, 3);
        reveal_with_fuel(Regex::nullable, 3);
        reveal_with_fuel(class_at, 3);
        let r = Regex::Star(Box::new(Regex::Atom(symbol)));
        let b = Regex::Alt(Box::new(Regex::Atom(symbol)), Box::new(Regex::Empty));
        assert(r.size() == 1 && b.size() == 1);
        assert(class_at(r, 0) == symbol && class_at(b, 0) == symbol);
        assert(forall|x: int| is_first(r, x) == (x == 0) && is_first(b, x) == (x == 0)) by {
            reveal_with_fuel(is_first, 2);
        }
        assert(forall|x: int| x == 0 ==> is_last(r, x) && is_last(b, x)) by {
            reveal_with_fuel(is_last, 2);
        }
        assert(forall|x: int, y: int|
            x == 0 && y == 0 ==> follows(r, x, y) && !follows(b, x, y)) by {
            reveal_with_fuel(follows, 2);
            reveal_with_fuel(is_first, 2);
            reveal_with_fuel(is_last, 2);
        }
    }
}

/// Appends one or more repetitions of one position that reads `symbol`: the
/// new state follows every state of the frontier and itself, and is the
/// whole frontier afterwards.
pub fn plus(symbol: Class, nfa: &mut Nfa, frontier: &mut Vec<usize>)
    requires
        old(nfa).wf(),
        states_below(old(frontier)@, old(nfa).states() as int),
    ensures
        built(
            *old(nfa),
            *final(nfa),
            Regex::Plus(Box::new(Regex::Atom(symbol))),
            old(frontier)@,
            final(frontier)@,
        ),
        states_below(final(frontier)@, final(nfa).states() as int),
{
    let q = self::add(symbol, nfa, frontier);
    add_to(nfa, q, q);
    proof {
        reveal_with_fuel(Regex::size, 3);
        reveal_with_fuel(Regex::nullable, 3);
        reveal_with_fuel(class_at, 3);
        let r = Regex::Plus(Box::new(Regex::Atom(symbol)));
        let a = Regex::Atom(symbol);
        assert(r.size() == 1);
        assert(class_at(r, 0) == symbol);
        assert(!r.nullable());
        assert(forall|x: int| is_first(r, x) == (x == 0) && is_first(a, x) == (x == 0)) by {
            reveal_with_fuel(is_first, 2);
        }
        assert(forall|x: int| is_last(r, x) == (x == 0) && is_last(a, x) == (x == 0)) by {
            reveal_with_fuel(is_last, 2);
        }
        assert(forall|x: int, y: int|
            x == 0 && y == 0 ==> follows(r, x, y) && !follows(a, x, y)) by {
            reveal_with_fuel(follows, 2);
            reveal_with_fuel(is_first, 2);
            reveal_with_fuel(is_last, 2);
        }
    }
}

/// Collects the states of the first positions of `r`, whose states begin at
/// `base`.
fn first_states(r: &Regex, base: usize, out: &mut Vec<usize>)
    requires
        base + r.size() <= usize::MAX,
    ensures
        forall|s: int| #[trigger]
            has_state(final(out)@, s) <==> has_state(old(out)@, s) || (base <= s < base + r.size()
                && is_first(*r, s - base)),
    decreases r,
{
    match r {
        Regex::Empty => {},
        Regex::Atom(_) => {
            let ghost before = out@;
            out.push(base);
            proof {
                lemma_has_state_push(before, base);
            }
        },
        Regex::Cat(a, b) => {
            first_states(a, base, out);
            if a.is_nullable() {
                let na = a.count().unwrap();
                first_states(b, base + na, out);
            }
        },
        Regex::Alt(a, b) => {
            first_states(a, base, out);
            let na = a.count().unwrap();
            first_states(b, base + na, out);
        },
        Regex::Star(a) => {
            first_states(a, base, out);
        },
        Regex::Plus(a) => {
            first_states(a, base, out);
        },
    }
}

/// The frontier after a pattern is built names states of the automaton
/// only, as the frontier before did.
pub proof fn lemma_built_below(o: Nfa, n: Nfa, r: Regex, f: Seq<usize>, g: Seq<usize>)
    requires
        built(o, n, r, f, g),
        states_below(f, o.states() as int),
    ensures
        states_below(g, n.states() as int),
        states_below(f, n.states() as int),
{
    assert forall|k: int| 0 <= k < g.len() implies (#[trigger] g[k] as int) < n.states() by {
        assert(has_state(g, g[k] as int));
        if has_state(f, g[k] as int) {
            let j = choose|j: int| 0 <= j < f.len() && #[trigger] f[j] as int == g[k] as int;
        }
    }
}

/// The frontier is never empty: where it holds a state before a pattern is
/// built, it holds one afterwards.
pub proof fn lemma_frontier_stays(o: Nfa, n: Nfa, r: Regex, f: Seq<usize>, g: Seq<usize>)
    requires
        built(o, n, r, f, g),
        f.len() > 0,
    ensures
        g.len() > 0,
{
    if r.nullable() {
        assert(has_state(f, f[0] as int));
        assert(has_state(g, f[0] as int));
    } else {
        let p = lemma_some_last(r);
        assert(has_state(g, o.states() + p));
    }
}

/// Builds the pattern `r` from the frontier: one new state per position, the
/// frontier leading to the first positions and each position to those that
/// can follow it. Leaves the frontier after `r`.
pub fn paren_add(r: &Regex, nfa: &mut Nfa, frontier: &mut Vec<usize>)
    requires
        old(nfa).wf(),
        states_below(old(frontier)@, old(nfa).states() as int),
    ensures
        built(*old(nfa), *final(nfa), *r, old(frontier)@, final(frontier)@),
        states_below(final(frontier)@, final(nfa).states() as int),
    decreases 2 * r.rank(),
{
    match r {
        Regex::Empty => {},
        Regex::Atom(cls) => {
            self::add(*cls, nfa, frontier);
        },
        Regex::Cat(a, b) => {
            paren_add(a, nfa, frontier);
            let ghost mid = *nfa;
            let ghost g1 = frontier@;
            proof {
                lemma_built_below(*old(nfa), mid, **a, old(frontier)@, g1);
            }
            paren_add(b, nfa, frontier);
            proof {
                lemma_built_cat(*old(nfa), mid, *nfa, **a, **b, old(frontier)@, g1, frontier@);
            }
        },
        Regex::Alt(a, b) => {
            paren_or(a, b, nfa, frontier);
        },
        Regex::Star(a) => {
            match &**a {
                Regex::Atom(cls) => {
                    star(*cls, nfa, frontier);
                },
                _ => {
                    paren_star_plus(a, true, nfa, frontier);
                },
            }
        },
        Regex::Plus(a) => {
            match &**a {
                Regex::Atom(cls) => {
                    plus(*cls, nfa, frontier);
                },
                _ => {
                    paren_star_plus(a, false, nfa, frontier);
                },
            }
        },
    }
}

proof fn lemma_built_cat(
    o: Nfa,
    m: Nfa,
    n: Nfa,
    a: Regex,
    b: Regex,
    f: Seq<usize>,
    g1: Seq<usize>,
    g: Seq<usize>,
)
    requires
        states_below(f, o.states() as int),
        built(o, m, a, f, g1),
        built(m, n, b, g1, g),
    ensures
        built(o, n, Regex::Cat(Box::new(a), Box::new(b)), f, g),
{
    let r = Regex::Cat(Box::new(a), Box::new(b));
    let base = o.states() as int;
    let mid = base + a.size();
    let top = mid + b.size();
    assert forall|s: int| has_state(f, s) implies s < base by {
        let k = choose|k: int| 0 <= k < f.len() && #[trigger] f[k] as int == s;
    }
    assert forall|q: int| 0 <= q < base implies #[trigger] n.reads@[q] == o.reads@[q] by {
        assert(m.reads@[q] == o.reads@[q]);
    }
    assert forall|q: int| base <= q < top implies #[trigger] n.reads@[q] == class_at(
        r,
        q - base,
    ) by {
        if q < mid {
            assert(m.reads@[q] == class_at(a, q - base));
        }
    }
    assert forall|p: int, q: int| #[trigger]
        n.edge(p, q) <==> o.edge(p, q) || (base <= q < top && ((has_state(f, p) && is_first(
            r,
            q - base,
        )) || (base <= p < top && follows(r, p - base, q - base)))) by {
        assert(m.edge(p, q) <==> o.edge(p, q) || (base <= q < mid && ((has_state(f, p)
            && is_first(a, q - base)) || (base <= p < mid && follows(a, p - base, q - base)))));
        assert(has_state(g1, p) <==> (base <= p < mid && is_last(a, p - base)) || (a.nullable()
            && has_state(f, p)));
    }
    assert forall|s: int| #[trigger]
        has_state(g, s) <==> (base <= s < top && is_last(r, s - base)) || (r.nullable()
            && has_state(f, s)) by {
        assert(has_state(g1, s) <==> (base <= s < mid && is_last(a, s - base)) || (a.nullable()
            && has_state(f, s)));
    }
}

/// Builds the alternation of `left` and `right` from the frontier: both
/// begin at the frontier, and the frontier afterwards is the union of theirs.
pub fn paren_or(left: &Regex, right: &Regex, nfa: &mut Nfa, frontier: &mut Vec<usize>)
    requires
        old(nfa).wf(),
        states_below(old(frontier)@, old(nfa).states() as int),
    ensures
        built(
            *old(nfa),
            *final(nfa),
            Regex::Alt(Box::new(*left), Box::new(*right)),
            old(frontier)@,
            final(frontier)@,
        ),
        states_below(final(frontier)@, final(nfa).states() as int),
    decreases 2 * (left.rank() + right.rank()) + 1,
{
    let mut other = copy_states(frontier);
    paren_add(left, nfa, frontier);
    let ghost mid = *nfa;
    let ghost g1 = frontier@;
    proof {
        lemma_built_below(*old(nfa), mid, *left, old(frontier)@, g1);
    }
    paren_add(right, nfa, &mut other);
    merge(frontier, &other);
    proof {
        let o = *old(nfa);
        let n = *nfa;
        let f = old(frontier)@;
        let g = frontier@;
        let r = Regex::Alt(Box::new(*left), Box::new(*right));
        let base = o.states() as int;
        let md = base + left.size();
        let top = md + right.size();
        assert forall|s: int| has_state(f, s) implies s < base by {
            let k = choose|k: int| 0 <= k < f.len() && #[trigger] f[k] as int == s;
        }
        assert forall|q: int| 0 <= q < base implies #[trigger] n.reads@[q] == o.reads@[q] by {
            assert(mid.reads@[q] == o.reads@[q]);
        }
        assert forall|q: int| base <= q < top implies #[trigger] n.reads@[q] == class_at(
            r,
            q - base,
        ) by {
            if q < md {
                assert(mid.reads@[q] == class_at(*left, q - base));
            }
        }
        assert forall|p: int, q: int| #[trigger]
            n.edge(p, q) <==> o.edge(p, q) || (base <= q < top && ((has_state(f, p) && is_first(
                r,
                q - base,
            )) || (base <= p < top && follows(r, p - base, q - base)))) by {
            assert(mid.edge(p, q) <==> o.edge(p, q) || (base <= q < md && ((has_state(f, p)
                && is_first(*left, q - base)) || (base <= p < md && follows(
                *left,
                p - base,
                q - base,
            )))));
        }
        assert forall|s: int| #[trigger]
            has_state(g, s) <==> (base <= s < top && is_last(r, s - base)) || (r.nullable()
                && has_state(f, s)) by {
            assert(has_state(g1, s) <==> (base <= s < md && is_last(*left, s - base)) || (
            left.nullable() && has_state(f, s)));
            assert(has_state(other@, s) <==> (md <= s < top && is_last(*right, s - md)) || (
            right.nullable() && has_state(f, s)));
        }
        lemma_built_below(o, n, r, f, g);
    }
}

/// Builds a repetition of `inner` from the frontier: `inner` itself, and
/// from its last positions back to its first ones. Where `optional` is set
/// the repetition may be passed over, and the frontier before it stays in
/// the frontier after it.
pub fn paren_star_plus(inner: &Regex, optional: bool, nfa: &mut Nfa, frontier: &mut Vec<usize>)
    requires
        old(nfa).wf(),
        states_below(old(frontier)@, old(nfa).states() as int),
    ensures
        built(
            *old(nfa),
            *final(nfa),
            if optional {
                Regex::Star(Box::new(*inner))
            } else {
                Regex::Plus(Box::new(*inner))
            },
            old(frontier)@,
            final(frontier)@,
        ),
        states_below(final(frontier)@, final(nfa).states() as int),
    decreases 2 * inner.rank() + 1,
{
    let entry = copy_states(frontier);
    let base = nfa.next.len();
    paren_add(inner, nfa, frontier);
    let ghost mid = *nfa;
    let ghost g1 = frontier@;
    let top = nfa.next.len();
    assert(top == base + inner.size());
    let mut firsts: Vec<usize> = Vec::new();
    first_states(inner, base, &mut firsts);
    proof {
        lemma_built_below(*old(nfa), mid, *inner, old(frontier)@, g1);
        assert forall|k: int| 0 <= k < firsts@.len() implies (#[trigger] firsts@[k] as int)
            < mid.states() by {
            assert(has_state(firsts@, firsts@[k] as int));
        }
    }
    link_all(nfa, frontier, &firsts);
    if optional {
        merge(frontier, &entry);
    }
    proof {
        let o = *old(nfa);
        let n = *nfa;
        let f = old(frontier)@;
        let g = frontier@;
        let r = if optional {
            Regex::Star(Box::new(*inner))
        } else {
            Regex::Plus(Box::new(*inner))
        };
        let b = o.states() as int;
        let top = b + inner.size();
        assert forall|s: int| has_state(f, s) implies s < b by {
            let k = choose|k: int| 0 <= k < f.len() && #[trigger] f[k] as int == s;
        }
        assert forall|q: int| b <= q < top implies #[trigger] n.reads@[q] == class_at(
            r,
            q - b,
        ) by {
            assert(mid.reads@[q] == class_at(*inner, q - b));
        }
        assert forall|p: int, q: int| #[trigger]
            n.edge(p, q) <==> o.edge(p, q) || (b <= q < top && ((has_state(f, p) && is_first(
                r,
                q - b,
            )) || (b <= p < top && follows(r, p - b, q - b)))) by {
            assert(mid.edge(p, q) <==> o.edge(p, q) || (b <= q < top && ((has_state(f, p)
                && is_first(*inner, q - b)) || (b <= p < top && follows(*inner, p - b, q - b)))));
            assert(n.edge(p, q) <==> mid.edge(p, q) || (has_state(g1, p) && has_state(
                firsts@,
                q,
            )));
            assert(has_state(g1, p) <==> (b <= p < top && is_last(*inner, p - b)) || (
            inner.nullable() && has_state(f, p)));
            assert(has_state(firsts@, q) <==> (b <= q < top && is_first(*inner, q - b)));
        }
        assert forall|s: int| #[trigger]
            has_state(g, s) <==> (b <= s < top && is_last(r, s - b)) || (r.nullable()
                && has_state(f, s)) by {
            assert(has_state(g1, s) <==> (b <= s < top && is_last(*inner, s - b)) || (
            inner.nullable() && has_state(f, s)));
        }
        lemma_built_below(o, n, r, f, g);
    }
}

} // verus!
