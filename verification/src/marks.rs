//! Marked patterns: a set of positions of a pattern, read as the state of an
//! acceptor, and the proof that moving the marks follows the language.
//!
//! A mark on a position says that the input read so far can end at that
//! position. `rest` is the set of strings that complete a match from the
//! marks, `shift` moves the marks over one character, and `lemma_shift` says
//! that the two agree.

use vstd::prelude::*;
use crate::syntax::{lemma_nullable, Regex};

verus! {

/// The marks of the left part of a pattern with two parts.
pub open spec fn left(m: Seq<bool>, a: Regex) -> Seq<bool> {
    m.subrange(0, a.size() as int)
}

/// The marks of the right part of a pattern with two parts.
pub open spec fn right(m: Seq<bool>, a: Regex) -> Seq<bool> {
    m.subrange(a.size() as int, m.len() as int)
}

/// A mark stands on a position at which a match of `r` can end.
pub open spec fn fin(r: Regex, m: Seq<bool>) -> bool
    decreases r,
{
    match r {
        Regex::Empty => false,
        Regex::Atom(_) => m[0],
        Regex::Cat(a, b) => (fin(*a, left(m, *a)) && b.nullable()) || fin(*b, right(m, *a)),
        Regex::Alt(a, b) => fin(*a, left(m, *a)) || fin(*b, right(m, *a)),
        Regex::Star(a) => fin(*a, m),
        Regex::Plus(a) => fin(*a, m),
    }
}

/// The marks after reading `c`. With `enter`, a match may also begin at `c`.
pub open spec fn shift(r: Regex, enter: bool, m: Seq<bool>, c: char) -> Seq<bool>
    decreases r,
{
    match r {
        Regex::Empty => Seq::empty(),
        Regex::Atom(cls) => seq![enter && cls.has(c)],
        Regex::Cat(a, b) => shift(*a, enter, left(m, *a), c) + shift(
            *b,
            (enter && a.nullable()) || fin(*a, left(m, *a)),
            right(m, *a),
            c,
        ),
        Regex::Alt(a, b) => shift(*a, enter, left(m, *a), c) + shift(*b, enter, right(m, *a), c),
        Regex::Star(a) => shift(*a, enter || fin(*a, m), m, c),
        Regex::Plus(a) => shift(*a, enter || fin(*a, m), m, c),
    }
}

/// `w` completes a match of `r` that has come as far as one of the marks.
pub open spec fn rest(r: Regex, m: Seq<bool>, w: Seq<char>) -> bool
    decreases r,
{
    match r {
        Regex::Empty => false,
        Regex::Atom(_) => m[0] && w.len() == 0,
        Regex::Cat(a, b) => (exists|k: int|
            0 <= k <= w.len() && rest(*a, left(m, *a), #[trigger] w.subrange(0, k)) && b.matches(
                w.subrange(k, w.len() as int),
            )) || rest(*b, right(m, *a), w),
        Regex::Alt(a, b) => rest(*a, left(m, *a), w) || rest(*b, right(m, *a), w),
        Regex::Star(a) => exists|k: int|
            0 <= k <= w.len() && rest(*a, m, #[trigger] w.subrange(0, k)) && a.repeats(
                w.subrange(k, w.len() as int),
            ),
        Regex::Plus(a) => exists|k: int|
            0 <= k <= w.len() && rest(*a, m, #[trigger] w.subrange(0, k)) && a.repeats(
                w.subrange(k, w.len() as int),
            ),
    }
}

/// No position is marked.
pub open spec fn unmarked(m: Seq<bool>) -> bool {
    forall|i: int| 0 <= i < m.len() ==> !#[trigger] m[i]
}

/// Shifting keeps one mark per position.
pub proof fn lemma_shift_len(r: Regex, enter: bool, m: Seq<bool>, c: char)
    requires
        m.len() == r.size(),
    ensures
        shift(r, enter, m, c).len() == r.size(),
    decreases r,
{
    match r {
        Regex::Empty => {},
        Regex::Atom(_) => {},
        Regex::Cat(a, b) => {
            lemma_shift_len(*a, enter, left(m, *a), c);
            lemma_shift_len(
                *b,
                (enter && a.nullable()) || fin(*a, left(m, *a)),
                right(m, *a),
                c,
            );
        },
        Regex::Alt(a, b) => {
            lemma_shift_len(*a, enter, left(m, *a), c);
            lemma_shift_len(*b, enter, right(m, *a), c);
        },
        Regex::Star(a) => {
            lemma_shift_len(*a, enter || fin(*a, m), m, c);
        },
        Regex::Plus(a) => {
            lemma_shift_len(*a, enter || fin(*a, m), m, c);
        },
    }
}

/// Without marks nothing completes a match.
pub proof fn lemma_unmarked(r: Regex, m: Seq<bool>, w: Seq<char>)
    requires
        m.len() == r.size(),
        unmarked(m),
    ensures
        !rest(r, m, w),
        !fin(r, m),
    decreases r,
{
    match r {
        Regex::Empty => {},
        Regex::Atom(_) => {},
        Regex::Cat(a, b) => {
            assert forall|k: int| 0 <= k <= w.len() implies !rest(
                *a,
                left(m, *a),
                #[trigger] w.subrange(0, k),
            ) by {
                lemma_unmarked(*a, left(m, *a), w.subrange(0, k));
            }
            lemma_unmarked(*a, left(m, *a), w);
            lemma_unmarked(*b, right(m, *a), w);
        },
        Regex::Alt(a, b) => {
            lemma_unmarked(*a, left(m, *a), w);
            lemma_unmarked(*b, right(m, *a), w);
        },
        Regex::Star(a) => {
            assert forall|k: int| 0 <= k <= w.len() implies !rest(
                *a,
                m,
                #[trigger] w.subrange(0, k),
            ) by {
                lemma_unmarked(*a, m, w.subrange(0, k));
            }
            lemma_unmarked(*a, m, w);
        },
        Regex::Plus(a) => {
            assert forall|k: int| 0 <= k <= w.len() implies !rest(
                *a,
                m,
                #[trigger] w.subrange(0, k),
            ) by {
                lemma_unmarked(*a, m, w.subrange(0, k));
            }
            lemma_unmarked(*a, m, w);
        },
    }
}

/// A match can end at a mark exactly when the empty string completes it.
pub proof fn lemma_fin(r: Regex, m: Seq<bool>)
    requires
        m.len() == r.size(),
    ensures
        fin(r, m) == rest(r, m, Seq::<char>::empty()),
    decreases r,
{
    let e = Seq::<char>::empty();
    assert(e.subrange(0, 0) =~= e);
    match r {
        Regex::Empty => {},
        Regex::Atom(_) => {},
        Regex::Cat(a, b) => {
            lemma_fin(*a, left(m, *a));
            lemma_fin(*b, right(m, *a));
            lemma_nullable(*b);
        },
        Regex::Alt(a, b) => {
            lemma_fin(*a, left(m, *a));
            lemma_fin(*b, right(m, *a));
        },
        Regex::Star(a) => {
            lemma_fin(*a, m);
        },
        Regex::Plus(a) => {
            lemma_fin(*a, m);
        },
    }
}

/// The string that begins with `c` and goes on with `w`.
pub open spec fn cons(c: char, w: Seq<char>) -> Seq<char> {
    seq![c] + w
}

proof fn lemma_cons_split(c: char, w: Seq<char>, k: int)
    requires
        0 <= k <= w.len(),
    ensures
        cons(c, w).subrange(0, k + 1) == cons(c, w.subrange(0, k)),
        cons(c, w).subrange(k + 1, cons(c, w).len() as int) == w.subrange(k, w.len() as int),
        cons(c, w).subrange(0, 0) == Seq::<char>::empty(),
        cons(c, w).subrange(0, cons(c, w).len() as int) == cons(c, w),
        cons(c, w).len() == w.len() + 1,
{
    assert(cons(c, w).subrange(0, k + 1) =~= cons(c, w.subrange(0, k)));
    assert(cons(c, w).subrange(k + 1, cons(c, w).len() as int) =~= w.subrange(
        k,
        w.len() as int,
    ));
    assert(cons(c, w).subrange(0, 0) =~= Seq::<char>::empty());
    assert(cons(c, w).subrange(0, cons(c, w).len() as int) =~= cons(c, w));
}

/// A nonempty string is made of rounds of `a` exactly when it begins with a
/// nonempty match of `a` and goes on with rounds of `a`.
proof fn lemma_repeats_cons(a: Regex, c: char, w: Seq<char>)
    ensures
        a.repeats(cons(c, w)) == (exists|k: int|
            0 <= k <= w.len() && a.matches(cons(c, #[trigger] w.subrange(0, k))) && a.repeats(
                w.subrange(k, w.len() as int),
            )),
{
    let cw = cons(c, w);
    if a.repeats(cw) {
        let j = choose|j: int|
            1 <= j <= cw.len() && a.matches(#[trigger] cw.subrange(0, j)) && a.repeats(
                cw.subrange(j, cw.len() as int),
            );
        lemma_cons_split(c, w, j - 1);
        assert(a.matches(cons(c, w.subrange(0, j - 1))));
    }
    if exists|k: int|
        0 <= k <= w.len() && a.matches(cons(c, #[trigger] w.subrange(0, k))) && a.repeats(
            w.subrange(k, w.len() as int),
        ) {
        let k = choose|k: int|
            0 <= k <= w.len() && a.matches(cons(c, #[trigger] w.subrange(0, k))) && a.repeats(
                w.subrange(k, w.len() as int),
            );
        lemma_cons_split(c, w, k);
        assert(a.matches(cw.subrange(0, k + 1)));
    }
}

/// What completes a match after a repetition has read `c`.
proof fn lemma_shift_rep(a: Regex, enter: bool, m: Seq<bool>, c: char, w: Seq<char>)
    requires
        m.len() == a.size(),
        forall|v: Seq<char>|
            rest(a, shift(a, enter || fin(a, m), m, c), v) == (rest(a, m, cons(c, v)) || ((enter
                || fin(a, m)) && a.matches(cons(c, v)))),
    ensures
        (exists|k: int|
            0 <= k <= w.len() && rest(
                a,
                shift(a, enter || fin(a, m), m, c),
                #[trigger] w.subrange(0, k),
            ) && a.repeats(w.subrange(k, w.len() as int))) == ((exists|k: int|
            0 <= k <= cons(c, w).len() && rest(a, m, #[trigger] cons(c, w).subrange(0, k))
                && a.repeats(cons(c, w).subrange(k, cons(c, w).len() as int))) || (enter
            && a.repeats(cons(c, w)))),
{
    let cw = cons(c, w);
    let sa = shift(a, enter || fin(a, m), m, c);
    let lhs = exists|k: int|
        0 <= k <= w.len() && rest(a, sa, #[trigger] w.subrange(0, k)) && a.repeats(
            w.subrange(k, w.len() as int),
        );
    let rhs1 = exists|k: int|
        0 <= k <= cw.len() && rest(a, m, #[trigger] cw.subrange(0, k)) && a.repeats(
            cw.subrange(k, cw.len() as int),
        );
    lemma_fin(a, m);
    lemma_repeats_cons(a, c, w);
    lemma_cons_split(c, w, 0);
    if lhs {
        let k = choose|k: int|
            0 <= k <= w.len() && rest(a, sa, #[trigger] w.subrange(0, k)) && a.repeats(
                w.subrange(k, w.len() as int),
            );
        lemma_cons_split(c, w, k);
        let v = w.subrange(0, k);
        if rest(a, m, cons(c, v)) {
            assert(rest(a, m, cw.subrange(0, k + 1)));
            assert(rhs1);
        } else {
            assert(a.matches(cons(c, v)));
            assert(a.repeats(cw));
            if !enter {
                assert(rest(a, m, cw.subrange(0, 0)));
                assert(rhs1);
            }
        }
    }
    if rhs1 {
        let j = choose|j: int|
            0 <= j <= cw.len() && rest(a, m, #[trigger] cw.subrange(0, j)) && a.repeats(
                cw.subrange(j, cw.len() as int),
            );
        if j == 0 {
            assert(fin(a, m));
            assert(a.repeats(cw));
            let k = choose|k: int|
                0 <= k <= w.len() && a.matches(cons(c, #[trigger] w.subrange(0, k)))
                    && a.repeats(w.subrange(k, w.len() as int));
            assert(rest(a, sa, w.subrange(0, k)));
            assert(lhs);
        } else {
            lemma_cons_split(c, w, j - 1);
            assert(rest(a, sa, w.subrange(0, j - 1)));
            assert(lhs);
        }
    }
    if enter && a.repeats(cw) {
        let k = choose|k: int|
            0 <= k <= w.len() && a.matches(cons(c, #[trigger] w.subrange(0, k))) && a.repeats(
                w.subrange(k, w.len() as int),
            );
        assert(rest(a, sa, w.subrange(0, k)));
        assert(lhs);
    }
}

/// Moving the marks over `c` follows the language: a string completes a match
/// from the new marks exactly when `c` and the string complete one from the
/// old marks, or, with `enter`, when `c` and the string are a match.
pub proof fn lemma_shift(r: Regex, enter: bool, m: Seq<bool>, c: char, w: Seq<char>)
    requires
        m.len() == r.size(),
    ensures
        rest(r, shift(r, enter, m, c), w) == (rest(r, m, cons(c, w)) || (enter && r.matches(
            cons(c, w),
        ))),
    decreases r,
{
    let cw = cons(c, w);
    lemma_cons_split(c, w, 0);
    match r {
        Regex::Empty => {},
        Regex::Atom(cls) => {
            assert(cw[0] == c);
        },
        Regex::Cat(a, b) => {
            let ma = left(m, *a);
            let mb = right(m, *a);
            let sa = shift(*a, enter, ma, c);
            let e2 = (enter && a.nullable()) || fin(*a, ma);
            let sb = shift(*b, e2, mb, c);
            let sm = sa + sb;
            lemma_shift_len(*a, enter, ma, c);
            lemma_shift_len(*b, e2, mb, c);
            assert(left(sm, *a) =~= sa);
            assert(right(sm, *a) =~= sb);
            lemma_shift(*b, e2, mb, c, w);
            lemma_fin(*a, ma);
            lemma_nullable(*a);
            let l1 = exists|k: int|
                0 <= k <= w.len() && rest(*a, sa, #[trigger] w.subrange(0, k)) && b.matches(
                    w.subrange(k, w.len() as int),
                );
            let r1 = exists|k: int|
                0 <= k <= cw.len() && rest(*a, ma, #[trigger] cw.subrange(0, k)) && b.matches(
                    cw.subrange(k, cw.len() as int),
                );
            let r3 = exists|k: int|
                0 <= k <= cw.len() && a.matches(#[trigger] cw.subrange(0, k)) && b.matches(
                    cw.subrange(k, cw.len() as int),
                );
            assert(rest(r, sm, w) == (l1 || rest(*b, sb, w)));
            assert(rest(r, m, cw) == (r1 || rest(*b, mb, cw)));
            assert(r.matches(cw) == r3);
            if l1 {
                let k = choose|k: int|
                    0 <= k <= w.len() && rest(*a, sa, #[trigger] w.subrange(0, k)) && b.matches(
                        w.subrange(k, w.len() as int),
                    );
                lemma_cons_split(c, w, k);
                lemma_shift(*a, enter, ma, c, w.subrange(0, k));
                if rest(*a, ma, cons(c, w.subrange(0, k))) {
                    assert(rest(*a, ma, cw.subrange(0, k + 1)));
                    assert(r1);
                } else {
                    assert(a.matches(cw.subrange(0, k + 1)));
                    assert(r3);
                }
            }
            if e2 && b.matches(cw) {
                if fin(*a, ma) {
                    assert(rest(*a, ma, cw.subrange(0, 0)));
                    assert(r1);
                } else {
                    assert(a.matches(cw.subrange(0, 0)));
                    assert(r3);
                }
            }
            if r1 {
                let j = choose|j: int|
                    0 <= j <= cw.len() && rest(*a, ma, #[trigger] cw.subrange(0, j))
                        && b.matches(cw.subrange(j, cw.len() as int));
                if j == 0 {
                    assert(e2);
                } else {
                    lemma_cons_split(c, w, j - 1);
                    lemma_shift(*a, enter, ma, c, w.subrange(0, j - 1));
                    assert(rest(*a, sa, w.subrange(0, j - 1)));
                    assert(l1);
                }
            }
            if enter && r3 {
                let j = choose|j: int|
                    0 <= j <= cw.len() && a.matches(#[trigger] cw.subrange(0, j)) && b.matches(
                        cw.subrange(j, cw.len() as int),
                    );
                if j == 0 {
                    assert(e2);
                } else {
                    lemma_cons_split(c, w, j - 1);
                    lemma_shift(*a, enter, ma, c, w.subrange(0, j - 1));
                    assert(rest(*a, sa, w.subrange(0, j - 1)));
                    assert(l1);
                }
            }
        },
        Regex::Alt(a, b) => {
            let ma = left(m, *a);
            let mb = right(m, *a);
            let sa = shift(*a, enter, ma, c);
            let sb = shift(*b, enter, mb, c);
            lemma_shift_len(*a, enter, ma, c);
            lemma_shift_len(*b, enter, mb, c);
            assert(left(sa + sb, *a) =~= sa);
            assert(right(sa + sb, *a) =~= sb);
            lemma_shift(*a, enter, ma, c, w);
            lemma_shift(*b, enter, mb, c, w);
        },
        Regex::Star(a) => {
            assert forall|v: Seq<char>|
                rest(*a, shift(*a, enter || fin(*a, m), m, c), v) == (rest(*a, m, cons(c, v)) || ((
                enter || fin(*a, m)) && a.matches(cons(c, v)))) by {
                lemma_shift(*a, enter || fin(*a, m), m, c, v);
            }
            lemma_shift_rep(*a, enter, m, c, w);
        },
        Regex::Plus(a) => {
            assert forall|v: Seq<char>|
                rest(*a, shift(*a, enter || fin(*a, m), m, c), v) == (rest(*a, m, cons(c, v)) || ((
                enter || fin(*a, m)) && a.matches(cons(c, v)))) by {
                lemma_shift(*a, enter || fin(*a, m), m, c, v);
            }
            lemma_shift_rep(*a, enter, m, c, w);
            lemma_repeats_cons(*a, c, w);
            lemma_nullable(*a);
            let p = exists|k: int|
                0 <= k <= cw.len() && a.matches(#[trigger] cw.subrange(0, k)) && a.repeats(
                    cw.subrange(k, cw.len() as int),
                );
            assert(r.matches(cw) == p);
            if p {
                let j = choose|j: int|
                    0 <= j <= cw.len() && a.matches(#[trigger] cw.subrange(0, j)) && a.repeats(
                        cw.subrange(j, cw.len() as int),
                    );
                if j > 0 {
                    lemma_cons_split(c, w, j - 1);
                    assert(a.matches(cons(c, w.subrange(0, j - 1))));
                }
                assert(a.repeats(cw));
            }
            if a.repeats(cw) {
                let k = choose|k: int|
                    0 <= k <= w.len() && a.matches(cons(c, #[trigger] w.subrange(0, k)))
                        && a.repeats(w.subrange(k, w.len() as int));
                lemma_cons_split(c, w, k);
                assert(a.matches(cw.subrange(0, k + 1)));
                assert(p);
            }
        },
    }
}

} // verus!
