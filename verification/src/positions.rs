//! The positions of a pattern and how a match moves between them: where it
//! can begin, where it can end, and which position can follow which.

use vstd::prelude::*;
use crate::marks::{fin, left, lemma_shift_len, right, shift};
use crate::syntax::{Class, Regex};

verus! {

/// What position `p` reads. Positions are counted from the left, from 0.
pub open spec fn class_at(r: Regex, p: int) -> Class
    decreases r,
{
    match r {
        Regex::Empty => Class::Word,
        Regex::Atom(cls) => cls,
        Regex::Cat(a, b) | Regex::Alt(a, b) => if p < a.size() {
            class_at(*a, p)
        } else {
            class_at(*b, p - a.size())
        },
        Regex::Star(a) | Regex::Plus(a) => class_at(*a, p),
    }
}

/// A match can begin at position `p`.
pub open spec fn is_first(r: Regex, p: int) -> bool
    decreases r,
{
    match r {
        Regex::Empty => false,
        Regex::Atom(_) => p == 0,
        Regex::Cat(a, b) => if p < a.size() {
            is_first(*a, p)
        } else {
            a.nullable() && is_first(*b, p - a.size())
        },
        Regex::Alt(a, b) => if p < a.size() {
            is_first(*a, p)
        } else {
            is_first(*b, p - a.size())
        },
        Regex::Star(a) | Regex::Plus(a) => is_first(*a, p),
    }
}

/// A match can end at position `p`.
pub open spec fn is_last(r: Regex, p: int) -> bool
    decreases r,
{
    match r {
        Regex::Empty => false,
        Regex::Atom(_) => p == 0,
        Regex::Cat(a, b) => if p < a.size() {
            is_last(*a, p) && b.nullable()
        } else {
            is_last(*b, p - a.size())
        },
        Regex::Alt(a, b) => if p < a.size() {
            is_last(*a, p)
        } else {
            is_last(*b, p - a.size())
        },
        Regex::Star(a) | Regex::Plus(a) => is_last(*a, p),
    }
}

/// In a match, position `q` can come directly after position `p`.
pub open spec fn follows(r: Regex, p: int, q: int) -> bool
    decreases r,
{
    match r {
        Regex::Empty => false,
        Regex::Atom(_) => false,
        Regex::Cat(a, b) => if p < a.size() {
            if q < a.size() {
                follows(*a, p, q)
            } else {
                is_last(*a, p) && is_first(*b, q - a.size())
            }
        } else {
            q >= a.size() && follows(*b, p - a.size(), q - a.size())
        },
        Regex::Alt(a, b) => if p < a.size() {
            q < a.size() && follows(*a, p, q)
        } else {
            q >= a.size() && follows(*b, p - a.size(), q - a.size())
        },
        Regex::Star(a) | Regex::Plus(a) => follows(*a, p, q) || (is_last(*a, p) && is_first(
            *a,
            q,
        )),
    }
}

/// Some marked position of `m` is one where a match can end.
pub open spec fn marked_last(r: Regex, m: Seq<bool>) -> bool {
    exists|p: int| 0 <= p < m.len() && #[trigger] m[p] && is_last(r, p)
}

/// Some marked position of `m` can be followed by `q`.
pub open spec fn marked_before(r: Regex, m: Seq<bool>, q: int) -> bool {
    exists|p: int| 0 <= p < m.len() && #[trigger] m[p] && follows(r, p, q)
}

/// A match can end at a mark exactly when a marked position is a last one.
pub proof fn lemma_fin_last(r: Regex, m: Seq<bool>)
    requires
        m.len() == r.size(),
    ensures
        fin(r, m) == marked_last(r, m),
    decreases r,
{
    match r {
        Regex::Empty => {},
        Regex::Atom(_) => {
            if m[0] {
                assert(is_last(r, 0));
            }
        },
        Regex::Cat(a, b) => {
            lemma_two_parts_last(*a, *b, m);
            lemma_fin_last(*a, left(m, *a));
            lemma_fin_last(*b, right(m, *a));
            if marked_last(r, m) {
                let p = choose|p: int| 0 <= p < m.len() && #[trigger] m[p] && is_last(r, p);
                if p < a.size() {
                    assert(left(m, *a)[p]);
                } else {
                    assert(right(m, *a)[p - a.size()]);
                }
            }
            if marked_last(*a, left(m, *a)) && b.nullable() {
                let p = choose|p: int|
                    0 <= p < left(m, *a).len() && #[trigger] left(m, *a)[p] && is_last(*a, p);
                assert(m[p]);
            }
            if marked_last(*b, right(m, *a)) {
                let p = choose|p: int|
                    0 <= p < right(m, *a).len() && #[trigger] right(m, *a)[p] && is_last(*b, p);
                assert(m[p + a.size()]);
            }
        },
        Regex::Alt(a, b) => {
            lemma_two_parts_last(*a, *b, m);
            lemma_fin_last(*a, left(m, *a));
            lemma_fin_last(*b, right(m, *a));
            if marked_last(r, m) {
                let p = choose|p: int| 0 <= p < m.len() && #[trigger] m[p] && is_last(r, p);
                if p < a.size() {
                    assert(left(m, *a)[p]);
                } else {
                    assert(right(m, *a)[p - a.size()]);
                }
            }
            if marked_last(*a, left(m, *a)) {
                let p = choose|p: int|
                    0 <= p < left(m, *a).len() && #[trigger] left(m, *a)[p] && is_last(*a, p);
                assert(m[p]);
            }
            if marked_last(*b, right(m, *a)) {
                let p = choose|p: int|
                    0 <= p < right(m, *a).len() && #[trigger] right(m, *a)[p] && is_last(*b, p);
                assert(m[p + a.size()]);
            }
        },
        Regex::Star(a) => {
            lemma_fin_last(*a, m);
        },
        Regex::Plus(a) => {
            lemma_fin_last(*a, m);
        },
    }
}

proof fn lemma_two_parts_last(a: Regex, b: Regex, m: Seq<bool>)
    requires
        m.len() == a.size() + b.size(),
    ensures
        left(m, a).len() == a.size(),
        right(m, a).len() == b.size(),
        forall|p: int| 0 <= p < a.size() ==> #[trigger] left(m, a)[p] == m[p],
        forall|p: int| 0 <= p < b.size() ==> #[trigger] right(m, a)[p] == m[p + a.size()],
{
}

/// Moving the marks is moving along the positions: after `c`, position `q` is
/// marked exactly when it reads `c` and either a match may begin there, or it
/// can follow a position that was marked.
pub proof fn lemma_shift_follows(r: Regex, enter: bool, m: Seq<bool>, c: char, q: int)
    requires
        m.len() == r.size(),
        0 <= q < r.size(),
    ensures
        shift(r, enter, m, c).len() == r.size(),
        shift(r, enter, m, c)[q] == (class_at(r, q).has(c) && ((enter && is_first(r, q))
            || marked_before(r, m, q))),
    decreases r,
{
    lemma_shift_len(r, enter, m, c);
    match r {
        Regex::Empty => {},
        Regex::Atom(_) => {},
        Regex::Cat(a, b) => {
            let ma = left(m, *a);
            let mb = right(m, *a);
            let e2 = (enter && a.nullable()) || fin(*a, ma);
            lemma_two_parts_last(*a, *b, m);
            lemma_shift_len(*a, enter, ma, c);
            lemma_shift_len(*b, e2, mb, c);
            lemma_fin_last(*a, ma);
            if q < a.size() {
                lemma_shift_follows(*a, enter, ma, c, q);
                if marked_before(r, m, q) {
                    let p = choose|p: int| 0 <= p < m.len() && #[trigger] m[p] && follows(r, p, q);
                    assert(ma[p]);
                }
                if marked_before(*a, ma, q) {
                    let p = choose|p: int|
                        0 <= p < ma.len() && #[trigger] ma[p] && follows(*a, p, q);
                    assert(m[p]);
                }
            } else {
                let q2 = q - a.size();
                lemma_shift_follows(*b, e2, mb, c, q2);
                if marked_before(r, m, q) {
                    let p = choose|p: int| 0 <= p < m.len() && #[trigger] m[p] && follows(r, p, q);
                    if p < a.size() {
                        assert(ma[p]);
                    } else {
                        assert(mb[p - a.size()]);
                    }
                }
                if marked_before(*b, mb, q2) {
                    let p = choose|p: int|
                        0 <= p < mb.len() && #[trigger] mb[p] && follows(*b, p, q2);
                    assert(m[p + a.size()]);
                }
                if marked_last(*a, ma) && is_first(*b, q2) {
                    let p = choose|p: int|
                        0 <= p < ma.len() && #[trigger] ma[p] && is_last(*a, p);
                    assert(m[p]);
                }
            }
        },
        Regex::Alt(a, b) => {
            let ma = left(m, *a);
            let mb = right(m, *a);
            lemma_two_parts_last(*a, *b, m);
            lemma_shift_len(*a, enter, ma, c);
            lemma_shift_len(*b, enter, mb, c);
            if q < a.size() {
                lemma_shift_follows(*a, enter, ma, c, q);
                if marked_before(r, m, q) {
                    let p = choose|p: int| 0 <= p < m.len() && #[trigger] m[p] && follows(r, p, q);
                    assert(ma[p]);
                }
                if marked_before(*a, ma, q) {
                    let p = choose|p: int|
                        0 <= p < ma.len() && #[trigger] ma[p] && follows(*a, p, q);
                    assert(m[p]);
                }
            } else {
                let q2 = q - a.size();
                lemma_shift_follows(*b, enter, mb, c, q2);
                if marked_before(r, m, q) {
                    let p = choose|p: int| 0 <= p < m.len() && #[trigger] m[p] && follows(r, p, q);
                    assert(mb[p - a.size()]);
                }
                if marked_before(*b, mb, q2) {
                    let p = choose|p: int|
                        0 <= p < mb.len() && #[trigger] mb[p] && follows(*b, p, q2);
                    assert(m[p + a.size()]);
                }
            }
        },
        Regex::Star(a) => {
            lemma_rep_follows(*a, enter, m, c, q);
            lemma_shift_follows(*a, enter || fin(*a, m), m, c, q);
        },
        Regex::Plus(a) => {
            lemma_rep_follows(*a, enter, m, c, q);
            lemma_shift_follows(*a, enter || fin(*a, m), m, c, q);
        },
    }
}

proof fn lemma_rep_follows(a: Regex, enter: bool, m: Seq<bool>, c: char, q: int)
    requires
        m.len() == a.size(),
        0 <= q < a.size(),
    ensures
        (((enter || fin(a, m)) && is_first(a, q)) || marked_before(a, m, q)) == ((enter
            && is_first(a, q)) || (exists|p: int|
            0 <= p < m.len() && #[trigger] m[p] && (follows(a, p, q) || (is_last(a, p)
                && is_first(a, q))))),
{
    lemma_fin_last(a, m);
    let both = exists|p: int|
        0 <= p < m.len() && #[trigger] m[p] && (follows(a, p, q) || (is_last(a, p) && is_first(
            a,
            q,
        )));
    if marked_last(a, m) && is_first(a, q) {
        let p = choose|p: int| 0 <= p < m.len() && #[trigger] m[p] && is_last(a, p);
        assert(m[p] && (follows(a, p, q) || (is_last(a, p) && is_first(a, q))));
    }
    if marked_before(a, m, q) {
        let p = choose|p: int| 0 <= p < m.len() && #[trigger] m[p] && follows(a, p, q);
        assert(m[p] && (follows(a, p, q) || (is_last(a, p) && is_first(a, q))));
    }
    if both {
        let p = choose|p: int|
            0 <= p < m.len() && #[trigger] m[p] && (follows(a, p, q) || (is_last(a, p)
                && is_first(a, q)));
        assert(m[p]);
    }
}

/// A pattern that does not match the empty string has a position at which
/// a match can end.
pub proof fn lemma_some_last(r: Regex) -> (p: int)
    requires
        !r.nullable(),
    ensures
        0 <= p < r.size(),
        is_last(r, p),
    decreases r,
{
    match r {
        Regex::Empty => 0,
        Regex::Atom(_) => 0,
        Regex::Cat(a, b) => {
            if b.nullable() {
                lemma_some_last(*a)
            } else {
                lemma_some_last(*b) + a.size()
            }
        },
        Regex::Alt(a, b) => lemma_some_last(*a),
        Regex::Star(a) => 0,
        Regex::Plus(a) => lemma_some_last(*a),
    }
}

} // verus!
