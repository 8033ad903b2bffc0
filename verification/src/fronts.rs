//! Fronts: the states of the deterministic acceptor.
//!
//! A front says, for the input read so far, whether it is a match and which
//! positions of the pattern may be read next. Slot 0 holds the first answer;
//! slot `q + 1` holds the second for position `q`. Two inputs with the same
//! front go on in the same way, so a front is one state.

use vstd::prelude::*;
use crate::marks::{
    cons,
    fin,
    lemma_fin,
    lemma_shift,
    lemma_shift_len,
    lemma_unmarked,
    rest,
    shift,
    unmarked,
};
use crate::positions::{
    class_at,
    is_first,
    lemma_shift_follows,
    marked_before,
};
use crate::syntax::{lemma_nullable, Regex};

verus! {

/// The front after an input that has come as far as the marks `m`; with
/// `enter`, after the empty input as well.
pub open spec fn front_of(r: Regex, enter: bool, m: Seq<bool>) -> Seq<bool> {
    Seq::new(
        r.size() + 1,
        |q: int|
            if q == 0 {
                (enter && r.nullable()) || fin(r, m)
            } else {
                (enter && is_first(r, q - 1)) || marked_before(r, m, q - 1)
            },
    )
}

/// The positions that a front expects and that read `c`, as marks.
pub open spec fn hit(r: Regex, k: Seq<bool>, c: char) -> Seq<bool> {
    Seq::new(r.size(), |q: int| k[q + 1] && class_at(r, q).has(c))
}

/// The front before anything is read.
pub open spec fn start_front(r: Regex) -> Seq<bool> {
    front_of(r, true, Seq::new(r.size(), |q: int| false))
}

/// The front after `c` is read from the front `k`.
pub open spec fn next_front(r: Regex, k: Seq<bool>, c: char) -> Seq<bool> {
    front_of(r, false, hit(r, k, c))
}

/// `w` leads from the front `k` to a match.
pub open spec fn lang(r: Regex, k: Seq<bool>, w: Seq<char>) -> bool {
    if w.len() == 0 {
        k[0]
    } else {
        rest(r, hit(r, k, w[0]), w.drop_first())
    }
}

/// From the start front, exactly the matches of the pattern lead to a match.
pub proof fn lemma_start_front(r: Regex, w: Seq<char>)
    ensures
        lang(r, start_front(r), w) == r.matches(w),
{
    let um = Seq::new(r.size(), |q: int| false);
    let k = start_front(r);
    lemma_unmarked(r, um, w);
    if w.len() == 0 {
        lemma_nullable(r);
        assert(w =~= Seq::<char>::empty());
    } else {
        let c = w[0];
        let v = w.drop_first();
        assert(w =~= cons(c, v));
        let h = hit(r, k, c);
        let s = shift(r, true, um, c);
        assert forall|q: int| 0 <= q < r.size() implies h[q] == s[q] by {
            lemma_shift_follows(r, true, um, c, q);
        }
        lemma_shift_len(r, true, um, c);
        assert(h =~= s);
        lemma_shift(r, true, um, c, v);
        lemma_unmarked(r, um, cons(c, v));
    }
}

/// Reading `c` and going on from the next front is going on with `c` from
/// the front before.
pub proof fn lemma_next_front(r: Regex, k: Seq<bool>, c: char, v: Seq<char>)
    requires
        k.len() == r.size() + 1,
    ensures
        lang(r, next_front(r, k, c), v) == lang(r, k, cons(c, v)),
{
    let h = hit(r, k, c);
    let k2 = next_front(r, k, c);
    let w = cons(c, v);
    assert(w[0] == c);
    assert(w.drop_first() =~= v);
    if v.len() == 0 {
        lemma_fin(r, h);
        assert(v =~= Seq::<char>::empty());
    } else {
        let d = v[0];
        let u = v.drop_first();
        assert(v =~= cons(d, u));
        let h2 = hit(r, k2, d);
        let s = shift(r, false, h, d);
        lemma_shift_len(r, false, h, d);
        assert forall|q: int| 0 <= q < r.size() implies h2[q] == s[q] by {
            lemma_shift_follows(r, false, h, d, q);
        }
        assert(h2 =~= s);
        lemma_shift(r, false, h, d, u);
    }
}

/// Where no expected position reads `c`, nothing that begins with `c` leads
/// to a match.
pub proof fn lemma_dead(r: Regex, k: Seq<bool>, c: char, v: Seq<char>)
    requires
        k.len() == r.size() + 1,
        unmarked(hit(r, k, c)),
    ensures
        !lang(r, k, cons(c, v)),
{
    let w = cons(c, v);
    assert(w[0] == c);
    assert(w.drop_first() =~= v);
    lemma_unmarked(r, hit(r, k, c), v);
}

/// Two to the power `n`.
pub open spec fn two_to(n: nat) -> nat
    decreases n,
{
    if n == 0 {
        1
    } else {
        2 * two_to((n - 1) as nat)
    }
}

/// A front read as a number in base two.
pub open spec fn code(k: Seq<bool>) -> int
    decreases k.len(),
{
    if k.len() == 0 {
        0
    } else {
        2 * code(k.drop_last()) + if k.last() {
            1int
        } else {
            0int
        }
    }
}

proof fn lemma_code_bound(k: Seq<bool>)
    ensures
        0 <= code(k) < two_to(k.len()),
    decreases k.len(),
{
    if k.len() > 0 {
        lemma_code_bound(k.drop_last());
    }
}

proof fn lemma_code_injective(a: Seq<bool>, b: Seq<bool>)
    requires
        a.len() == b.len(),
        code(a) == code(b),
    ensures
        a == b,
    decreases a.len(),
{
    if a.len() > 0 {
        lemma_code_injective(a.drop_last(), b.drop_last());
        assert(a =~= a.drop_last().push(a.last()));
        assert(b =~= b.drop_last().push(b.last()));
    } else {
        assert(a =~= b);
    }
}

/// The fronts of `ks` have `n` slots each and no two are the same.
pub open spec fn distinct_fronts(ks: Seq<Seq<bool>>, n: nat) -> bool {
    &&& forall|i: int| 0 <= i < ks.len() ==> (#[trigger] ks[i]).len() == n
    &&& forall|i: int, j: int| 0 <= i < j < ks.len() ==> #[trigger] ks[i] != #[trigger] ks[j]
}

/// There are no more distinct fronts of `n` slots than two to the power `n`.
pub proof fn lemma_fronts_bound(ks: Seq<Seq<bool>>, n: nat)
    requires
        distinct_fronts(ks, n),
    ensures
        ks.len() <= two_to(n),
{
    let codes = Seq::new(ks.len(), |i: int| code(ks[i]));
    assert forall|i: int, j: int| 0 <= i < codes.len() && 0 <= j < codes.len() && i != j implies codes[i]
        != codes[j] by {
        if codes[i] == codes[j] {
            lemma_code_injective(ks[i], ks[j]);
            if i < j {
                assert(ks[i] != ks[j]);
            } else {
                assert(ks[j] != ks[i]);
            }
        }
    }
    assert(codes.no_duplicates());
    codes.unique_seq_to_set();
    let all = vstd::set_lib::set_int_range(0, two_to(n) as int);
    vstd::set_lib::lemma_int_range(0, two_to(n) as int);
    assert forall|x: int| codes.to_set().contains(x) implies all.contains(x) by {
        let i = choose|i: int| 0 <= i < codes.len() && codes[i] == x;
        lemma_code_bound(ks[i]);
    }
    vstd::set_lib::lemma_len_subset(codes.to_set(), all);
}

} // verus!
