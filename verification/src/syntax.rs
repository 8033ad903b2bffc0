//! The syntax tree of a pattern and the language that it denotes.

use vstd::prelude::*;
use crate::alphabet::{digit, in_sigma, is_digit, is_letter, letter};

verus! {

/// What a single position of a pattern reads.
#[derive(Clone, Copy, Debug, PartialEq, Eq, Structural)]
pub enum Class {
    /// Exactly this symbol.
    Literal(char),
    /// Any letter.
    Word,
    /// Any digit.
    Digit,
}

impl Class {
    /// The class reads the character `c`. Nothing outside the alphabet is
    /// ever read.
    pub open spec fn has(self, c: char) -> bool {
        match self {
            Class::Literal(x) => c == x && in_sigma(c),
            Class::Word => is_letter(c),
            Class::Digit => is_digit(c),
        }
    }

    /// Tells whether the class reads `c`.
    pub fn reads(self, c: char) -> (r: bool)
        ensures
            r == self.has(c),
    {
        match self {
            Class::Literal(x) => c == x && (letter(c) || digit(c) || c == ' '),
            Class::Word => letter(c),
            Class::Digit => digit(c),
        }
    }
}

/// A pattern as a tree.
#[derive(Debug)]
pub enum Regex {
    /// The empty pattern, which reads nothing.
    Empty,
    /// One position.
    Atom(Class),
    /// The first pattern, then the second.
    Cat(Box<Regex>, Box<Regex>),
    /// The first pattern or the second.
    Alt(Box<Regex>, Box<Regex>),
    /// Zero or more repetitions.
    Star(Box<Regex>),
    /// One or more repetitions.
    Plus(Box<Regex>),
}

impl Regex {
    /// Number of positions: the atoms of the tree, counted from the left.
    pub open spec fn size(self) -> nat
        decreases self,
    {
        match self {
            Regex::Empty => 0,
            Regex::Atom(_) => 1,
            Regex::Cat(a, b) => a.size() + b.size(),
            Regex::Alt(a, b) => a.size() + b.size(),
            Regex::Star(a) => a.size(),
            Regex::Plus(a) => a.size(),
        }
    }

    /// Number of nodes of the tree.
    pub open spec fn rank(self) -> nat
        decreases self,
    {
        match self {
            Regex::Empty => 1,
            Regex::Atom(_) => 1,
            Regex::Cat(a, b) => a.rank() + b.rank() + 1,
            Regex::Alt(a, b) => a.rank() + b.rank() + 1,
            Regex::Star(a) => a.rank() + 1,
            Regex::Plus(a) => a.rank() + 1,
        }
    }

    /// The pattern matches the empty string.
    pub open spec fn nullable(self) -> bool
        decreases self,
    {
        match self {
            Regex::Empty => true,
            Regex::Atom(_) => false,
            Regex::Cat(a, b) => a.nullable() && b.nullable(),
            Regex::Alt(a, b) => a.nullable() || b.nullable(),
            Regex::Star(_) => true,
            Regex::Plus(a) => a.nullable(),
        }
    }

    /// The pattern matches the whole of `s`.
    pub open spec fn matches(self, s: Seq<char>) -> bool
        decreases self, s.len(), 0nat,
    {
        match self {
            Regex::Empty => s.len() == 0,
            Regex::Atom(cls) => s.len() == 1 && cls.has(s[0]),
            Regex::Cat(a, b) => exists|k: int|
                0 <= k <= s.len() && a.matches(#[trigger] s.subrange(0, k)) && b.matches(
                    s.subrange(k, s.len() as int),
                ),
            Regex::Alt(a, b) => a.matches(s) || b.matches(s),
            Regex::Star(a) => a.repeats(s),
            Regex::Plus(a) => exists|k: int|
                0 <= k <= s.len() && a.matches(#[trigger] s.subrange(0, k)) && a.repeats(
                    s.subrange(k, s.len() as int),
                ),
        }
    }

    /// `s` is a sequence of zero or more strings that the pattern matches.
    /// Each round takes at least one character, which loses nothing: a round
    /// that takes none can be left out.
    pub open spec fn repeats(self, s: Seq<char>) -> bool
        decreases self, s.len(), 1nat,
    {
        s.len() == 0 || exists|k: int|
            1 <= k <= s.len() && self.matches(#[trigger] s.subrange(0, k)) && self.repeats(
                s.subrange(k, s.len() as int),
            )
    }

    /// Counts the positions where the count fits the machine.
    pub fn count(&self) -> (r: Option<usize>)
        ensures
            match r {
                Some(n) => n as nat == self.size(),
                None => self.size() > usize::MAX,
            },
        decreases self,
    {
        match self {
            Regex::Empty => Some(0),
            Regex::Atom(_) => Some(1),
            Regex::Cat(a, b) | Regex::Alt(a, b) => {
                match (a.count(), b.count()) {
                    (Some(x), Some(y)) => x.checked_add(y),
                    _ => None,
                }
            },
            Regex::Star(a) | Regex::Plus(a) => a.count(),
        }
    }

    /// Tells whether the pattern matches the empty string.
    pub fn is_nullable(&self) -> (r: bool)
        ensures
            r == self.nullable(),
        decreases self,
    {
        match self {
            Regex::Empty => true,
            Regex::Atom(_) => false,
            Regex::Cat(a, b) => a.is_nullable() && b.is_nullable(),
            Regex::Alt(a, b) => a.is_nullable() || b.is_nullable(),
            Regex::Star(_) => true,
            Regex::Plus(a) => a.is_nullable(),
        }
    }
}

/// A pattern matches the empty string exactly when it is nullable.
pub proof fn lemma_nullable(r: Regex)
    ensures
        r.nullable() == r.matches(Seq::<char>::empty()),
    decreases r,
{
    let e = Seq::<char>::empty();
    match r {
        Regex::Empty => {},
        Regex::Atom(_) => {},
        Regex::Cat(a, b) => {
            lemma_nullable(*a);
            lemma_nullable(*b);
            assert(e.subrange(0, 0) =~= e);
        },
        Regex::Alt(a, b) => {
            lemma_nullable(*a);
            lemma_nullable(*b);
        },
        Regex::Star(a) => {
            assert(a.repeats(e));
        },
        Regex::Plus(a) => {
            lemma_nullable(*a);
            assert(e.subrange(0, 0) =~= e);
            assert(a.repeats(e));
        },
    }
}

/// A string that a pattern matches holds symbols of the alphabet only.
pub proof fn lemma_matches_in_sigma(r: Regex, s: Seq<char>)
    requires
        r.matches(s),
    ensures
        forall|i: int| 0 <= i < s.len() ==> in_sigma(#[trigger] s[i]),
    decreases r, s.len(), 0nat,
{
    match r {
        Regex::Empty => {},
        Regex::Atom(_) => {},
        Regex::Cat(a, b) => {
            let k = choose|k: int|
                0 <= k <= s.len() && a.matches(#[trigger] s.subrange(0, k)) && b.matches(
                    s.subrange(k, s.len() as int),
                );
            lemma_matches_in_sigma(*a, s.subrange(0, k));
            lemma_matches_in_sigma(*b, s.subrange(k, s.len() as int));
            assert forall|i: int| 0 <= i < s.len() implies in_sigma(#[trigger] s[i]) by {
                if i < k {
                    assert(s.subrange(0, k)[i] == s[i]);
                } else {
                    assert(s.subrange(k, s.len() as int)[i - k] == s[i]);
                }
            }
        },
        Regex::Alt(a, b) => {
            if a.matches(s) {
                lemma_matches_in_sigma(*a, s);
            } else {
                lemma_matches_in_sigma(*b, s);
            }
        },
        Regex::Star(a) => {
            lemma_repeats_in_sigma(*a, s);
        },
        Regex::Plus(a) => {
            let k = choose|k: int|
                0 <= k <= s.len() && a.matches(#[trigger] s.subrange(0, k)) && a.repeats(
                    s.subrange(k, s.len() as int),
                );
            lemma_matches_in_sigma(*a, s.subrange(0, k));
            lemma_repeats_in_sigma(*a, s.subrange(k, s.len() as int));
            assert forall|i: int| 0 <= i < s.len() implies in_sigma(#[trigger] s[i]) by {
                if i < k {
                    assert(s.subrange(0, k)[i] == s[i]);
                } else {
                    assert(s.subrange(k, s.len() as int)[i - k] == s[i]);
                }
            }
        },
    }
}

/// A string made of rounds of a pattern holds symbols of the alphabet only.
pub proof fn lemma_repeats_in_sigma(r: Regex, s: Seq<char>)
    requires
        r.repeats(s),
    ensures
        forall|i: int| 0 <= i < s.len() ==> in_sigma(#[trigger] s[i]),
    decreases r, s.len(), 1nat,
{
    if s.len() > 0 {
        let k = choose|k: int|
            1 <= k <= s.len() && r.matches(#[trigger] s.subrange(0, k)) && r.repeats(
                s.subrange(k, s.len() as int),
            );
        lemma_matches_in_sigma(r, s.subrange(0, k));
        lemma_repeats_in_sigma(r, s.subrange(k, s.len() as int));
        assert forall|i: int| 0 <= i < s.len() implies in_sigma(#[trigger] s[i]) by {
            if i < k {
                assert(s.subrange(0, k)[i] == s[i]);
            } else {
                assert(s.subrange(k, s.len() as int)[i - k] == s[i]);
            }
        }
    }
}

} // verus!
