//! The grammar of patterns: which token sequences are refused, and the tree
//! that an accepted sequence stands for.
//!
//! ```text
//! E -> C '|' E | C
//! C -> S C | S | (nothing)
//! S -> P '*' | P '+' | P
//! P -> '(' E ')' | literal | word class | digit class
//! ```

use vstd::prelude::*;
use crate::alphabet::{column_of, in_sigma};
use crate::syntax::{Class, Regex};
use crate::token::Token;

verus! {

/// `next` may stand directly behind `first`.
///
/// An opening delimiter is not followed by `*`, `+` or `|`; a `|` is not
/// followed by a closing delimiter, `*`, `+` or `|`; a `*` or `+` is not
/// followed by `*` or `+`.
pub open spec fn pair_ok(first: Token, next: Token) -> bool {
    match first {
        Token::GroupOpen => !(next == Token::Star || next == Token::Plus || next == Token::Alt),
        Token::Alt => !(next == Token::GroupClose || next == Token::Star || next == Token::Plus
            || next == Token::Alt),
        Token::Star | Token::Plus => !(next == Token::Star || next == Token::Plus),
        _ => true,
    }
}

/// Tells whether `next` may stand directly behind `first`: `true` where the
/// pair is in order, `false` where it is refused.
pub fn invalid_next(first: Token, next: &Token) -> (r: bool)
    ensures
        r == pair_ok(first, *next),
{
    let n = *next;
    match first {
        Token::GroupOpen => !(n == Token::Star || n == Token::Plus || n == Token::Alt),
        Token::Alt => !(n == Token::GroupClose || n == Token::Star || n == Token::Plus || n
            == Token::Alt),
        Token::Star | Token::Plus => !(n == Token::Star || n == Token::Plus),
        _ => true,
    }
}

/// The sequence begins with a token that cannot begin a pattern.
pub open spec fn bad_start(ts: Seq<Token>) -> bool {
    ts.len() > 0 && (ts[0] == Token::Star || ts[0] == Token::Plus || ts[0] == Token::Alt || ts[0]
        == Token::GroupClose)
}

/// Some token is followed by one that may not follow it, or the sequence
/// ends with a `|`, which nothing follows.
pub open spec fn bad_sequence(ts: Seq<Token>) -> bool {
    (exists|i: int| 0 <= i < ts.len() - 1 && !pair_ok(#[trigger] ts[i], ts[i + 1])) || (ts.len()
        > 0 && ts.last() == Token::Alt)
}

/// The token at `i` ends a concatenation: the end of the sequence, a `|` or
/// a closing delimiter.
pub open spec fn at_stop(ts: Seq<Token>, i: int) -> bool {
    i >= ts.len() || ts[i] == Token::Alt || ts[i] == Token::GroupClose
}

/// Parses one primary at `i`: a position, or a group in delimiters. Gives
/// the tree and the index behind it.
pub open spec fn parse_atom(ts: Seq<Token>, i: int) -> Option<(Regex, int)>
    decreases ts.len() - i, 0nat,
{
    if i < 0 || i >= ts.len() {
        None
    } else {
        match ts[i] {
            Token::Literal(c) => if in_sigma(c) {
                Some((Regex::Atom(Class::Literal(c)), i + 1))
            } else {
                None
            },
            Token::WordClass => Some((Regex::Atom(Class::Word), i + 1)),
            Token::DigitClass => Some((Regex::Atom(Class::Digit), i + 1)),
            Token::GroupOpen => match parse_alt(ts, i + 1) {
                Some((e, j)) => if i < j < ts.len() && ts[j] == Token::GroupClose {
                    Some((e, j + 1))
                } else {
                    None
                },
                None => None,
            },
            _ => None,
        }
    }
}

/// Parses one primary at `i` with the `*` or `+` that may follow it.
pub open spec fn parse_rep(ts: Seq<Token>, i: int) -> Option<(Regex, int)>
    decreases ts.len() - i, 1nat,
{
    if i < 0 || i >= ts.len() {
        None
    } else {
        match parse_atom(ts, i) {
            Some((p, j)) => if i < j <= ts.len() {
                if j < ts.len() && ts[j] == Token::Star {
                    Some((Regex::Star(Box::new(p)), j + 1))
                } else if j < ts.len() && ts[j] == Token::Plus {
                    Some((Regex::Plus(Box::new(p)), j + 1))
                } else {
                    Some((p, j))
                }
            } else {
                None
            },
            None => None,
        }
    }
}

/// Parses a concatenation at `i`, up to the end, a `|` or a closing
/// delimiter. A concatenation of nothing is the empty pattern.
pub open spec fn parse_cat(ts: Seq<Token>, i: int) -> Option<(Regex, int)>
    decreases ts.len() - i, 2nat,
{
    if i < 0 || i > ts.len() {
        None
    } else if at_stop(ts, i) {
        Some((Regex::Empty, i))
    } else {
        match parse_rep(ts, i) {
            Some((s, j)) => if i < j <= ts.len() {
                if at_stop(ts, j) {
                    Some((s, j))
                } else {
                    match parse_cat(ts, j) {
                        Some((c, k)) => Some((Regex::Cat(Box::new(s), Box::new(c)), k)),
                        None => None,
                    }
                }
            } else {
                None
            },
            None => None,
        }
    }
}

/// Parses an alternation at `i`: concatenations separated by `|`, grouped
/// from the right.
pub open spec fn parse_alt(ts: Seq<Token>, i: int) -> Option<(Regex, int)>
    decreases ts.len() - i, 3nat,
{
    if i < 0 {
        None
    } else {
        match parse_cat(ts, i) {
            Some((c, j)) => if i <= j < ts.len() && ts[j] == Token::Alt {
                match parse_alt(ts, j + 1) {
                    Some((e, k)) => Some((Regex::Alt(Box::new(c), Box::new(e)), k)),
                    None => None,
                }
            } else {
                Some((c, j))
            },
            None => None,
        }
    }
}

/// The tree of a whole token sequence, where the grammar has a place for
/// every token.
pub open spec fn spec_parse(ts: Seq<Token>) -> Option<Regex> {
    match parse_alt(ts, 0) {
        Some((r, j)) => if j == ts.len() {
            Some(r)
        } else {
            None
        },
        None => None,
    }
}

/// Tells whether the token at `i` ends a concatenation.
fn stop_at(ts: &Vec<Token>, i: usize) -> (r: bool)
    ensures
        r == at_stop(ts@, i as int),
{
    if i >= ts.len() {
        true
    } else {
        let t = ts[i];
        t == Token::Alt || t == Token::GroupClose
    }
}

/// Parses one primary at `i`.
pub fn primary(ts: &Vec<Token>, i: usize) -> (r: Option<(Regex, usize)>)
    ensures
        match r {
            Some((e, j)) => parse_atom(ts@, i as int) == Some((e, j as int)) && i < j <= ts@.len(),
            None => parse_atom(ts@, i as int).is_none(),
        },
    decreases ts@.len() - i, 0nat,
{
    if i >= ts.len() {
        return None;
    }
    match ts[i] {
        Token::Literal(c) => {
            if column_of(c).is_some() {
                Some((Regex::Atom(Class::Literal(c)), i + 1))
            } else {
                None
            }
        },
        Token::WordClass => Some((Regex::Atom(Class::Word), i + 1)),
        Token::DigitClass => Some((Regex::Atom(Class::Digit), i + 1)),
        Token::GroupOpen => {
            match alternation(ts, i + 1) {
                Some((e, j)) => {
                    if j < ts.len() && ts[j] == Token::GroupClose {
                        Some((e, j + 1))
                    } else {
                        None
                    }
                },
                None => None,
            }
        },
        _ => None,
    }
}

/// Parses one primary at `i` with the `*` or `+` that may follow it.
pub fn repetition(ts: &Vec<Token>, i: usize) -> (r: Option<(Regex, usize)>)
    ensures
        match r {
            Some((e, j)) => parse_rep(ts@, i as int) == Some((e, j as int)) && i < j <= ts@.len(),
            None => parse_rep(ts@, i as int).is_none(),
        },
    decreases ts@.len() - i, 1nat,
{
    if i >= ts.len() {
        return None;
    }
    match primary(ts, i) {
        Some((p, j)) => {
            if j < ts.len() && ts[j] == Token::Star {
                Some((Regex::Star(Box::new(p)), j + 1))
            } else if j < ts.len() && ts[j] == Token::Plus {
                Some((Regex::Plus(Box::new(p)), j + 1))
            } else {
                Some((p, j))
            }
        },
        None => None,
    }
}

/// Parses a concatenation at `i`.
pub fn concatenation(ts: &Vec<Token>, i: usize) -> (r: Option<(Regex, usize)>)
    ensures
        match r {
            Some((e, j)) => parse_cat(ts@, i as int) == Some((e, j as int)) && i <= j
                <= ts@.len(),
            None => parse_cat(ts@, i as int).is_none(),
        },
    decreases ts@.len() - i, 2nat,
{
    if stop_at(ts, i) {
        if i > ts.len() {
            return None;
        }
        return Some((Regex::Empty, i));
    }
    match repetition(ts, i) {
        Some((s, j)) => {
            if stop_at(ts, j) {
                Some((s, j))
            } else {
                match concatenation(ts, j) {
                    Some((c, k)) => Some((Regex::Cat(Box::new(s), Box::new(c)), k)),
                    None => None,
                }
            }
        },
        None => None,
    }
}

/// Parses an alternation at `i`.
pub fn alternation(ts: &Vec<Token>, i: usize) -> (r: Option<(Regex, usize)>)
    ensures
        match r {
            Some((e, j)) => parse_alt(ts@, i as int) == Some((e, j as int)) && i <= j
                <= ts@.len(),
            None => parse_alt(ts@, i as int).is_none(),
        },
    decreases ts@.len() - i, 3nat,
{
    match concatenation(ts, i) {
        Some((c, j)) => {
            if j < ts.len() && ts[j] == Token::Alt {
                match alternation(ts, j + 1) {
                    Some((e, k)) => Some((Regex::Alt(Box::new(c), Box::new(e)), k)),
                    None => None,
                }
            } else {
                Some((c, j))
            }
        },
        None => None,
    }
}

/// Parses a whole token sequence into its tree; `None` where the grammar has
/// no place for some token.
pub fn parse(ts: &Vec<Token>) -> (r: Option<Regex>)
    ensures
        r == spec_parse(ts@),
{
    match alternation(ts, 0) {
        Some((e, j)) => {
            if j == ts.len() {
                Some(e)
            } else {
                None
            }
        },
        None => None,
    }
}

} // verus!
