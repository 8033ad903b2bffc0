//! From tokens, or from the characters of a pattern, to the transition
//! table.

use vstd::prelude::*;
use crate::builder::{build_table, compiled};
use crate::error::RegexError;
use crate::laws::{lemma_compiled_language, lemma_compiled_wf};
use crate::parser::{bad_sequence, bad_start, invalid_next, pair_ok, parse, spec_parse};
use crate::syntax::Regex;
use crate::table::TransitionTable;
use crate::token::{scan_regex, scan_result, Token};

verus! {

/// What a token sequence stands for: the first failure in the order start
/// symbol, operator sequence, placement, or else the tree.
pub open spec fn parse_result(ts: Seq<Token>) -> Result<Regex, RegexError> {
    if bad_start(ts) {
        Err(RegexError::InvalidStartSymbol)
    } else if bad_sequence(ts) {
        Err(RegexError::InvalidOperatorSequence)
    } else {
        match spec_parse(ts) {
            Some(r) => Ok(r),
            None => Err(RegexError::MalformedToken),
        }
    }
}

/// What a pattern stands for: the failure of scanning it, or what its tokens
/// stand for.
pub open spec fn compile_result(s: Seq<char>) -> Result<Regex, RegexError> {
    match scan_result(s) {
        Ok(ts) => parse_result(ts),
        Err(e) => Err(e),
    }
}

/// The table `t` is the table of the pattern with the characters `s`.
pub open spec fn compiles_to(s: Seq<char>, t: TransitionTable) -> bool {
    compile_result(s) matches Ok(r) && compiled(t, r)
}

/// Tells whether the sequence begins with a token that cannot begin a
/// pattern.
fn starts_badly(ts: &Vec<Token>) -> (r: bool)
    ensures
        r == bad_start(ts@),
{
    if ts.len() == 0 {
        return false;
    }
    let t = ts[0];
    t == Token::Star || t == Token::Plus || t == Token::Alt || t == Token::GroupClose
}

/// Tells whether some token is followed by one that may not follow it, or
/// the sequence ends with a `|`.
fn orders_badly(ts: &Vec<Token>) -> (r: bool)
    ensures
        r == bad_sequence(ts@),
{
    let n = ts.len();
    if n == 0 {
        return false;
    }
    let mut i: usize = 0;
    while i < n - 1
        invariant
            n == ts@.len(),
            n >= 1,
            i <= n - 1,
            forall|j: int| 0 <= j < i ==> pair_ok(#[trigger] ts@[j], ts@[j + 1]),
        decreases n - i,
    {
        if !invalid_next(ts[i], &ts[i + 1]) {
            return true;
        }
        i += 1;
    }
    ts[n - 1] == Token::Alt
}

/// Compiles a token sequence into its transition table.
///
/// Fails with `InvalidStartSymbol` where the sequence begins with `*`, `+`,
/// `|` or a closing delimiter; else with `InvalidOperatorSequence` where two
/// operators stand next to each other in a refused way or the sequence ends
/// with `|`; else with `MalformedToken` where the grammar has no place for a
/// token. Otherwise the table is the table of the tree of the sequence, and
/// accepts exactly the strings that the tree matches.
pub fn parse_regex(reg: Vec<Token>) -> (res: Result<TransitionTable, RegexError>)
    ensures
        match res {
            Ok(t) => parse_result(reg@) matches Ok(r) && compiled(t, r) && t.wf() && forall|
                w: Seq<char>,
            |
                t.accepts(w) == r.matches(w),
            Err(e) => parse_result(reg@) == Err::<Regex, RegexError>(e),
        },
{
    if starts_badly(&reg) {
        return Err(RegexError::InvalidStartSymbol);
    }
    if orders_badly(&reg) {
        return Err(RegexError::InvalidOperatorSequence);
    }
    match parse(&reg) {
        Some(r) => {
            let t = build_table(&r);
            proof {
                lemma_compiled_wf(t, r);
                assert forall|w: Seq<char>| t.accepts(w) == r.matches(w) by {
                    lemma_compiled_language(t, r, w);
                }
            }
            Ok(t)
        },
        None => Err(RegexError::MalformedToken),
    }
}

/// Compiles a pattern into its transition table: scans it, then compiles the
/// tokens. Fails with the first failure of either step.
pub fn compile(pattern: &str) -> (res: Result<TransitionTable, RegexError>)
    ensures
        match res {
            Ok(t) => compiles_to(pattern@, t) && t.wf() && forall|w: Seq<char>|
                t.accepts(w) == compile_result(pattern@).unwrap().matches(w),
            Err(e) => compile_result(pattern@) == Err::<Regex, RegexError>(e),
        },
{
    match scan_regex(pattern) {
        Ok(ts) => parse_regex(ts),
        Err(e) => Err(e),
    }
}

} // verus!
