//! The fixed symbol set and the operator characters of the pattern syntax.

use vstd::prelude::*;

verus! {

/// Number of symbols in the alphabet: 26 letters, 10 digits and the space.
pub const SIGMA_LEN: usize = 37;

/// `c` is one of the lowercase letters `a` to `z`.
pub open spec fn is_letter(c: char) -> bool {
    'a' <= c && c <= 'z'
}

/// `c` is one of the digits `0` to `9`.
pub open spec fn is_digit(c: char) -> bool {
    '0' <= c && c <= '9'
}

/// `c` belongs to the alphabet.
pub open spec fn in_sigma(c: char) -> bool {
    is_letter(c) || is_digit(c) || c == ' '
}

/// `c` is one of the eight operator characters of the pattern syntax.
pub open spec fn is_operator(c: char) -> bool {
    c == '|' || c == '{' || c == '}' || c == '(' || c == ')' || c == '*' || c == '+' || c == '\\'
}

/// The column of `c` in a table row: letters first, then digits, then the
/// space. Meaningful only for symbols of the alphabet.
pub open spec fn symbol_index(c: char) -> int {
    if is_letter(c) {
        c as int - 'a' as int
    } else if is_digit(c) {
        26 + (c as int - '0' as int)
    } else {
        36
    }
}

/// The symbol that stands at column `i`; the space for every `i` behind the
/// digits.
pub open spec fn symbol_at(i: int) -> char {
    if 0 <= i < 26 {
        (('a' as int + i) as u8) as char
    } else if 26 <= i < 36 {
        (('0' as int + (i - 26)) as u8) as char
    } else {
        ' '
    }
}

/// Every symbol has a column, and the column gives the symbol back.
pub proof fn lemma_symbol_round_trip(c: char)
    requires
        in_sigma(c),
    ensures
        0 <= symbol_index(c) < SIGMA_LEN as int,
        symbol_at(symbol_index(c)) == c,
{
}

/// Every column holds a symbol, and the symbol gives the column back.
pub proof fn lemma_index_round_trip(i: int)
    requires
        0 <= i < SIGMA_LEN as int,
    ensures
        in_sigma(symbol_at(i)),
        symbol_index(symbol_at(i)) == i,
{
}

/// Tells whether `c` is a lowercase letter.
pub fn letter(c: char) -> (r: bool)
    ensures
        r == is_letter(c),
{
    'a' <= c && c <= 'z'
}

/// Tells whether `c` is a digit.
pub fn digit(c: char) -> (r: bool)
    ensures
        r == is_digit(c),
{
    '0' <= c && c <= '9'
}

/// Column of `c`, or `None` where `c` is outside the alphabet.
pub fn column_of(c: char) -> (r: Option<usize>)
    ensures
        r.is_some() == in_sigma(c),
        r.is_some() ==> r.unwrap() as int == symbol_index(c) && r.unwrap() < SIGMA_LEN,
{
    if letter(c) {
        Some((c as u32 - 'a' as u32) as usize)
    } else if digit(c) {
        Some(26 + (c as u32 - '0' as u32) as usize)
    } else if c == ' ' {
        Some(36)
    } else {
        None
    }
}

/// The symbol of column `i`; the space for every `i` behind the digits.
pub fn symbol_of(i: usize) -> (c: char)
    ensures
        c == symbol_at(i as int),
        in_sigma(c),
{
    if i < 26 {
        (('a' as u8) + (i as u8)) as char
    } else if i < 36 {
        (('0' as u8) + ((i - 26) as u8)) as char
    } else {
        ' '
    }
}

/// Tells whether `c` may stand in a pattern: a symbol or an operator.
pub fn pattern_char(c: char) -> (r: bool)
    ensures
        r == (in_sigma(c) || is_operator(c)),
{
    column_of(c).is_some() || c == '|' || c == '{' || c == '}' || c == '(' || c == ')' || c == '*'
        || c == '+' || c == '\\'
}

} // verus!
