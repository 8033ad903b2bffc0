//! The ways in which a pattern can be refused.

use vstd::prelude::*;

verus! {

/// Why a pattern was refused. Every failure is final: nothing is retried.
#[derive(Clone, Copy, Debug, PartialEq, Eq, Structural)]
pub enum RegexError {
    /// The program was not given exactly one pattern.
    InvalidArgumentCount,
    /// The pattern holds a character that is neither a symbol nor an operator.
    InvalidCharacter,
    /// A backslash is not followed by `w` or `d`.
    InvalidEscape,
    /// The group delimiters do not pair up.
    UnbalancedGrouping,
    /// The pattern begins with `*`, `+`, `|` or a closing delimiter.
    InvalidStartSymbol,
    /// Two operators stand next to each other in a way the syntax forbids.
    InvalidOperatorSequence,
    /// A token stands where the grammar has no place for it.
    MalformedToken,
}

} // verus!
