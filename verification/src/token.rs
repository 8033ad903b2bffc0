//! Tokens, and the scanner that produces them from the characters of a pattern.

use vstd::prelude::*;
use vstd::string::*;
use crate::alphabet::{in_sigma, is_operator, pattern_char};
use crate::error::RegexError;

verus! {

/// One classified unit of a pattern.
#[derive(Clone, Copy, Debug, PartialEq, Eq, Structural)]
pub enum Token {
    /// A symbol that stands for itself.
    Literal(char),
    /// Any letter, written `\w`.
    WordClass,
    /// Any digit, written `\d`.
    DigitClass,
    /// Zero or more repetitions, written `*`.
    Star,
    /// One or more repetitions, written `+`.
    Plus,
    /// Alternation, written `|`.
    Alt,
    /// Opening delimiter of a group, written `(` or `{`.
    GroupOpen,
    /// Closing delimiter of a group, written `)` or `}`.
    GroupClose,
}

/// The token of a character that does not follow a backslash.
pub open spec fn plain_token(c: char) -> Token {
    if c == '(' || c == '{' {
        Token::GroupOpen
    } else if c == ')' || c == '}' {
        Token::GroupClose
    } else if c == '*' {
        Token::Star
    } else if c == '+' {
        Token::Plus
    } else if c == '|' {
        Token::Alt
    } else {
        Token::Literal(c)
    }
}

/// The token of the character that follows a backslash.
pub open spec fn escape_token(c: char) -> Token {
    if c == 'w' {
        Token::WordClass
    } else {
        Token::DigitClass
    }
}

/// Every character of `s` is a symbol or an operator.
pub open spec fn all_pattern_chars(s: Seq<char>) -> bool {
    forall|i: int| 0 <= i < s.len() ==> in_sigma(#[trigger] s[i]) || is_operator(s[i])
}

/// From index `i` on, every backslash that opens an escape is followed by
/// `w` or `d`. A backslash at the very end opens an escape with nothing
/// behind it.
pub open spec fn escapes_ok_from(s: Seq<char>, i: int) -> bool
    decreases s.len() - i,
{
    if i < 0 || i >= s.len() {
        true
    } else if s[i] == '\\' {
        i + 1 < s.len() && (s[i + 1] == 'w' || s[i + 1] == 'd') && escapes_ok_from(s, i + 2)
    } else {
        escapes_ok_from(s, i + 1)
    }
}

/// The tokens of `s` from index `i` on, where the escapes are in order.
pub open spec fn tokens_from(s: Seq<char>, i: int) -> Seq<Token>
    decreases s.len() - i,
{
    if i < 0 || i >= s.len() {
        Seq::empty()
    } else if s[i] == '\\' {
        if i + 1 < s.len() {
            seq![escape_token(s[i + 1])] + tokens_from(s, i + 2)
        } else {
            Seq::empty()
        }
    } else {
        seq![plain_token(s[i])] + tokens_from(s, i + 1)
    }
}

/// How often `t` occurs in `ts`.
pub open spec fn count_of(ts: Seq<Token>, t: Token) -> nat
    decreases ts.len(),
{
    if ts.len() == 0 {
        0
    } else {
        count_of(ts.drop_last(), t) + if ts.last() == t {
            1nat
        } else {
            0nat
        }
    }
}

/// As many groups are closed as are opened.
pub open spec fn groups_pair_up(ts: Seq<Token>) -> bool {
    count_of(ts, Token::GroupOpen) == count_of(ts, Token::GroupClose)
}

/// What scanning `s` yields: the first failure in the order character,
/// escape, grouping, or else the tokens.
pub open spec fn scan_result(s: Seq<char>) -> Result<Seq<Token>, RegexError> {
    if !all_pattern_chars(s) {
        Err(RegexError::InvalidCharacter)
    } else if !escapes_ok_from(s, 0) {
        Err(RegexError::InvalidEscape)
    } else if !groups_pair_up(tokens_from(s, 0)) {
        Err(RegexError::UnbalancedGrouping)
    } else {
        Ok(tokens_from(s, 0))
    }
}

proof fn lemma_count_push(ts: Seq<Token>, x: Token, t: Token)
    ensures
        count_of(ts.push(x), t) == count_of(ts, t) + if x == t {
            1nat
        } else {
            0nat
        },
{
    assert(ts.push(x).drop_last() =~= ts);
}

/// A count never exceeds the length.
pub proof fn lemma_count_bound(ts: Seq<Token>, t: Token)
    ensures
        count_of(ts, t) <= ts.len(),
    decreases ts.len(),
{
    if ts.len() > 0 {
        lemma_count_bound(ts.drop_last(), t);
    }
}

/// Scans a pattern into tokens.
///
/// Fails with `InvalidCharacter` where a character is neither a symbol nor an
/// operator, else with `InvalidEscape` where a backslash is not followed by
/// `w` or `d`, else with `UnbalancedGrouping` where the numbers of opening and
/// closing delimiters differ.
pub fn scan_regex(reg: &str) -> (r: Result<Vec<Token>, RegexError>)
    ensures
        match r {
            Ok(ts) => scan_result(reg@) == Ok::<Seq<Token>, RegexError>(ts@),
            Err(e) => scan_result(reg@) == Err::<Seq<Token>, RegexError>(e),
        },
{
    let n: usize = reg.unicode_len();
    let mut k: usize = 0;
    while k < n
        invariant
            n == reg@.len(),
            k <= n,
            forall|j: int| 0 <= j < k ==> in_sigma(#[trigger] reg@[j]) || is_operator(reg@[j]),
        decreases n - k,
    {
        if !pattern_char(reg.get_char(k)) {
            return Err(RegexError::InvalidCharacter);
        }
        k += 1;
    }
    let mut out: Vec<Token> = Vec::new();
    let mut opened: usize = 0;
    let mut closed: usize = 0;
    let mut i: usize = 0;
    while i < n
        invariant
            n == reg@.len(),
            i <= n,
            out@.len() <= i,
            all_pattern_chars(reg@),
            escapes_ok_from(reg@, 0) == escapes_ok_from(reg@, i as int),
            tokens_from(reg@, 0) == out@ + tokens_from(reg@, i as int),
            opened == count_of(out@, Token::GroupOpen),
            closed == count_of(out@, Token::GroupClose),
        decreases n - i,
    {
        let c = reg.get_char(i);
        let ghost before = out@;
        let tok: Token;
        let step: usize;
        if c == '\\' {
            if i + 1 >= n {
                return Err(RegexError::InvalidEscape);
            }
            let d = reg.get_char(i + 1);
            if d == 'w' {
                tok = Token::WordClass;
            } else if d == 'd' {
                tok = Token::DigitClass;
            } else {
                return Err(RegexError::InvalidEscape);
            }
            step = 2;
        } else {
            step = 1;
            if c == '(' || c == '{' {
                tok = Token::GroupOpen;
            } else if c == ')' || c == '}' {
                tok = Token::GroupClose;
            } else if c == '*' {
                tok = Token::Star;
            } else if c == '+' {
                tok = Token::Plus;
            } else if c == '|' {
                tok = Token::Alt;
            } else {
                tok = Token::Literal(c);
            }
        }
        proof {
            lemma_count_push(before, tok, Token::GroupOpen);
            lemma_count_push(before, tok, Token::GroupClose);
            lemma_count_bound(before, Token::GroupOpen);
            lemma_count_bound(before, Token::GroupClose);
            assert(before.push(tok) + tokens_from(reg@, i + step) =~= before + (seq![tok]
                + tokens_from(reg@, i + step)));
        }
        if tok == Token::GroupOpen {
            opened += 1;
        }
        if tok == Token::GroupClose {
            closed += 1;
        }
        out.push(tok);
        i += step;
    }
    proof {
        assert(out@ + tokens_from(reg@, n as int) =~= out@);
    }
    if opened != closed {
        return Err(RegexError::UnbalancedGrouping);
    }
    Ok(out)
}

} // verus!
