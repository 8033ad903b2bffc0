//! What the acceptor says to the outside: the pattern to take from the
//! arguments, the answer to an input line, and the state diagram as text.

use vstd::prelude::*;
use vstd::string::*;
use crate::alphabet::{symbol_at, symbol_of};
use crate::error::RegexError;
use crate::table::{check_string, TransitionTable};

verus! {

/// Takes the pattern from the arguments: there must be exactly one.
pub fn only_argument(args: Vec<String>) -> (r: Result<String, RegexError>)
    ensures
        args@.len() == 1 ==> r == Ok::<String, RegexError>(args@[0]),
        args@.len() != 1 ==> r == Err::<String, RegexError>(RegexError::InvalidArgumentCount),
{
    let mut args = args;
    if args.len() != 1 {
        return Err(RegexError::InvalidArgumentCount);
    }
    match args.pop() {
        Some(pattern) => Ok(pattern),
        None => Err(RegexError::InvalidArgumentCount),
    }
}

/// The answer to an input line: `Accept` or `Reject`, a space, and the line.
pub open spec fn answer(t: TransitionTable, line: Seq<char>) -> Seq<char> {
    if t.accepts(line) {
        "Accept "@ + line
    } else {
        "Reject "@ + line
    }
}

/// Answers an input line.
pub fn verdict(line: &str, table: &TransitionTable) -> (r: String)
    ensures
        r@ == answer(*table, line@),
{
    let mut out = if check_string(line, table) {
        String::from_str("Accept ")
    } else {
        String::from_str("Reject ")
    };
    out.append(line);
    out
}

/// The character of the digit `d`.
pub open spec fn digit_char(d: int) -> char {
    symbol_at(26 + d)
}

/// The number `n` in decimal.
pub open spec fn decimal(n: nat) -> Seq<char>
    decreases n,
{
    if n < 10 {
        seq![digit_char(n as int)]
    } else {
        decimal(n / 10).push(digit_char((n % 10) as int))
    }
}

/// The names of the first `upto` accepting states, separated by commas.
pub open spec fn accept_names(accept: Seq<usize>, upto: int) -> Seq<char>
    decreases upto,
{
    if upto <= 0 {
        Seq::empty()
    } else if upto == 1 {
        decimal(accept[0] as nat)
    } else {
        accept_names(accept, upto - 1) + ", "@ + decimal(accept[upto - 1] as nat)
    }
}

/// The line of the edge from state `from` to state `to` on column `a`.
pub open spec fn edge_line(from: nat, a: int, to: nat) -> Seq<char> {
    "\t"@ + decimal(from) + " -> "@ + decimal(to) + " [label=\""@ + seq![symbol_at(a)]
        + "\"];\n"@
}

/// The lines of the edges of one row, for the columns below `upto`.
pub open spec fn row_lines(row: Seq<Option<usize>>, from: nat, upto: int) -> Seq<char>
    decreases upto,
{
    if upto <= 0 {
        Seq::empty()
    } else {
        row_lines(row, from, upto - 1) + match row[upto - 1] {
            Some(to) => edge_line(from, upto - 1, to as nat),
            None => Seq::empty(),
        }
    }
}

/// The lines of the edges of the rows below `upto`.
pub open spec fn table_lines(rows: Seq<Vec<Option<usize>>>, upto: int) -> Seq<char>
    decreases upto,
{
    if upto <= 0 {
        Seq::empty()
    } else {
        table_lines(rows, upto - 1) + row_lines(
            rows[upto - 1]@,
            (upto - 1) as nat,
            rows[upto - 1]@.len() as int,
        )
    }
}

/// The state diagram of a table as a graph description: a start marker that
/// points at state 0, the accepting states drawn with a double circle, and
/// one edge for every cell that is not empty, labelled with its symbol.
pub open spec fn diagram_text(t: TransitionTable) -> Seq<char> {
    "digraph {\n\n\tnode [shape=point]; start;\n\tnode [shape=doublecircle]; "@ + accept_names(
        t.accept@,
        t.accept@.len() as int,
    ) + ";\n\tnode [shape=circle];\n\n\tstart -> 0;\n"@ + table_lines(
        t.rows@,
        t.rows@.len() as int,
    ) + "\n}"@
}

/// Appends the characters of `s`.
fn push_text(out: &mut Vec<char>, s: &str)
    ensures
        final(out)@ == old(out)@ + s@,
{
    let n = s.unicode_len();
    let mut i: usize = 0;
    while i < n
        invariant
            n == s@.len(),
            i <= n,
            out@ == old(out)@ + s@.subrange(0, i as int),
        decreases n - i,
    {
        out.push(s.get_char(i));
        proof {
            assert(s@.subrange(0, i + 1) =~= s@.subrange(0, i as int).push(s@[i as int]));
            assert(out@ =~= old(out)@ + s@.subrange(0, i + 1));
        }
        i += 1;
    }
    proof {
        assert(s@.subrange(0, n as int) =~= s@);
    }
}

/// Appends `n` in decimal.
pub fn push_decimal(out: &mut Vec<char>, n: usize)
    ensures
        final(out)@ == old(out)@ + decimal(n as nat),
    decreases n,
{
    if n >= 10 {
        push_decimal(out, n / 10);
    }
    out.push(symbol_of(26 + n % 10));
    proof {
        assert(out@ =~= old(out)@ + decimal(n as nat));
    }
}

/// Writes the state diagram of a table as a graph description.
pub fn diagram(table: &TransitionTable) -> (out: Vec<char>)
    ensures
        out@ == diagram_text(*table),
{
    let mut out: Vec<char> = Vec::new();
    push_text(&mut out, "digraph {\n\n\tnode [shape=point]; start;\n\tnode [shape=doublecircle]; ");
    let ghost head = out@;
    let mut k: usize = 0;
    while k < table.accept.len()
        invariant
            k <= table.accept@.len(),
            out@ == head + accept_names(table.accept@, k as int),
        decreases table.accept@.len() - k,
    {
        if k > 0 {
            push_text(&mut out, ", ");
        }
        push_decimal(&mut out, table.accept[k]);
        proof {
            assert(out@ =~= head + accept_names(table.accept@, k + 1));
        }
        k += 1;
    }
    push_text(&mut out, ";\n\tnode [shape=circle];\n\n\tstart -> 0;\n");
    let ghost mid = out@;
    let mut s: usize = 0;
    while s < table.rows.len()
        invariant
            s <= table.rows@.len(),
            out@ == mid + table_lines(table.rows@, s as int),
        decreases table.rows@.len() - s,
    {
        let row = &table.rows[s];
        let ghost start = out@;
        let mut a: usize = 0;
        while a < row.len()
            invariant
                a <= row@.len(),
                out@ == start + row_lines(row@, s as nat, a as int),
            decreases row@.len() - a,
        {
            match row[a] {
                Some(to) => {
                    push_text(&mut out, "\t");
                    push_decimal(&mut out, s);
                    push_text(&mut out, " -> ");
                    push_decimal(&mut out, to);
                    push_text(&mut out, " [label=\"");
                    out.push(symbol_of(a));
                    push_text(&mut out, "\"];\n");
                    proof {
                        assert(out@ =~= start + row_lines(row@, s as nat, a as int) + edge_line(
                            s as nat,
                            a as int,
                            to as nat,
                        ));
                        assert(out@ =~= start + row_lines(row@, s as nat, a + 1));
                    }
                },
                None => {
                    proof {
                        assert(out@ =~= start + row_lines(row@, s as nat, a + 1));
                    }
                },
            }
            a += 1;
        }
        proof {
            assert(out@ =~= mid + table_lines(table.rows@, s + 1));
        }
        s += 1;
    }
    push_text(&mut out, "\n}");
    out
}

} // verus!
