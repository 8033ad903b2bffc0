//! The deterministic transition table and the matcher that walks it.

use vstd::prelude::*;
use vstd::string::*;
use crate::alphabet::{column_of, in_sigma, symbol_index, SIGMA_LEN};

verus! {

/// A deterministic acceptor: one row per state, one cell per symbol.
///
/// State 0 is the start state. A cell holds the state that its symbol leads
/// to, or `None` where the symbol leads nowhere.
#[derive(Debug)]
pub struct TransitionTable {
    /// The rows, indexed by state and then by the symbol's column.
    pub rows: Vec<Vec<Option<usize>>>,
    /// The accepting states.
    pub accept: Vec<usize>,
}

/// Every character of `s` is a symbol of the alphabet.
pub open spec fn all_in_sigma(s: Seq<char>) -> bool {
    forall|i: int| 0 <= i < s.len() ==> in_sigma(#[trigger] s[i])
}

impl TransitionTable {
    /// Number of states.
    pub open spec fn states(&self) -> nat {
        self.rows@.len()
    }

    /// The table has a start state, every row is complete, and every state
    /// that it names exists.
    pub open spec fn wf(&self) -> bool {
        &&& self.rows@.len() >= 1
        &&& forall|q: int|
            0 <= q < self.rows@.len() ==> (#[trigger] self.rows@[q])@.len() == SIGMA_LEN as nat
        &&& forall|q: int, a: int|
            0 <= q < self.rows@.len() && 0 <= a < SIGMA_LEN as int ==> (
            #[trigger] self.rows@[q]@[a] matches Some(t) ==> t < self.rows@.len())
        &&& forall|k: int|
            0 <= k < self.accept@.len() ==> (#[trigger] self.accept@[k]) < self.rows@.len()
    }

    /// Where column `a` leads from state `q`; `None` where it leads nowhere
    /// or where the table has no such cell.
    pub open spec fn cell(&self, q: int, a: int) -> Option<int> {
        if 0 <= q < self.rows@.len() && 0 <= a < self.rows@[q]@.len() {
            match self.rows@[q]@[a] {
                Some(t) => Some(t as int),
                None => None,
            }
        } else {
            None
        }
    }

    /// The state reached from `q` by the symbols of `s`, or `None` where a
    /// transition is missing on the way.
    pub open spec fn run(&self, q: int, s: Seq<char>) -> Option<int>
        decreases s.len(),
    {
        if s.len() == 0 {
            Some(q)
        } else {
            match self.cell(q, symbol_index(s[0])) {
                Some(t) => self.run(t, s.drop_first()),
                None => None,
            }
        }
    }

    /// `q` is an accepting state.
    pub open spec fn is_accepting(&self, q: int) -> bool {
        exists|k: int| 0 <= k < self.accept@.len() && #[trigger] self.accept@[k] as int == q
    }

    /// The symbols of `s` lead from `q` to an accepting state.
    pub open spec fn accepts_from(&self, q: int, s: Seq<char>) -> bool {
        match self.run(q, s) {
            Some(t) => self.is_accepting(t),
            None => false,
        }
    }

    /// The table accepts `s`: every character is a symbol, and the symbols
    /// lead from the start state to an accepting state.
    pub open spec fn accepts(&self, s: Seq<char>) -> bool {
        all_in_sigma(s) && self.accepts_from(0, s)
    }

    /// Tells whether `q` is among the accepting states.
    pub fn accepting(&self, q: usize) -> (r: bool)
        ensures
            r == self.is_accepting(q as int),
    {
        let mut k: usize = 0;
        while k < self.accept.len()
            invariant
                k <= self.accept@.len(),
                forall|j: int| 0 <= j < k ==> #[trigger] self.accept@[j] as int != q as int,
            decreases self.accept@.len() - k,
        {
            if self.accept[k] == q {
                return true;
            }
            k += 1;
        }
        false
    }

    /// Where column `a` leads from state `q`.
    pub fn target(&self, q: usize, a: usize) -> (r: Option<usize>)
        ensures
            match r {
                Some(t) => self.cell(q as int, a as int) == Some(t as int),
                None => self.cell(q as int, a as int).is_none(),
            },
    {
        if q < self.rows.len() {
            let row = &self.rows[q];
            if a < row.len() {
                return row[a];
            }
        }
        None
    }
}

/// A row in which no symbol leads anywhere.
pub fn new_table_row() -> (row: Vec<Option<usize>>)
    ensures
        row@.len() == SIGMA_LEN as nat,
        forall|a: int| 0 <= a < SIGMA_LEN as int ==> (#[trigger] row@[a]).is_none(),
{
    let mut row: Vec<Option<usize>> = Vec::new();
    let mut a: usize = 0;
    while a < SIGMA_LEN
        invariant
            a <= SIGMA_LEN,
            row@.len() == a as nat,
            forall|j: int| 0 <= j < a ==> (#[trigger] row@[j]).is_none(),
        decreases SIGMA_LEN - a,
    {
        row.push(None);
        a += 1;
    }
    row
}

/// Running over a string in two parts is running over the first part and
/// going on from where it ended.
pub proof fn lemma_run_split(t: &TransitionTable, q: int, s: Seq<char>, k: int)
    requires
        0 <= k <= s.len(),
    ensures
        t.run(q, s) == match t.run(q, s.subrange(0, k)) {
            Some(m) => t.run(m, s.subrange(k, s.len() as int)),
            None => None,
        },
    decreases k,
{
    if k == 0 {
        assert(s.subrange(0, s.len() as int) =~= s);
    } else {
        let head = s.subrange(0, k);
        assert(head[0] == s[0]);
        assert(head.drop_first() =~= s.drop_first().subrange(0, k - 1));
        assert(s.drop_first().subrange(k - 1, s.len() - 1) =~= s.subrange(k, s.len() as int));
        match t.cell(q, symbol_index(s[0])) {
            Some(m) => {
                lemma_run_split(t, m, s.drop_first(), k - 1);
            },
            None => {},
        }
    }
}

/// Decides whether the table accepts `input`.
///
/// A line that holds a character outside the alphabet is rejected before the
/// table is consulted. Otherwise the walk starts at state 0 and follows one
/// cell per character; it rejects at the first missing transition, and at the
/// end accepts exactly when the state reached is an accepting one.
pub fn check_string(input: &str, table: &TransitionTable) -> (r: bool)
    ensures
        r == table.accepts(input@),
        !all_in_sigma(input@) ==> !r,
{
    let n: usize = input.unicode_len();
    let mut k: usize = 0;
    while k < n
        invariant
            n == input@.len(),
            k <= n,
            forall|j: int| 0 <= j < k ==> in_sigma(#[trigger] input@[j]),
        decreases n - k,
    {
        if column_of(input.get_char(k)).is_none() {
            return false;
        }
        k += 1;
    }
    let mut state: usize = 0;
    let mut i: usize = 0;
    proof {
        assert(input@.subrange(0, 0) =~= Seq::<char>::empty());
    }
    while i < n
        invariant
            n == input@.len(),
            i <= n,
            all_in_sigma(input@),
            table.run(0, input@.subrange(0, i as int)) == Some(state as int),
        decreases n - i,
    {
        let col = column_of(input.get_char(i)).unwrap();
        proof {
            let s = input@.subrange(0, i + 1);
            lemma_run_split(table, 0, s, i as int);
            assert(s.subrange(0, i as int) =~= input@.subrange(0, i as int));
            let last = s.subrange(i as int, i + 1);
            assert(last[0] == input@[i as int]);
            assert(last.drop_first() =~= Seq::<char>::empty());
            assert(table.run(0, s) == match table.cell(state as int, col as int) {
                Some(m) => Some(m),
                None => None,
            }) by {
                match table.cell(state as int, col as int) {
                    Some(m) => {
                        assert(table.run(m, last.drop_first()) == Some(m));
                    },
                    None => {},
                }
            }
            if table.cell(state as int, col as int).is_none() {
                lemma_run_split(table, 0, input@, i + 1);
            }
        }
        match table.target(state, col) {
            Some(t) => {
                state = t;
            },
            None => {
                return false;
            },
        }
        i += 1;
    }
    proof {
        assert(input@.subrange(0, n as int) =~= input@);
    }
    table.accepting(state)
}

} // verus!
