use regex_table::alphabet::{column_of, digit, letter, pattern_char, symbol_of, SIGMA_LEN};
use regex_table::builder::{build_table, expect_after, position_automaton, reached_by};
use regex_table::compiler::{compile, parse_regex};
use regex_table::error::RegexError;
use regex_table::nfa::{add, add_or, add_to, paren_add, paren_or, paren_star_plus, plus, star, Nfa};
use regex_table::parser::{alternation, concatenation, invalid_next, parse, primary, repetition};
use regex_table::report::{diagram, only_argument, push_decimal, verdict};
use regex_table::syntax::{Class, Regex};
use regex_table::table::{check_string, TransitionTable};
use regex_table::token::{scan_regex, Token};

fn atom(c: char) -> Regex {
    Regex::Atom(Class::Literal(c))
}

fn cat(a: Regex, b: Regex) -> Regex {
    Regex::Cat(Box::new(a), Box::new(b))
}

fn alt(a: Regex, b: Regex) -> Regex {
    Regex::Alt(Box::new(a), Box::new(b))
}

fn many(a: Regex) -> Regex {
    Regex::Star(Box::new(a))
}

fn some(a: Regex) -> Regex {
    Regex::Plus(Box::new(a))
}

fn sorted(mut v: Vec<usize>) -> Vec<usize> {
    v.sort();
    v.dedup();
    v
}

fn shape(r: &Regex) -> String {
    format!("{:?}", r)
}

#[test]
fn alphabet_has_thirty_seven_symbols() {
    assert_eq!(SIGMA_LEN, 37);
    let all: Vec<char> = (0..SIGMA_LEN).map(symbol_of).collect();
    let expected: Vec<char> = "abcdefghijklmnopqrstuvwxyz0123456789 ".chars().collect();
    assert_eq!(all, expected);
}

#[test]
fn columns_follow_the_alphabet() {
    assert_eq!(column_of('a'), Some(0));
    assert_eq!(column_of('z'), Some(25));
    assert_eq!(column_of('0'), Some(26));
    assert_eq!(column_of('9'), Some(35));
    assert_eq!(column_of(' '), Some(36));
    assert_eq!(column_of('A'), None);
    assert_eq!(column_of('*'), None);
    assert_eq!(column_of('\u{e9}'), None);
    for i in 0..SIGMA_LEN {
        assert_eq!(column_of(symbol_of(i)), Some(i));
    }
    assert_eq!(symbol_of(40), ' ');
}

#[test]
fn letters_digits_and_operators() {
    assert!(letter('a') && letter('z') && !letter('A') && !letter('0') && !letter(' '));
    assert!(digit('0') && digit('9') && !digit('a') && !digit(' '));
    for c in "|{}()*+\\".chars() {
        assert!(pattern_char(c));
        assert_eq!(column_of(c), None);
    }
    assert!(pattern_char('q') && pattern_char('7') && pattern_char(' '));
    assert!(!pattern_char('#') && !pattern_char('Q') && !pattern_char('\n'));
}

#[test]
fn classes_read_their_symbols() {
    assert!(Class::Literal('a').reads('a'));
    assert!(!Class::Literal('a').reads('b'));
    assert!(!Class::Literal('#').reads('#'));
    assert!(Class::Word.reads('m') && !Class::Word.reads('5') && !Class::Word.reads(' '));
    assert!(Class::Digit.reads('5') && !Class::Digit.reads('m') && !Class::Digit.reads(' '));
}

#[test]
fn scanning_keeps_the_order() {
    assert_eq!(scan_regex(""), Ok(vec![]));
    assert_eq!(
        scan_regex("a b"),
        Ok(vec![Token::Literal('a'), Token::Literal(' '), Token::Literal('b')])
    );
    assert_eq!(
        scan_regex("{}()"),
        Ok(vec![Token::GroupOpen, Token::GroupClose, Token::GroupOpen, Token::GroupClose])
    );
    assert_eq!(scan_regex(")("), Ok(vec![Token::GroupClose, Token::GroupOpen]));
    assert_eq!(scan_regex("\\w\\d"), Ok(vec![Token::WordClass, Token::DigitClass]));
    assert_eq!(scan_regex("w\\wd"), Ok(vec![Token::Literal('w'), Token::WordClass, Token::Literal('d')]));
}

#[test]
fn scanning_reports_the_first_kind_of_failure() {
    assert_eq!(scan_regex("\\x#"), Err(RegexError::InvalidCharacter));
    assert_eq!(scan_regex("(\\x"), Err(RegexError::InvalidEscape));
    assert_eq!(scan_regex("\\"), Err(RegexError::InvalidEscape));
    assert_eq!(scan_regex("(("), Err(RegexError::UnbalancedGrouping));
    assert_eq!(scan_regex("())"), Err(RegexError::UnbalancedGrouping));
}

#[test]
fn every_pair_of_tokens() {
    let all = [
        Token::Literal('a'),
        Token::WordClass,
        Token::DigitClass,
        Token::Star,
        Token::Plus,
        Token::Alt,
        Token::GroupOpen,
        Token::GroupClose,
    ];
    for first in all {
        for next in all {
            let refused = match first {
                Token::GroupOpen => matches!(next, Token::Star | Token::Plus | Token::Alt),
                Token::Alt => matches!(next, Token::GroupClose | Token::Star | Token::Plus | Token::Alt),
                Token::Star | Token::Plus => matches!(next, Token::Star | Token::Plus),
                _ => false,
            };
            assert_eq!(invalid_next(first, &next), !refused, "{:?} {:?}", first, next);
        }
    }
}

#[test]
fn parsing_follows_the_grammar() {
    let ts = scan_regex("ab|c*").unwrap();
    let tree = parse(&ts).unwrap();
    assert_eq!(shape(&tree), shape(&alt(cat(atom('a'), atom('b')), many(atom('c')))));

    let ts = scan_regex("a|b|c").unwrap();
    let tree = parse(&ts).unwrap();
    assert_eq!(shape(&tree), shape(&alt(atom('a'), alt(atom('b'), atom('c')))));

    let ts = scan_regex("(a|b)+\\w").unwrap();
    let tree = parse(&ts).unwrap();
    assert_eq!(
        shape(&tree),
        shape(&cat(some(alt(atom('a'), atom('b'))), Regex::Atom(Class::Word)))
    );

    let ts = scan_regex("abc").unwrap();
    let tree = parse(&ts).unwrap();
    assert_eq!(shape(&tree), shape(&cat(atom('a'), cat(atom('b'), atom('c')))));

    assert_eq!(shape(&parse(&vec![]).unwrap()), shape(&Regex::Empty));
    let ts = scan_regex("()").unwrap();
    assert_eq!(shape(&parse(&ts).unwrap()), shape(&Regex::Empty));
    let ts = scan_regex("\\d").unwrap();
    assert_eq!(shape(&parse(&ts).unwrap()), shape(&Regex::Atom(Class::Digit)));
}

#[test]
fn parsing_by_parts() {
    let ts = scan_regex("(a)*b|c").unwrap();
    let (tree, next) = primary(&ts, 0).unwrap();
    assert_eq!((shape(&tree), next), (shape(&atom('a')), 3));
    let (tree, next) = repetition(&ts, 0).unwrap();
    assert_eq!((shape(&tree), next), (shape(&many(atom('a'))), 4));
    let (tree, next) = concatenation(&ts, 0).unwrap();
    assert_eq!((shape(&tree), next), (shape(&cat(many(atom('a')), atom('b'))), 5));
    let (tree, next) = alternation(&ts, 0).unwrap();
    assert_eq!((shape(&tree), next), (shape(&alt(cat(many(atom('a')), atom('b')), atom('c'))), 7));
    let (tree, next) = concatenation(&ts, 5).unwrap();
    assert_eq!((shape(&tree), next), (shape(&Regex::Empty), 5));
    assert!(primary(&ts, 3).is_none());
    assert!(primary(&ts, 7).is_none());
    assert!(repetition(&ts, 5).is_none());
    assert!(concatenation(&ts, 8).is_none());
}

#[test]
fn parsing_refuses_what_has_no_place() {
    assert!(parse(&vec![Token::Literal('a'), Token::GroupClose]).is_none());
    assert!(parse(&vec![Token::GroupOpen, Token::Literal('a')]).is_none());
    assert!(parse(&vec![Token::Literal('#')]).is_none());
    assert!(parse(&vec![Token::Literal('A')]).is_none());
    assert!(parse(&vec![Token::Star]).is_none());
}

#[test]
fn tokens_are_checked_in_order() {
    let bad = |ts: Vec<Token>| parse_regex(ts).unwrap_err();
    assert_eq!(bad(vec![Token::Star, Token::Star]), RegexError::InvalidStartSymbol);
    assert_eq!(bad(vec![Token::GroupClose]), RegexError::InvalidStartSymbol);
    assert_eq!(bad(vec![Token::Alt]), RegexError::InvalidStartSymbol);
    assert_eq!(bad(vec![Token::Plus]), RegexError::InvalidStartSymbol);
    assert_eq!(
        bad(vec![Token::GroupOpen, Token::Star, Token::GroupClose, Token::GroupClose]),
        RegexError::InvalidOperatorSequence
    );
    assert_eq!(bad(vec![Token::Literal('a'), Token::Alt]), RegexError::InvalidOperatorSequence);
    assert_eq!(bad(vec![Token::GroupOpen]), RegexError::MalformedToken);
    assert_eq!(bad(vec![Token::Literal('#')]), RegexError::MalformedToken);
    assert_eq!(bad(vec![Token::Literal('a'), Token::GroupClose]), RegexError::MalformedToken);
    assert!(parse_regex(vec![]).is_ok());
}

#[test]
fn counting_positions() {
    assert_eq!(Regex::Empty.count(), Some(0));
    assert_eq!(atom('a').count(), Some(1));
    assert_eq!(cat(atom('a'), alt(many(atom('b')), Regex::Empty)).count(), Some(2));
    assert!(Regex::Empty.is_nullable());
    assert!(!atom('a').is_nullable());
    assert!(many(atom('a')).is_nullable());
    assert!(!some(atom('a')).is_nullable());
    assert!(some(many(atom('a'))).is_nullable());
    assert!(alt(atom('a'), Regex::Empty).is_nullable());
    assert!(!cat(atom('a'), Regex::Empty).is_nullable());
    assert!(cat(many(atom('a')), Regex::Empty).is_nullable());
}

#[test]
fn adding_a_symbol_makes_one_state() {
    let mut nfa = Nfa::new();
    assert_eq!(nfa.next, vec![vec![]]);
    let mut frontier = vec![0];
    let q = add(Class::Literal('a'), &mut nfa, &mut frontier);
    assert_eq!(q, 1);
    assert_eq!(frontier, vec![1]);
    assert_eq!(nfa.next, vec![vec![1], vec![]]);
    assert_eq!(nfa.reads[1], Class::Literal('a'));
    let q = add(Class::Word, &mut nfa, &mut frontier);
    assert_eq!(q, 2);
    assert_eq!(frontier, vec![2]);
    assert_eq!(nfa.next, vec![vec![1], vec![2], vec![]]);
    assert_eq!(nfa.reads[2], Class::Word);
}

#[test]
fn adding_from_a_wide_frontier() {
    let mut nfa = Nfa::new();
    let mut frontier = vec![0];
    add_or(Class::Literal('a'), &mut nfa, &mut frontier);
    assert_eq!(sorted(frontier.clone()), vec![0, 1]);
    let q = add(Class::Literal('b'), &mut nfa, &mut frontier);
    assert_eq!(q, 2);
    assert_eq!(frontier, vec![2]);
    assert_eq!(sorted(nfa.next[0].clone()), vec![1, 2]);
    assert_eq!(sorted(nfa.next[1].clone()), vec![2]);
    assert!(nfa.next[2].is_empty());
}

#[test]
fn linking_two_states() {
    let mut nfa = Nfa::new();
    let mut frontier = vec![0];
    add(Class::Digit, &mut nfa, &mut frontier);
    add_to(&mut nfa, 1, 1);
    assert_eq!(sorted(nfa.next[1].clone()), vec![1]);
    assert_eq!(sorted(nfa.next[0].clone()), vec![1]);
    assert_eq!(nfa.reads.len(), 2);
}

#[test]
fn star_and_plus_of_a_symbol() {
    let mut nfa = Nfa::new();
    let mut frontier = vec![0];
    star(Class::Literal('a'), &mut nfa, &mut frontier);
    assert_eq!(sorted(frontier.clone()), vec![0, 1]);
    assert_eq!(sorted(nfa.next[0].clone()), vec![1]);
    assert_eq!(sorted(nfa.next[1].clone()), vec![1]);

    let mut nfa = Nfa::new();
    let mut frontier = vec![0];
    plus(Class::Literal('a'), &mut nfa, &mut frontier);
    assert_eq!(sorted(frontier.clone()), vec![1]);
    assert_eq!(sorted(nfa.next[0].clone()), vec![1]);
    assert_eq!(sorted(nfa.next[1].clone()), vec![1]);
}

#[test]
fn alternation_joins_the_frontiers() {
    let mut nfa = Nfa::new();
    let mut frontier = vec![0];
    paren_or(&cat(atom('a'), atom('b')), &many(atom('c')), &mut nfa, &mut frontier);
    assert_eq!(sorted(frontier.clone()), vec![0, 2, 3]);
    assert_eq!(sorted(nfa.next[0].clone()), vec![1, 3]);
    assert_eq!(sorted(nfa.next[1].clone()), vec![2]);
    assert_eq!(sorted(nfa.next[2].clone()), vec![]);
    assert_eq!(sorted(nfa.next[3].clone()), vec![3]);
}

#[test]
fn repeating_a_group_links_back() {
    let inner = cat(atom('a'), atom('b'));
    let mut nfa = Nfa::new();
    let mut frontier = vec![0];
    paren_star_plus(&inner, true, &mut nfa, &mut frontier);
    assert_eq!(sorted(frontier.clone()), vec![0, 2]);
    assert_eq!(sorted(nfa.next[0].clone()), vec![1]);
    assert_eq!(sorted(nfa.next[1].clone()), vec![2]);
    assert_eq!(sorted(nfa.next[2].clone()), vec![1]);

    let mut nfa = Nfa::new();
    let mut frontier = vec![0];
    paren_star_plus(&inner, false, &mut nfa, &mut frontier);
    assert_eq!(sorted(frontier.clone()), vec![2]);
    assert_eq!(sorted(nfa.next[2].clone()), vec![1]);
}

#[test]
fn building_a_whole_pattern() {
    let r = cat(many(alt(atom('a'), atom('b'))), some(cat(atom('c'), Regex::Atom(Class::Digit))));
    let mut nfa = Nfa::new();
    let mut frontier = vec![0];
    paren_add(&r, &mut nfa, &mut frontier);
    assert_eq!(nfa.next.len(), 5);
    assert_eq!(
        nfa.reads[1..].to_vec(),
        vec![Class::Literal('a'), Class::Literal('b'), Class::Literal('c'), Class::Digit]
    );
    assert_eq!(sorted(frontier.clone()), vec![4]);
    assert_eq!(sorted(nfa.next[0].clone()), vec![1, 2, 3]);
    assert_eq!(sorted(nfa.next[1].clone()), vec![1, 2, 3]);
    assert_eq!(sorted(nfa.next[2].clone()), vec![1, 2, 3]);
    assert_eq!(sorted(nfa.next[3].clone()), vec![4]);
    assert_eq!(sorted(nfa.next[4].clone()), vec![3]);

    let (same, last) = position_automaton(&r);
    assert_eq!(same.next.len(), 5);
    assert_eq!(sorted(last), vec![4]);
    for p in 0..5 {
        assert_eq!(sorted(same.next[p].clone()), sorted(nfa.next[p].clone()));
    }
}

#[test]
fn empty_pattern_keeps_the_frontier() {
    let mut nfa = Nfa::new();
    let mut frontier = vec![0];
    paren_add(&Regex::Empty, &mut nfa, &mut frontier);
    assert_eq!(frontier, vec![0]);
    assert_eq!(nfa.next, vec![vec![]]);
}

#[test]
fn fronts_of_a_small_automaton() {
    let r = cat(many(atom('a')), atom('b'));
    let (nfa, last) = position_automaton(&r);
    let start = expect_after(&nfa, &last, &vec![true, false, false]);
    assert_eq!(start, vec![false, true, true]);
    let (hit, any) = reached_by(&nfa, &start, 'a');
    assert_eq!((hit.clone(), any), (vec![false, true, false], true));
    assert_eq!(expect_after(&nfa, &last, &hit), vec![false, true, true]);
    let (hit, any) = reached_by(&nfa, &start, 'b');
    assert_eq!((hit.clone(), any), (vec![false, false, true], true));
    assert_eq!(expect_after(&nfa, &last, &hit), vec![true, false, false]);
    let (hit, any) = reached_by(&nfa, &start, 'c');
    assert_eq!((hit, any), (vec![false, false, false], false));
}

#[test]
fn table_of_a_tree() {
    let t = build_table(&cat(many(atom('a')), atom('b')));
    assert_eq!(t.rows.len(), 2);
    assert_eq!(t.rows[0][0], Some(0));
    assert_eq!(t.rows[0][1], Some(1));
    assert_eq!(t.accept, vec![1]);
    let t = build_table(&Regex::Empty);
    assert_eq!(t.rows, vec![vec![None; 37]]);
    assert_eq!(t.accept, vec![0]);
    let t = build_table(&many(Regex::Atom(Class::Digit)));
    assert_eq!(t.rows.len(), 1);
    assert_eq!(t.accept, vec![0]);
    assert_eq!(t.rows[0][26], Some(0));
    assert_eq!(t.rows[0][35], Some(0));
    assert_eq!(t.rows[0][0], None);
    let t = build_table(&some(Regex::Atom(Class::Digit)));
    assert_eq!(t.rows.len(), 2);
    assert_eq!(t.accept, vec![1]);
    assert_eq!(t.rows[0][26], Some(1));
    assert_eq!(t.rows[1][35], Some(1));
    assert_eq!(t.rows[1][0], None);
}

#[test]
fn walking_a_table_by_hand() {
    let mut first = vec![None; 37];
    first[36] = Some(1);
    let mut second = vec![None; 37];
    second[26] = Some(0);
    let t = TransitionTable { rows: vec![first, second], accept: vec![0] };
    assert!(check_string("", &t));
    assert!(check_string(" 0", &t));
    assert!(check_string(" 0 0", &t));
    assert!(!check_string(" ", &t));
    assert!(!check_string("0", &t));
    assert!(t.accepting(0) && !t.accepting(1) && !t.accepting(7));
    assert_eq!(t.target(0, 36), Some(1));
    assert_eq!(t.target(1, 26), Some(0));
    assert_eq!(t.target(0, 0), None);
    assert_eq!(t.target(2, 0), None);
    assert_eq!(t.target(0, 37), None);
}

#[test]
fn walking_an_incomplete_table() {
    let t = TransitionTable { rows: vec![vec![Some(5)]], accept: vec![5, 0] };
    assert!(check_string("", &t));
    assert!(check_string("a", &t));
    assert!(!check_string("aa", &t));
    assert!(!check_string("b", &t));
    let none = TransitionTable { rows: vec![], accept: vec![0] };
    assert!(check_string("", &none));
    assert!(!check_string("a", &none));
}

#[test]
fn exactly_one_argument() {
    assert_eq!(only_argument(vec!["a*".to_string()]), Ok("a*".to_string()));
    assert_eq!(only_argument(vec![]), Err(RegexError::InvalidArgumentCount));
    assert_eq!(
        only_argument(vec!["a".to_string(), "b".to_string()]),
        Err(RegexError::InvalidArgumentCount)
    );
}

#[test]
fn answers_name_the_line() {
    let t = compile("a*b").unwrap();
    assert_eq!(verdict("aab", &t), "Accept aab");
    assert_eq!(verdict("aba", &t), "Reject aba");
    assert_eq!(verdict("", &t), "Reject ");
    assert_eq!(verdict("a#", &t), "Reject a#");
    let e = compile("").unwrap();
    assert_eq!(verdict("", &e), "Accept ");
}

#[test]
fn numbers_in_decimal() {
    for (n, text) in [(0usize, "0"), (7, "7"), (10, "10"), (42, "42"), (100, "100"), (9876543210, "9876543210")] {
        let mut out = vec!['x'];
        push_decimal(&mut out, n);
        let got: String = out.into_iter().collect();
        assert_eq!(got, format!("x{}", text));
    }
}

#[test]
fn diagram_of_a_small_table() {
    let t = compile("a*b").unwrap();
    let text: String = diagram(&t).into_iter().collect();
    let expected = "digraph {\n\n\tnode [shape=point]; start;\n\tnode [shape=doublecircle]; 1;\n\tnode [shape=circle];\n\n\tstart -> 0;\n\t0 -> 0 [label=\"a\"];\n\t0 -> 1 [label=\"b\"];\n\n}";
    assert_eq!(text, expected);
}

#[test]
fn diagram_lists_every_accepting_state() {
    let t = compile("a|\\d*").unwrap();
    let text: String = diagram(&t).into_iter().collect();
    assert!(text.contains("\tnode [shape=doublecircle]; 0, 1, 2;\n"));
    assert!(text.contains("\tstart -> 0;\n"));
    assert!(text.contains("\t0 -> 1 [label=\"a\"];\n"));
    assert!(text.contains("\t0 -> 2 [label=\"0\"];\n"));
    assert!(text.contains("\t2 -> 2 [label=\"9\"];\n"));
    assert_eq!(text.matches(" -> ").count(), 1 + 1 + 20);
    let none = TransitionTable { rows: vec![vec![None; 37]], accept: vec![] };
    let text: String = diagram(&none).into_iter().collect();
    assert_eq!(
        text,
        "digraph {\n\n\tnode [shape=point]; start;\n\tnode [shape=doublecircle]; ;\n\tnode [shape=circle];\n\n\tstart -> 0;\n\n}"
    );
}
