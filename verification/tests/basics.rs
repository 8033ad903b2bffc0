use regex_table::compiler::parse_regex;
use regex_table::parser::invalid_next;
use regex_table::table::{check_string, new_table_row, TransitionTable};
use regex_table::token::{scan_regex, Token};

fn lit(c: char) -> Token {
    Token::Literal(c)
}

#[test]
fn test_scan_regex() {
    let mut solution = vec![
        lit('a'),
        Token::Star,
        lit('b'),
        Token::Alt,
        Token::GroupOpen,
        lit('c'),
        lit('d'),
        lit('e'),
        Token::GroupClose,
        Token::Alt,
        Token::GroupOpen,
        lit('e'),
        lit('f'),
        lit('g'),
        Token::GroupClose,
    ];
    assert_eq!(scan_regex("a*b|{cde}|(efg)"), Ok(solution));

    solution = vec![
        Token::WordClass,
        Token::DigitClass,
        lit('a'),
        lit('b'),
        lit('z'),
        lit('8'),
        Token::Plus,
    ];
    assert_eq!(scan_regex("\\w\\dabz8+"), Ok(solution));
}

#[test]
fn test_invalid_next() {
    assert_eq!(invalid_next(Token::GroupOpen, &Token::Star), false);
    assert_eq!(invalid_next(Token::Alt, &lit('b')), true);
    assert_eq!(invalid_next(Token::Star, &Token::Star), false);
    assert_eq!(invalid_next(Token::Plus, &lit('a')), true);
}

fn a_star_b_rows() -> Vec<Vec<Option<usize>>> {
    let mut first: Vec<Option<usize>> = vec![None; 37];
    first[0] = Some(0);
    first[1] = Some(1);
    let second: Vec<Option<usize>> = vec![None; 37];
    vec![first, second]
}

#[test]
fn test_parse_regex() {
    let scanned_regex = vec![lit('a'), Token::Star, lit('b')];
    let table = parse_regex(scanned_regex).unwrap();
    assert_eq!(table.rows, a_star_b_rows());
    assert_eq!(table.accept, vec![1]);
}

#[test]
fn test_check_string() {
    let table = TransitionTable { rows: a_star_b_rows(), accept: vec![1] };

    assert_eq!(check_string("aaaab", &table), true);
    assert_eq!(check_string("b", &table), true);
    assert_eq!(check_string("bbbbb", &table), false);
    assert_eq!(check_string("", &table), false);
}

#[test]
fn test_new_table_row() {
    let mut empty: Vec<Option<usize>> = Vec::new();
    for _ in 0..37 {
        empty.push(None);
    }
    assert_eq!(new_table_row(), empty);
}
