use regex_table::compiler::compile;
use regex_table::error::RegexError;
use regex_table::table::{check_string, TransitionTable};

fn table(pattern: &str) -> TransitionTable {
    compile(pattern).unwrap()
}

fn failure(pattern: &str) -> RegexError {
    compile(pattern).unwrap_err()
}

fn accepts_all(pattern: &str, lines: &[&str]) {
    let t = table(pattern);
    for line in lines {
        assert!(check_string(line, &t), "{:?} should accept {:?}", pattern, line);
    }
}

fn rejects_all(pattern: &str, lines: &[&str]) {
    let t = table(pattern);
    for line in lines {
        assert!(!check_string(line, &t), "{:?} should reject {:?}", pattern, line);
    }
}

#[test]
fn star_of_a_symbol() {
    accepts_all("a*", &["", "a", "aaaa"]);
    rejects_all("a*", &["b", "ab"]);
}

#[test]
fn plus_of_a_symbol() {
    accepts_all("a+", &["a", "aaa"]);
    rejects_all("a+", &["", "ab"]);
}

#[test]
fn alternation_of_two() {
    accepts_all("a|b", &["a", "b"]);
    rejects_all("a|b", &["", "ab", "c", "ba", "aa"]);
}

#[test]
fn alternation_of_three() {
    accepts_all("a|b|c", &["a", "b", "c"]);
    rejects_all("a|b|c", &["", "d", "ab", "bc", "abc", "cc"]);
}

#[test]
fn star_of_a_group() {
    accepts_all("(ab)*", &["", "ab", "abab"]);
    rejects_all("(ab)*", &["a", "aba", "b", "ba"]);
}

#[test]
fn word_then_digits() {
    accepts_all("\\w\\d+", &["a1", "a123", "z0"]);
    rejects_all("\\w\\d+", &["12", "ab", "", "a", "a1b"]);
}

#[test]
fn leading_star_is_refused() {
    assert_eq!(failure("*"), RegexError::InvalidStartSymbol);
    assert_eq!(failure("*a"), RegexError::InvalidStartSymbol);
    assert_eq!(failure("+a"), RegexError::InvalidStartSymbol);
    assert_eq!(failure("|a"), RegexError::InvalidStartSymbol);
    assert_eq!(failure(")("), RegexError::InvalidStartSymbol);
    assert_eq!(failure("}{"), RegexError::InvalidStartSymbol);
}

#[test]
fn open_group_is_refused() {
    assert_eq!(failure("(ab"), RegexError::UnbalancedGrouping);
    assert_eq!(failure("ab)"), RegexError::UnbalancedGrouping);
    assert_eq!(failure("{a(b}"), RegexError::UnbalancedGrouping);
}

#[test]
fn doubled_star_is_refused() {
    assert_eq!(failure("a**"), RegexError::InvalidOperatorSequence);
    assert_eq!(failure("a*+"), RegexError::InvalidOperatorSequence);
    assert_eq!(failure("a+*"), RegexError::InvalidOperatorSequence);
    assert_eq!(failure("a++"), RegexError::InvalidOperatorSequence);
    assert_eq!(failure("(*a)"), RegexError::InvalidOperatorSequence);
    assert_eq!(failure("(+a)"), RegexError::InvalidOperatorSequence);
    assert_eq!(failure("(|a)"), RegexError::InvalidOperatorSequence);
    assert_eq!(failure("(a|)"), RegexError::InvalidOperatorSequence);
    assert_eq!(failure("a|*"), RegexError::InvalidOperatorSequence);
    assert_eq!(failure("a|+"), RegexError::InvalidOperatorSequence);
    assert_eq!(failure("a||b"), RegexError::InvalidOperatorSequence);
    assert_eq!(failure("a|"), RegexError::InvalidOperatorSequence);
}

#[test]
fn foreign_character_is_refused() {
    assert_eq!(failure("a#b"), RegexError::InvalidCharacter);
    assert_eq!(failure("A"), RegexError::InvalidCharacter);
    assert_eq!(failure("a.b"), RegexError::InvalidCharacter);
    assert_eq!(failure("\\#"), RegexError::InvalidCharacter);
    assert_eq!(failure("(a#"), RegexError::InvalidCharacter);
}

#[test]
fn bad_escape_is_refused() {
    assert_eq!(failure("\\x"), RegexError::InvalidEscape);
    assert_eq!(failure("a\\"), RegexError::InvalidEscape);
    assert_eq!(failure("\\("), RegexError::InvalidEscape);
    assert_eq!(failure("\\\\"), RegexError::InvalidEscape);
    assert_eq!(failure("(\\a"), RegexError::InvalidEscape);
}

#[test]
fn stray_close_is_malformed() {
    assert_eq!(failure("a)("), RegexError::MalformedToken);
    assert_eq!(failure("a)b(c"), RegexError::MalformedToken);
}

#[test]
fn line_with_foreign_character_is_rejected() {
    let t = table("a*");
    assert!(!check_string("a#", &t));
    assert!(!check_string("A", &t));
    assert!(!check_string("aa\u{e9}", &t));
    let anything = table("(\\w|\\d| )*");
    assert!(check_string("hello world 42", &anything));
    assert!(!check_string("hello, world", &anything));
    assert!(!check_string("Hello", &anything));
    assert!(!check_string("tab\there", &anything));
}

#[test]
fn compiling_twice_gives_the_same_table() {
    for pattern in ["a*b", "(ab|c)*d+", "\\w\\d+", "a|b|c", "((a|b)*c)+", ""] {
        let first = table(pattern);
        let second = table(pattern);
        assert_eq!(first.rows, second.rows);
        assert_eq!(first.accept, second.accept);
    }
}

#[test]
fn empty_pattern_matches_the_empty_line() {
    let t = table("");
    assert_eq!(t.rows.len(), 1);
    assert_eq!(t.accept, vec![0]);
    assert!(check_string("", &t));
    assert!(!check_string("a", &t));
    assert!(!check_string(" ", &t));
}

#[test]
fn empty_group_matches_the_empty_line() {
    accepts_all("()", &[""]);
    rejects_all("()", &["a"]);
    accepts_all("a()b", &["ab"]);
    rejects_all("a()b", &["a", "b", ""]);
    accepts_all("()*a", &["a"]);
}

#[test]
fn braces_group_like_parentheses() {
    accepts_all("{ab}*", &["", "ab", "abab"]);
    rejects_all("{ab}*", &["a", "aba"]);
    accepts_all("(ab}+", &["ab", "abab"]);
    accepts_all("{a|b)c", &["ac", "bc"]);
    rejects_all("{a|b)c", &["c", "abc"]);
}

#[test]
fn star_inside_a_starred_group() {
    accepts_all("(a*b)*", &["", "b", "ab", "aab", "bb", "abab", "baab"]);
    rejects_all("(a*b)*", &["a", "aa", "ba", "aba"]);
}

#[test]
fn repeated_symbol_after_its_star() {
    accepts_all("a*a", &["a", "aa", "aaa"]);
    rejects_all("a*a", &["", "b", "ab"]);
    accepts_all("a*ab", &["ab", "aab"]);
    rejects_all("a*ab", &["b", "a", ""]);
}

#[test]
fn alternation_binds_weaker_than_concatenation() {
    accepts_all("ab|cd", &["ab", "cd"]);
    rejects_all("ab|cd", &["abd", "acd", "a", "abcd", ""]);
    accepts_all("a(b|c)d", &["abd", "acd"]);
    rejects_all("a(b|c)d", &["ab", "cd", "ad", "abcd"]);
}

#[test]
fn alternation_with_repetitions() {
    accepts_all("a*|b+", &["", "a", "aaa", "b", "bbb"]);
    rejects_all("a*|b+", &["ab", "ba", "c"]);
    accepts_all("a+|b|c*", &["a", "aa", "b", "", "c", "ccc"]);
    rejects_all("a+|b|c*", &["bb", "ac", "cb"]);
    accepts_all("(ab)+|c", &["ab", "abab", "c"]);
    rejects_all("(ab)+|c", &["", "abc", "cc", "a"]);
    accepts_all("a|(bc)*|d+", &["a", "", "bc", "bcbc", "d", "ddd"]);
    rejects_all("a|(bc)*|d+", &["ad", "b", "bcd", "aa"]);
}

#[test]
fn nested_groups() {
    accepts_all("((a|b)*c)+", &["c", "ac", "bc", "abc", "cc", "abcbac"]);
    rejects_all("((a|b)*c)+", &["", "a", "ab", "ca"]);
    accepts_all("(a(b(c)*)*)*", &["", "a", "ab", "abc", "abcc", "abcbc", "aab", "abca"]);
    rejects_all("(a(b(c)*)*)*", &["b", "c", "ac", "ba"]);
}

#[test]
fn classes_expand_to_their_symbols() {
    let word = table("\\w");
    for c in "abcdefghijklmnopqrstuvwxyz".chars() {
        assert!(check_string(&c.to_string(), &word));
    }
    for c in "0123456789 ".chars() {
        assert!(!check_string(&c.to_string(), &word));
    }
    let digit = table("\\d");
    for c in "0123456789".chars() {
        assert!(check_string(&c.to_string(), &digit));
    }
    for c in "abcxyz ".chars() {
        assert!(!check_string(&c.to_string(), &digit));
    }
    assert_eq!(word.rows.len(), 2);
    for col in 0..26 {
        assert_eq!(word.rows[0][col], Some(1));
    }
    for col in 26..37 {
        assert_eq!(word.rows[0][col], None);
    }
    for col in 0..26 {
        assert_eq!(digit.rows[0][col], None);
    }
    for col in 26..36 {
        assert_eq!(digit.rows[0][col], Some(1));
    }
    assert_eq!(digit.rows[0][36], None);
}

#[test]
fn space_is_a_symbol() {
    accepts_all("a b", &["a b"]);
    rejects_all("a b", &["ab", "a  b"]);
    accepts_all(" *", &["", " ", "   "]);
}

#[test]
fn states_are_numbered_as_found() {
    let t = table("ba|ab");
    assert_eq!(t.rows.len(), 4);
    assert_eq!(t.rows[0][0], Some(1));
    assert_eq!(t.rows[0][1], Some(2));
    assert_eq!(t.rows[1][1], Some(3));
    assert_eq!(t.rows[2][0], Some(3));
    assert_eq!(t.rows[1][0], None);
    assert_eq!(t.rows[3], vec![None; 37]);
    assert_eq!(t.accept, vec![3]);
}
