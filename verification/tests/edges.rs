use miniregex::{match_pattern, Pattern, Regex};

#[test]
fn wildcard_takes_no_quantifier() {
    // `.` is consumed on its own, so the `+` after it is a literal.
    let regex = Regex::parse(".+").unwrap();
    assert_eq!(
        regex,
        Regex {
            patterns: vec![Pattern::Wildcard, Pattern::Character('+')]
        }
    );
    assert!(match_pattern("x+", ".+").unwrap());
    assert!(!match_pattern("xx", ".+").unwrap());
}

#[test]
fn escaped_literal_takes_no_quantifier() {
    // `\.` is consumed on its own, so the `+` after it is quantifiable
    // only as a fresh literal token.
    let regex = Regex::parse("\\.+").unwrap();
    assert_eq!(
        regex,
        Regex {
            patterns: vec![Pattern::Character('.'), Pattern::Character('+')]
        }
    );
    assert!(match_pattern(".+", "\\.+").unwrap());
    assert!(!match_pattern("..", "\\.+").unwrap());
}

#[test]
fn escaped_specials_are_literals() {
    assert!(match_pattern("a+b", "a\\+b").unwrap());
    assert!(!match_pattern("aab", "a\\+b").unwrap());
    assert!(match_pattern("5$", "\\d\\$").unwrap());
    assert!(match_pattern("a\\b", "a\\\\b").unwrap());
    assert!(match_pattern("x^y", "x\\^y").unwrap());
    assert!(match_pattern("x?y", "x\\?y").unwrap());
}

#[test]
fn anchors_mid_pattern_never_match() {
    assert!(!match_pattern("ab", "a$b").unwrap());
    assert!(!match_pattern("a$b", "a$b").unwrap());
    assert!(!match_pattern("ab", "a^b").unwrap());
}

#[test]
fn quantified_group() {
    assert!(match_pattern("xaay", "[ab]+y").unwrap());
    assert!(!match_pattern("xccy", "[ab]+y").unwrap());
    assert!(match_pattern("xy", "x[ab]?y").unwrap());
    assert!(match_pattern("xay", "x[ab]?y").unwrap());
    assert!(!match_pattern("xcy", "x[ab]?y").unwrap());
}

#[test]
fn empty_alternation_branch() {
    assert!(match_pattern("zzz", "(x|)").unwrap());
    assert!(match_pattern("ab", "a(b|c)").unwrap());
    assert!(match_pattern("ac", "a(b|c)").unwrap());
    assert!(!match_pattern("ad", "a(b|c)").unwrap());
}

#[test]
fn group_set_may_repeat_characters() {
    assert!(match_pattern("banana", "[nab]+").unwrap());
    assert!(match_pattern("bar", "[bar]+$").unwrap());
    assert!(!match_pattern("toe", "^[bar]+").unwrap());
}
