use miniregex::{match_pattern, Pattern, Regex, RegexError};

#[test]
fn literal_is_containment() {
    assert!(match_pattern("banana", "n").unwrap());
    assert!(match_pattern("n", "n").unwrap());
    assert!(!match_pattern("banana", "z").unwrap());
    assert!(!match_pattern("", "z").unwrap());
}

#[test]
fn digit_class_means_any_digit() {
    assert!(match_pattern("abc7def", "\\d").unwrap());
    assert!(!match_pattern("abcdef", "\\d").unwrap());
    assert!(!match_pattern("", "\\d").unwrap());
}

#[test]
fn word_class_means_any_alphanumeric() {
    assert!(match_pattern("--_x--", "\\w").unwrap());
    assert!(match_pattern("9", "\\w").unwrap());
    assert!(!match_pattern("+-$! ?", "\\w").unwrap());
}

#[test]
fn group_membership() {
    assert!(match_pattern("zzqzz", "[pqr]").unwrap());
    assert!(!match_pattern("zzzzz", "[pqr]").unwrap());
    assert!(match_pattern("pa", "[^pqr]").unwrap());
    assert!(!match_pattern("pqrqp", "[^pqr]").unwrap());
    assert!(!match_pattern("anything", "[]").unwrap());
}

#[test]
fn anchors_pin_the_match() {
    assert!(match_pattern("foo", "oo$").unwrap());
    assert!(!match_pattern("oof", "oo$").unwrap());
    assert!(match_pattern("foo", "^fo").unwrap());
    assert!(!match_pattern("ffoo", "^fo").unwrap());
    assert!(match_pattern("abc", "$").unwrap());
    assert!(match_pattern("", "$").unwrap());
    assert!(match_pattern("abc", "^").unwrap());
}

#[test]
fn quantifier_scenarios() {
    assert!(match_pattern("x", "xs?").unwrap());
    assert!(match_pattern("xs", "xs?").unwrap());
    assert!(!match_pattern("y", "xs?").unwrap());
    assert!(match_pattern("caaats", "ca+ts").unwrap());
    assert!(!match_pattern("cts", "ca+ts").unwrap());
    assert!(match_pattern("cts", "ca?ts").unwrap());
}

#[test]
fn empty_pattern_matches_everything() {
    assert!(match_pattern("anything", "").unwrap());
    assert!(match_pattern("", "").unwrap());
}

#[test]
fn unterminated_character_group() {
    assert_eq!(
        match_pattern("abc", "[abc").unwrap_err(),
        RegexError::UnterminatedCharacterGroup
    );
    assert_eq!(
        Regex::parse("[abc").unwrap_err(),
        RegexError::UnterminatedCharacterGroup
    );
}

#[test]
fn unterminated_alternation_group() {
    assert_eq!(
        match_pattern("cat", "(cat|dog").unwrap_err(),
        RegexError::UnterminatedAlternationGroup
    );
    assert_eq!(
        Regex::parse("(cat|dog").unwrap_err(),
        RegexError::UnterminatedAlternationGroup
    );
}

#[test]
fn unsupported_escape_sequence() {
    assert_eq!(
        match_pattern("z", "\\z").unwrap_err(),
        RegexError::UnsupportedEscapeSequence
    );
    assert_eq!(
        Regex::parse("\\z").unwrap_err(),
        RegexError::UnsupportedEscapeSequence
    );
}

#[test]
fn non_ascii_pattern_is_rejected() {
    let pattern = String::from_utf8(vec![0xC3, 0xA9]).unwrap();
    assert_eq!(
        match_pattern("abc", &pattern).unwrap_err(),
        RegexError::NonAsciiPattern
    );
}

#[test]
fn non_ascii_subject_is_rejected() {
    let subject = String::from_utf8(vec![0xC3, 0xA9]).unwrap();
    assert_eq!(
        match_pattern(&subject, "a").unwrap_err(),
        RegexError::NonAsciiSubject
    );
}

#[test]
fn end_to_end_scenario() {
    let pattern = "^[^abc]\\w?f+oo\\d+[bar]+$";
    let regex = Regex::parse(pattern).unwrap();
    assert_eq!(
        regex,
        Regex {
            patterns: vec![
                Pattern::Start,
                Pattern::NegativeGroup(String::from("abc")),
                Pattern::ZeroOrOne(Box::new(Pattern::Alphanumeric)),
                Pattern::OneOrMore(Box::new(Pattern::Character('f'))),
                Pattern::Character('o'),
                Pattern::Character('o'),
                Pattern::OneOrMore(Box::new(Pattern::Digit)),
                Pattern::OneOrMore(Box::new(Pattern::PositiveGroup(String::from("bar")))),
                Pattern::End
            ]
        }
    );
    assert!(match_pattern("xfoo123bar", pattern).unwrap());
    assert!(!match_pattern("afoo123bar", pattern).unwrap());
    assert!(!match_pattern("xfoo123barz", pattern).unwrap());
}

#[test]
fn element_predicates() {
    assert!(Pattern::Digit.matches('5'));
    assert!(!Pattern::Digit.matches('x'));
    assert!(Pattern::Alphanumeric.matches('x'));
    assert!(!Pattern::Alphanumeric.matches('!'));
    assert!(Pattern::Wildcard.matches('!'));
    assert!(Pattern::PositiveGroup(String::from("bar")).matches('b'));
    assert!(!Pattern::PositiveGroup(String::from("bar")).matches('z'));
    assert!(Pattern::NegativeGroup(String::from("bar")).matches('z'));
    assert!(!Pattern::NegativeGroup(String::from("bar")).matches('b'));
    assert!(Pattern::Character('q').matches('q'));
    assert!(!Pattern::Character('q').matches('r'));
}

#[test]
fn alternation_with_tail() {
    assert!(match_pattern("I see 1 cat", "^I see \\d (cat|dog)s?$").unwrap());
    assert!(match_pattern("I see 3 dogs", "^I see \\d (cat|dog)s?$").unwrap());
    assert!(!match_pattern("I see 3 cows", "^I see \\d (cat|dog)s?$").unwrap());
}
