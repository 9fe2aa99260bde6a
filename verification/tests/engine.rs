use miniregex::{match_pattern, Pattern, Regex};

#[test]
fn parse() {
    let regex = Regex::parse("^[^abc]\\w?f+oo\\d+[bar]+(ca|d)$").unwrap();
    assert_eq!(
        regex,
        Regex {
            patterns: vec![
                Pattern::Start,
                Pattern::NegativeGroup(String::from("abc")),
                Pattern::ZeroOrOne(Box::new(Pattern::Alphanumeric)),
                Pattern::OneOrMore(Box::new(Pattern::Character('f'))),
                Pattern::Character('o'),
                Pattern::Character('o'),
                Pattern::OneOrMore(Box::new(Pattern::Digit)),
                Pattern::OneOrMore(Box::new(Pattern::PositiveGroup(String::from("bar")))),
                Pattern::Alternation(vec![
                    vec![Pattern::Character('c'), Pattern::Character('a')],
                    vec![Pattern::Character('d')],
                ]),
                Pattern::End
            ]
        }
    )
}

#[test]
fn single_character() {
    assert!(match_pattern("apple", "a").unwrap());
    assert!(!match_pattern("dog", "a").unwrap());
}

#[test]
fn digit_character_class() {
    assert!(match_pattern("3", "\\d").unwrap());
    assert!(!match_pattern("c", "\\d").unwrap());
}

#[test]
fn alphanumeric_character_class() {
    assert!(match_pattern("foo101", "\\w").unwrap());
    assert!(!match_pattern("$!?", "\\w").unwrap());
}

#[test]
fn positive_character_group() {
    assert!(match_pattern("apple", "[abc]").unwrap());
    assert!(!match_pattern("dog", "[abc]").unwrap());
}

#[test]
fn negative_character_group() {
    assert!(match_pattern("dog", "[^abc]").unwrap());
    assert!(!match_pattern("cab", "[^abc]").unwrap());
}

#[test]
fn combined_classes() {
    assert!(match_pattern("1 apple", "\\d apple").unwrap());
    assert!(!match_pattern("1 orange", "\\d apple").unwrap());

    assert!(match_pattern("100 apples", "\\d\\d\\d apple").unwrap());
    assert!(!match_pattern("1 apple", "\\d\\d\\d apple").unwrap());

    assert!(match_pattern("3 dogs", "\\d \\w\\w\\ws").unwrap());
    assert!(match_pattern("4 cats", "\\d \\w\\w\\ws").unwrap());
    assert!(!match_pattern("1 dog", "\\d \\w\\w\\ws").unwrap());

    assert!(!match_pattern("sally has 12 apples", "\\d\\\\d\\\\d apples").unwrap());
}

#[test]
fn start_anchor() {
    assert!(match_pattern("log", "^log").unwrap());
    assert!(!match_pattern("slog", "^log").unwrap());
}

#[test]
fn end_anchor() {
    assert!(match_pattern("dog", "dog$").unwrap());
    assert!(!match_pattern("dogs", "dog$").unwrap());
}

#[test]
fn one_or_more() {
    assert!(match_pattern("apple", "a+").unwrap());
    assert!(match_pattern("SaaS", "a+").unwrap());
    assert!(!match_pattern("dog", "a+").unwrap());
}

#[test]
fn zero_or_one() {
    assert!(match_pattern("dogs", "dogs?").unwrap());
    assert!(match_pattern("dog", "dogs?").unwrap());
    assert!(!match_pattern("cat", "dogs?").unwrap());
    assert!(!match_pattern("cag", "ca?t").unwrap());
}

#[test]
fn wildcard() {
    assert!(match_pattern("dog", "d.g").unwrap());
    assert!(!match_pattern("cog", "d.g").unwrap());
}

#[test]
fn alternation() {
    assert!(match_pattern("dog", "(cat|dog)").unwrap());
    assert!(match_pattern("cat", "(cat|dog)").unwrap());
    assert!(!match_pattern("apple", "(cat|dog)").unwrap());
    assert!(!match_pattern("cow", "(cat|dog)").unwrap());
}
