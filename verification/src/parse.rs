//! The pattern compiler: a single left-to-right scan that repeatedly
//! consumes the longest recognizable token and appends the resulting
//! pattern element, together with its mathematical model.

use vstd::prelude::*;
use vstd::utf8::is_ascii_chars;
use crate::pattern::{alts_view, pats_view, Pattern, Regex, SpecPattern};

verus! {

/// An error raised by compilation or by ASCII validation.  Matching an
/// ASCII subject against a compiled pattern cannot fail.
#[derive(Debug, Clone, Copy, PartialEq, Eq, Structural)]
pub enum RegexError {
    /// A `[` without a matching `]` before the end of the pattern.
    UnterminatedCharacterGroup,
    /// A `(` without a matching `)` before the end of the pattern.
    UnterminatedAlternationGroup,
    /// A `\` followed by a character outside the recognized escapable set.
    UnsupportedEscapeSequence,
    /// A non-ASCII character in the pattern text.
    NonAsciiPattern,
    /// A non-ASCII character in the subject line.
    NonAsciiSubject,
}

/// The position of the first occurrence of `c` in `s`, if any.
pub open spec fn find_char(s: Seq<char>, c: char) -> Option<int>
    decreases s.len(),
{
    if s.len() == 0 {
        None
    } else if s[0] == c {
        Some(0)
    } else {
        match find_char(s.subrange(1, s.len() as int), c) {
            Some(i) => Some(i + 1),
            None => None,
        }
    }
}

/// `find_char` returns the first occurrence of `c`, or `None` exactly
/// when `c` does not occur.
pub proof fn lemma_find_char(s: Seq<char>, c: char)
    ensures
        match find_char(s, c) {
            Some(i) => 0 <= i < s.len() && s[i] == c && forall|j: int| 0 <= j < i ==> s[j] != c,
            None => !s.contains(c),
        },
    decreases s.len(),
{
    if s.len() > 0 && s[0] != c {
        let sub = s.subrange(1, s.len() as int);
        lemma_find_char(sub, c);
        match find_char(s, c) {
            Some(i) => {
                assert(sub[i - 1] == s[i]);
                assert forall|j: int| 0 <= j < i implies s[j] != c by {
                    if j > 0 {
                        assert(sub[j - 1] == s[j]);
                    }
                }
            },
            None => {},
        }
        if find_char(s, c) is None {
            assert forall|j: int| 0 <= j < s.len() implies s[j] != c by {
                if j > 0 {
                    assert(s.subrange(1, s.len() as int)[j - 1] == s[j]);
                    assert(!s.subrange(1, s.len() as int).contains(c));
                }
            }
            assert(!s.contains(c));
        }
    }
}

/// A first occurrence determines the result of `find_char`.
pub proof fn lemma_find_char_first(s: Seq<char>, c: char, i: int)
    requires
        0 <= i < s.len(),
        s[i] == c,
        forall|j: int| 0 <= j < i ==> s[j] != c,
    ensures
        find_char(s, c) == Some(i),
    decreases i,
{
    if i > 0 {
        lemma_find_char_first(s.subrange(1, s.len() as int), c, i - 1);
    }
}

/// Wraps `base` in a quantifier if the character at `pos` is `+` or `?`,
/// returning the element and the position after it.
pub open spec fn spec_quantify(base: SpecPattern, s: Seq<char>, pos: int) -> (SpecPattern, int) {
    if pos < s.len() && s[pos] == '+' {
        (SpecPattern::OneOrMore(Box::new(base)), pos + 1)
    } else if pos < s.len() && s[pos] == '?' {
        (SpecPattern::ZeroOrOne(Box::new(base)), pos + 1)
    } else {
        (base, pos)
    }
}

/// Parses a bracket set at the start of `s` (so `s[0] == '['`): the
/// characters before the matching `]` form the set, negated when the
/// first of them is `^`, with an optional quantifier after the `]`.
pub open spec fn spec_parse_group(s: Seq<char>) -> Result<(SpecPattern, int), RegexError> {
    let negative = s.len() >= 2 && s[1] == '^';
    let start: int = if negative {
        2
    } else {
        1
    };
    let rest = s.subrange(start, s.len() as int);
    match find_char(rest, ']') {
        None => Err(RegexError::UnterminatedCharacterGroup),
        Some(i) => {
            let content = rest.subrange(0, i);
            let base = if negative {
                SpecPattern::NegativeGroup(content)
            } else {
                SpecPattern::PositiveGroup(content)
            };
            Ok(spec_quantify(base, s, start + i + 1))
        },
    }
}

/// Parses an escape at the start of `s` (so `s[0] == '\'`): `\d` and
/// `\w` are classes that may take a quantifier; a literal-escapable
/// symbol becomes a plain character; anything else is an error.
pub open spec fn spec_parse_escape(s: Seq<char>) -> Result<(SpecPattern, int), RegexError> {
    if s.len() < 2 {
        Err(RegexError::UnsupportedEscapeSequence)
    } else if s[1] == 'd' {
        Ok(spec_quantify(SpecPattern::Digit, s, 2))
    } else if s[1] == 'w' {
        Ok(spec_quantify(SpecPattern::Alphanumeric, s, 2))
    } else if s[1] == '\\' || s[1] == '$' || s[1] == '^' || s[1] == '+' || s[1] == '?' || s[1]
        == '.' {
        Ok((SpecPattern::Character(s[1]), 2))
    } else {
        Err(RegexError::UnsupportedEscapeSequence)
    }
}

/// Parses one token at the start of non-empty `s`, except that a `(`
/// is an error here: this is the grammar of an alternation branch,
/// where a group opened inside the branch can never find its `)`.
pub open spec fn spec_parse_atom(s: Seq<char>) -> Result<(SpecPattern, int), RegexError> {
    if s[0] == '^' {
        Ok((SpecPattern::Start, 1))
    } else if s[0] == '$' {
        Ok((SpecPattern::End, 1))
    } else if s[0] == '.' {
        Ok((SpecPattern::Wildcard, 1))
    } else if s[0] == '(' {
        Err(RegexError::UnterminatedAlternationGroup)
    } else if s[0] == '[' {
        spec_parse_group(s)
    } else if s[0] == '\\' {
        spec_parse_escape(s)
    } else {
        Ok(spec_quantify(SpecPattern::Character(s[0]), s, 1))
    }
}

/// A successfully parsed token consumes between one character and the
/// whole text.
pub proof fn lemma_atom_bounds(s: Seq<char>)
    requires
        s.len() > 0,
    ensures
        spec_parse_atom(s) matches Ok(r) ==> 1 <= r.1 <= s.len(),
{
    if s[0] == '[' {
        let negative = s.len() >= 2 && s[1] == '^';
        let start: int = if negative {
            2
        } else {
            1
        };
        lemma_find_char(s.subrange(start, s.len() as int), ']');
    }
}

/// Parses a flat program: a sequence of tokens covering all of `s`.
pub open spec fn spec_parse_flat(s: Seq<char>) -> Result<Seq<SpecPattern>, RegexError>
    decreases s.len(),
{
    if s.len() == 0 {
        Ok(Seq::empty())
    } else {
        match spec_parse_atom(s) {
            Err(e) => Err(e),
            Ok(r) => {
                proof {
                    lemma_atom_bounds(s);
                }
                match spec_parse_flat(s.subrange(r.1, s.len() as int)) {
                    Err(e) => Err(e),
                    Ok(ps) => Ok(seq![r.0] + ps),
                }
            },
        }
    }
}

/// Scans the text after a `(` for `|`-separated branches up to the
/// first `)`, compiling each branch as a flat program.  The result
/// carries the branches and the count of characters consumed,
/// including the closing `)`.  A branch before a `|` is compiled (and
/// may fail) even when the `)` is missing, which is then reported only
/// after all `|`s have been passed.
pub open spec fn spec_parse_alts(rem: Seq<char>) -> Result<
    (Seq<Seq<SpecPattern>>, int),
    RegexError,
>
    decreases rem.len(),
{
    match (find_char(rem, '|'), find_char(rem, ')')) {
        (None, None) => Err(RegexError::UnterminatedAlternationGroup),
        (Some(p), None) => spec_parse_alts_step(rem, p),
        (None, Some(c)) => spec_parse_alts_last(rem, c),
        (Some(p), Some(c)) => if p < c {
            spec_parse_alts_step(rem, p)
        } else {
            spec_parse_alts_last(rem, c)
        },
    }
}

/// One branch ending at the `|` at position `p`, followed by the
/// remaining branches.
pub open spec fn spec_parse_alts_step(rem: Seq<char>, p: int) -> Result<
    (Seq<Seq<SpecPattern>>, int),
    RegexError,
>
    decreases rem.len(), 0nat,
    when 0 <= p < rem.len()
{
    match spec_parse_flat(rem.subrange(0, p)) {
        Err(e) => Err(e),
        Ok(ps) => match spec_parse_alts(rem.subrange(p + 1, rem.len() as int)) {
            Err(e) => Err(e),
            Ok(r2) => Ok((seq![ps] + r2.0, p + 1 + r2.1)),
        },
    }
}

/// The final branch, ending at the `)` at position `c`.
pub open spec fn spec_parse_alts_last(rem: Seq<char>, c: int) -> Result<
    (Seq<Seq<SpecPattern>>, int),
    RegexError,
> {
    match spec_parse_flat(rem.subrange(0, c)) {
        Err(e) => Err(e),
        Ok(ps) => Ok((seq![ps], c + 1)),
    }
}

/// A successfully scanned alternation body consumes between one
/// character and the whole remaining text.
pub proof fn lemma_alts_bounds(rem: Seq<char>)
    ensures
        spec_parse_alts(rem) matches Ok(r) ==> 1 <= r.1 <= rem.len(),
    decreases rem.len(),
{
    lemma_find_char(rem, '|');
    lemma_find_char(rem, ')');
    match (find_char(rem, '|'), find_char(rem, ')')) {
        (Some(p), None) => {
            lemma_alts_bounds(rem.subrange(p + 1, rem.len() as int));
        },
        (Some(p), Some(c)) => {
            if p < c {
                lemma_alts_bounds(rem.subrange(p + 1, rem.len() as int));
            }
        },
        _ => {},
    }
}

/// Parses one token at the start of non-empty `s`, including a full
/// alternation group for `(`.
pub open spec fn spec_parse_pattern(s: Seq<char>) -> Result<(SpecPattern, int), RegexError> {
    if s.len() > 0 && s[0] == '(' {
        match spec_parse_alts(s.subrange(1, s.len() as int)) {
            Err(e) => Err(e),
            Ok(r) => Ok((SpecPattern::Alternation(r.0), 1 + r.1)),
        }
    } else {
        spec_parse_atom(s)
    }
}

/// A successfully parsed pattern element consumes between one
/// character and the whole text.
pub proof fn lemma_pattern_bounds(s: Seq<char>)
    requires
        s.len() > 0,
    ensures
        spec_parse_pattern(s) matches Ok(r) ==> 1 <= r.1 <= s.len(),
{
    if s[0] == '(' {
        lemma_alts_bounds(s.subrange(1, s.len() as int));
    } else {
        lemma_atom_bounds(s);
    }
}

/// Compiles a whole pattern text into a program: tokens parsed left to
/// right until the text is exhausted, failing fast at the first
/// malformed construct.
pub open spec fn spec_compile(s: Seq<char>) -> Result<Seq<SpecPattern>, RegexError>
    decreases s.len(),
{
    if s.len() == 0 {
        Ok(Seq::empty())
    } else {
        match spec_parse_pattern(s) {
            Err(e) => Err(e),
            Ok(r) => {
                proof {
                    lemma_pattern_bounds(s);
                }
                match spec_compile(s.subrange(r.1, s.len() as int)) {
                    Err(e) => Err(e),
                    Ok(ps) => Ok(seq![r.0] + ps),
                }
            },
        }
    }
}

/// Compilation of a pattern string: ASCII validation, then the scan.
pub open spec fn spec_regex_parse(s: Seq<char>) -> Result<Seq<SpecPattern>, RegexError> {
    if !is_ascii_chars(s) {
        Err(RegexError::NonAsciiPattern)
    } else {
        spec_compile(s)
    }
}

/// On text free of `)` and `|` — an alternation branch — the full
/// grammar agrees with the flat branch grammar: a `(` can never find
/// its `)` there, and both report it the same way.
pub proof fn lemma_flat_compile(s: Seq<char>)
    requires
        !s.contains(')'),
        !s.contains('|'),
    ensures
        spec_compile(s) == spec_parse_flat(s),
    decreases s.len(),
{
    if s.len() > 0 {
        if s[0] == '(' {
            let rem = s.subrange(1, s.len() as int);
            assert(forall|j: int| 0 <= j < rem.len() ==> rem[j] == s[j + 1]);
            assert(find_char(rem, ')') is None) by {
                lemma_find_char(rem, ')');
                match find_char(rem, ')') {
                    Some(i) => {
                        assert(s[i + 1] == ')');
                        assert(s.contains(')'));
                    },
                    None => {},
                }
            }
            assert(find_char(rem, '|') is None) by {
                lemma_find_char(rem, '|');
                match find_char(rem, '|') {
                    Some(i) => {
                        assert(s[i + 1] == '|');
                        assert(s.contains('|'));
                    },
                    None => {},
                }
            }
        } else {
            lemma_pattern_bounds(s);
            match spec_parse_atom(s) {
                Ok(r) => {
                    let tail = s.subrange(r.1, s.len() as int);
                    assert forall|j: int| 0 <= j < tail.len() implies tail[j] == s[j + r.1] by {}
                    assert(!tail.contains(')')) by {
                        if tail.contains(')') {
                            let j = choose|j: int| 0 <= j < tail.len() && tail[j] == ')';
                            assert(s[j + r.1] == ')');
                        }
                    }
                    assert(!tail.contains('|')) by {
                        if tail.contains('|') {
                            let j = choose|j: int| 0 <= j < tail.len() && tail[j] == '|';
                            assert(s[j + r.1] == '|');
                        }
                    }
                    lemma_flat_compile(tail);
                },
                Err(_) => {},
            }
        }
    }
}

/// The position of the first occurrence of `ch` in `s`, by linear scan.
fn find_char_in(s: &str, ch: char) -> (r: Option<usize>)
    ensures
        match r {
            Some(i) => find_char(s@, ch) == Some(i as int),
            None => find_char(s@, ch) is None,
        },
{
    let n = s.unicode_len();
    let mut i: usize = 0;
    while i < n
        invariant
            n == s@.len(),
            0 <= i <= n,
            forall|j: int| 0 <= j < i ==> s@[j] != ch,
        decreases n - i,
    {
        if s.get_char(i) == ch {
            proof {
                lemma_find_char_first(s@, ch, i as int);
            }
            return Some(i);
        }
        i = i + 1;
    }
    proof {
        lemma_find_char(s@, ch);
    }
    None
}

/// Wraps `base` in a quantifier if the character at `after` is `+` or
/// `?`, and returns the element with the rest of the text.
fn quantify<'a>(input: &'a str, base: Pattern, after: usize) -> (r: (&'a str, Pattern))
    requires
        input.is_ascii(),
        after <= input@.len(),
    ensures
        r.1@ == spec_quantify(base@, input@, after as int).0,
        r.0@ == input@.subrange(spec_quantify(base@, input@, after as int).1, input@.len() as int),
        r.0.is_ascii(),
{
    let n = input.unicode_len();
    if after < n && input.get_char(after) == '+' {
        (input.substring_ascii(after + 1, n), Pattern::OneOrMore(Box::new(base)))
    } else if after < n && input.get_char(after) == '?' {
        (input.substring_ascii(after + 1, n), Pattern::ZeroOrOne(Box::new(base)))
    } else {
        (input.substring_ascii(after, n), base)
    }
}

impl Pattern {
    /// Parses the longest recognizable token at the start of the
    /// pattern text, returning the element and the remaining text.
    pub fn parse<'a>(input: &'a str) -> (r: Result<(&'a str, Pattern), RegexError>)
        requires
            input.is_ascii(),
            input@.len() > 0,
        ensures
            match r {
                Ok(rp) => spec_parse_pattern(input@) matches Ok(r2) && rp.1@ == r2.0 && rp.0@
                    == input@.subrange(r2.1, input@.len() as int) && rp.0.is_ascii(),
                Err(e) => spec_parse_pattern(input@) matches Err(e2) && e2 == e,
            },
        decreases input@.len(), 1nat,
    {
        let n = input.unicode_len();
        let c = input.get_char(0);
        if c == '^' {
            Ok((input.substring_ascii(1, n), Pattern::Start))
        } else if c == '$' {
            Ok((input.substring_ascii(1, n), Pattern::End))
        } else if c == '.' {
            Ok((input.substring_ascii(1, n), Pattern::Wildcard))
        } else if c == '(' {
            Self::parse_alternation(input)
        } else if c == '[' {
            let negative = if n >= 2 {
                input.get_char(1) == '^'
            } else {
                false
            };
            let start: usize = if negative {
                2
            } else {
                1
            };
            let rest = input.substring_ascii(start, n);
            match find_char_in(rest, ']') {
                None => Err(RegexError::UnterminatedCharacterGroup),
                Some(i) => {
                    proof {
                        lemma_find_char(rest@, ']');
                    }
                    let content = input.substring_ascii(start, start + i);
                    proof {
                        assert(content@ =~= rest@.subrange(0, i as int));
                    }
                    let base = if negative {
                        Pattern::NegativeGroup(content.to_owned())
                    } else {
                        Pattern::PositiveGroup(content.to_owned())
                    };
                    Ok(quantify(input, base, start + i + 1))
                },
            }
        } else if c == '\\' {
            if n < 2 {
                Err(RegexError::UnsupportedEscapeSequence)
            } else {
                let e = input.get_char(1);
                if e == 'd' {
                    Ok(quantify(input, Pattern::Digit, 2))
                } else if e == 'w' {
                    Ok(quantify(input, Pattern::Alphanumeric, 2))
                } else if e == '\\' || e == '$' || e == '^' || e == '+' || e == '?' || e == '.' {
                    Ok((input.substring_ascii(2, n), Pattern::Character(e)))
                } else {
                    Err(RegexError::UnsupportedEscapeSequence)
                }
            }
        } else {
            Ok(quantify(input, Pattern::Character(c), 1))
        }
    }

    /// Parses an alternation group at the start of the pattern text
    /// (so the first character is `(`): branches split on `|`, each
    /// compiled on its own, up to the first `)`.
    fn parse_alternation<'a>(input: &'a str) -> (r: Result<(&'a str, Pattern), RegexError>)
        requires
            input.is_ascii(),
            input@.len() > 0,
            input@[0] == '(',
        ensures
            match r {
                Ok(rp) => spec_parse_pattern(input@) matches Ok(r2) && rp.1@ == r2.0 && rp.0@
                    == input@.subrange(r2.1, input@.len() as int) && rp.0.is_ascii(),
                Err(e) => spec_parse_pattern(input@) matches Err(e2) && e2 == e,
            },
        decreases input@.len(), 0nat,
    {
        let n = input.unicode_len();
        let ghost whole = input@.subrange(1, n as int);
        let mut pos: usize = 1;
        let mut alternatives: Vec<Vec<Pattern>> = Vec::new();
        loop
            invariant
                input.is_ascii(),
                n == input@.len(),
                input@[0] == '(',
                1 <= pos <= n,
                whole == input@.subrange(1, n as int),
                match spec_parse_alts(input@.subrange(pos as int, n as int)) {
                    Ok(r2) => spec_parse_alts(whole) == Ok::<
                        (Seq<Seq<SpecPattern>>, int),
                        RegexError,
                    >((alts_view(alternatives@) + r2.0, (pos - 1) + r2.1)),
                    Err(e) => spec_parse_alts(whole) == Err::<
                        (Seq<Seq<SpecPattern>>, int),
                        RegexError,
                    >(e),
                },
            decreases n - pos,
        {
            let rem = input.substring_ascii(pos, n);
            let ghost rem_view = rem@;
            proof {
                lemma_find_char(rem_view, '|');
                lemma_find_char(rem_view, ')');
            }
            let pipe = find_char_in(rem, '|');
            let close = find_char_in(rem, ')');
            let (cut, closing): (usize, bool) = match (pipe, close) {
                (None, None) => {
                    return Err(RegexError::UnterminatedAlternationGroup);
                },
                (Some(p), None) => (p, false),
                (None, Some(cl)) => (cl, true),
                (Some(p), Some(cl)) => if p < cl {
                    (p, false)
                } else {
                    (cl, true)
                },
            };
            let seg = input.substring_ascii(pos, pos + cut);
            proof {
                assert(seg@ =~= rem_view.subrange(0, cut as int));
                assert(!seg@.contains(')')) by {
                    if seg@.contains(')') {
                        let j = choose|j: int| 0 <= j < seg@.len() && seg@[j] == ')';
                        assert(rem_view[j] == ')');
                        lemma_find_char_first_bound(rem_view, ')', j);
                    }
                }
                assert(!seg@.contains('|')) by {
                    if seg@.contains('|') {
                        let j = choose|j: int| 0 <= j < seg@.len() && seg@[j] == '|';
                        assert(rem_view[j] == '|');
                        lemma_find_char_first_bound(rem_view, '|', j);
                    }
                }
                lemma_flat_compile(seg@);
            }
            match Regex::parse(seg) {
                Err(e) => {
                    return Err(e);
                },
                Ok(rx) => {
                    let ghost old_alts = alternatives@;
                    let ghost rxv = rx@;
                    alternatives.push(rx.patterns);
                    proof {
                        assert(alternatives@.drop_last() =~= old_alts);
                        lemma_alts_view_last(alternatives@);
                        assert(alts_view(alternatives@) == alts_view(old_alts) + seq![rxv]);
                    }
                    if closing {
                        let rest = input.substring_ascii(pos + cut + 1, n);
                        return Ok((rest, Pattern::Alternation(alternatives)));
                    } else {
                        proof {
                            let tail = input@.subrange(pos + cut + 1, n as int);
                            assert(tail =~= rem_view.subrange(cut + 1, rem_view.len() as int));
                            match spec_parse_alts(tail) {
                                Ok(r2) => {
                                    assert(alts_view(old_alts) + (seq![rxv] + r2.0) =~= alts_view(
                                        alternatives@,
                                    ) + r2.0);
                                },
                                Err(_) => {},
                            }
                        }
                        pos = pos + cut + 1;
                    }
                },
            }
        }
    }
}

/// Splitting a non-empty branch list at its last branch splits its
/// model the same way.
proof fn lemma_alts_view_last(bs: Seq<Vec<Pattern>>)
    requires
        bs.len() > 0,
    ensures
        alts_view(bs) == alts_view(bs.drop_last()) + seq![pats_view(bs.last()@)],
{
    crate::pattern::lemma_alts_view(bs);
    crate::pattern::lemma_alts_view(bs.drop_last());
    assert(alts_view(bs) =~= alts_view(bs.drop_last()) + seq![pats_view(bs.last()@)]);
}

/// A character before the first occurrence is not the sought one.
proof fn lemma_find_char_first_bound(s: Seq<char>, c: char, j: int)
    requires
        0 <= j < s.len(),
        s[j] == c,
    ensures
        find_char(s, c) matches Some(i) && i <= j,
{
    lemma_find_char(s, c);
    match find_char(s, c) {
        Some(i) => {
            if i > j {
                assert(s[j] != c);
            }
        },
        None => {
            assert(s.contains(c));
        },
    }
}

impl Regex {
    /// Compiles a whole pattern string into a program, validating that
    /// the text is ASCII and then scanning it left to right.
    pub fn parse(input: &str) -> (r: Result<Regex, RegexError>)
        ensures
            match r {
                Ok(rx) => spec_regex_parse(input@) matches Ok(sps) && rx@ == sps,
                Err(e) => spec_regex_parse(input@) matches Err(e2) && e2 == e,
            },
        decreases input@.len(), 2nat,
    {
        if !input.is_ascii() {
            return Err(RegexError::NonAsciiPattern);
        }
        let mut patterns: Vec<Pattern> = Vec::new();
        let mut rest: &str = input;
        while !rest.is_empty()
            invariant
                input.is_ascii(),
                rest.is_ascii(),
                rest@.len() <= input@.len(),
                match spec_compile(rest@) {
                    Ok(tail) => spec_compile(input@) == Ok::<Seq<SpecPattern>, RegexError>(
                        pats_view(patterns@) + tail,
                    ),
                    Err(e) => spec_compile(input@) == Err::<Seq<SpecPattern>, RegexError>(e),
                },
            decreases rest@.len(),
        {
            let ghost old_rest = rest@;
            let ghost old_pats = patterns@;
            match Pattern::parse(rest) {
                Err(e) => {
                    return Err(e);
                },
                Ok(rp) => {
                    let (rem, p) = rp;
                    proof {
                        lemma_pattern_bounds(old_rest);
                    }
                    patterns.push(p);
                    rest = rem;
                    proof {
                        lemma_pats_view_push(old_pats, p);
                        match spec_compile(rest@) {
                            Ok(tail) => {
                                assert(pats_view(old_pats) + (seq![p@] + tail) =~= pats_view(
                                    patterns@,
                                ) + tail);
                            },
                            Err(_) => {},
                        }
                    }
                },
            }
        }
        proof {
            assert(spec_compile(rest@) == Ok::<Seq<SpecPattern>, RegexError>(
                Seq::<SpecPattern>::empty(),
            ));
            assert(pats_view(patterns@) + Seq::<SpecPattern>::empty() =~= pats_view(patterns@));
        }
        Ok(Regex { patterns })
    }
}

/// Pushing an element extends the model of a program by the model of
/// the element.
proof fn lemma_pats_view_push(ps: Seq<Pattern>, p: Pattern)
    ensures
        pats_view(ps.push(p)) == pats_view(ps) + seq![p@],
{
    crate::pattern::lemma_pats_view(ps.push(p));
    crate::pattern::lemma_pats_view(ps);
    assert(pats_view(ps.push(p)) =~= pats_view(ps) + seq![p@]);
}

} // verus!
