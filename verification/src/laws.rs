//! Laws of the engine: proved statements relating compilation and
//! matching of whole pattern texts to direct properties of the
//! subject.

use vstd::prelude::*;
use vstd::utf8::is_ascii_chars;
use crate::matching::{spec_match_here, spec_match_pattern, spec_match_to_end, spec_search};
use crate::parse::{
    find_char,
    lemma_find_char,
    lemma_find_char_first,
    lemma_pattern_bounds,
    spec_compile,
    spec_parse_alts,
    spec_parse_atom,
    spec_parse_pattern,
    spec_regex_parse,
    RegexError,
};
use crate::pattern::{
    char_match,
    is_digit_char,
    is_word_char,
    lemma_branch_size_le,
    lemma_pat_size_pos,
    lemma_pats_size_concat,
    lemma_pats_size_first,
    pats_size,
    SpecPattern,
};

verus! {

/// A character that the scanner reads as a plain literal: not an
/// anchor, a wildcard, an opening bracket of a group, or an escape.
pub open spec fn is_plain_char(c: char) -> bool {
    c != '^' && c != '$' && c != '.' && c != '(' && c != '[' && c != '\\'
}

/// A single-character element: one that consumes exactly one subject
/// character when it matches.
pub open spec fn is_single_element(e: SpecPattern) -> bool {
    match e {
        SpecPattern::Character(_) => true,
        SpecPattern::Digit => true,
        SpecPattern::Alphanumeric => true,
        SpecPattern::PositiveGroup(_) => true,
        SpecPattern::NegativeGroup(_) => true,
        SpecPattern::Wildcard => true,
        _ => false,
    }
}

/// A program of one single-character element matches somewhere in `s`
/// exactly when some character of `s` satisfies the element.
proof fn lemma_search_single(e: SpecPattern, s: Seq<char>)
    requires
        is_single_element(e),
    ensures
        spec_search(s, seq![e]) == (exists|i: int| 0 <= i < s.len() && char_match(e, s[i])),
{
    let ps = seq![e];
    assert(ps[0] == e);
    if exists|i: int| 0 <= i < s.len() && char_match(e, s[i]) {
        let i = choose|i: int| 0 <= i < s.len() && char_match(e, s[i]);
        let t = s.subrange(i, s.len() as int);
        assert(t[0] == s[i]);
        assert(spec_match_here(t.subrange(1, t.len() as int), ps.subrange(1, 1)));
        assert(spec_match_here(t, ps));
        assert(spec_search(s, ps));
    }
    if spec_search(s, ps) {
        let off = choose|off: int|
            0 <= off <= s.len() && spec_match_here(s.subrange(off, s.len() as int), ps);
        let t = s.subrange(off, s.len() as int);
        assert(spec_match_here(t, ps));
        assert(t.len() > 0 && char_match(e, t[0]));
        assert(t[0] == s[off]);
        assert(0 <= off < s.len() && char_match(e, s[off]));
    }
}

/// A program of one quantified single-character element matches
/// somewhere in `s` exactly when some character of `s` satisfies the
/// element: a run of length one is a run.
proof fn lemma_search_one_or_more(e: SpecPattern, s: Seq<char>)
    requires
        is_single_element(e),
    ensures
        spec_search(s, seq![SpecPattern::OneOrMore(Box::new(e))]) == (exists|i: int|
            0 <= i < s.len() && char_match(e, s[i])),
{
    let q = SpecPattern::OneOrMore(Box::new(e));
    let ps = seq![q];
    assert(ps[0] == q);
    if exists|i: int| 0 <= i < s.len() && char_match(e, s[i]) {
        let i = choose|i: int| 0 <= i < s.len() && char_match(e, s[i]);
        let t = s.subrange(i, s.len() as int);
        assert(t[0] == s[i]);
        assert(spec_match_here(t.subrange(1, t.len() as int), ps.subrange(1, 1)));
        match ps[0] {
            SpecPattern::OneOrMore(b2) => {
                assert(*b2 == e);
                assert(1 <= 1 <= t.len() && (forall|j: int| 0 <= j < 1 ==> char_match(*b2, t[j]))
                    && spec_match_here(t.subrange(1, t.len() as int), ps.subrange(1, 1)));
                assert(exists|k: int|
                    1 <= k <= t.len() && (forall|j: int| 0 <= j < k ==> char_match(*b2, t[j]))
                        && spec_match_here(t.subrange(k, t.len() as int), ps.subrange(1, 1)));
            },
            _ => {},
        }
        assert(spec_match_here(t, ps));
        assert(spec_search(s, ps));
    }
    if spec_search(s, ps) {
        let off = choose|off: int|
            0 <= off <= s.len() && spec_match_here(s.subrange(off, s.len() as int), ps);
        let t = s.subrange(off, s.len() as int);
        assert(spec_match_here(t, ps));
        match ps[0] {
            SpecPattern::OneOrMore(b2) => {
                assert(*b2 == e);
                let k = choose|k: int|
                    1 <= k <= t.len() && (forall|j: int| 0 <= j < k ==> char_match(*b2, t[j]))
                        && spec_match_here(t.subrange(k, t.len() as int), ps.subrange(1, 1));
                assert(char_match(e, t[0]));
                assert(t[0] == s[off]);
                assert(0 <= off < s.len() && char_match(e, s[off]));
            },
            _ => {},
        }
    }
}

/// A pattern text of one plain literal compiles to one literal element.
proof fn lemma_compile_literal(c: char)
    requires
        is_plain_char(c),
    ensures
        spec_compile(seq![c]) == Ok::<Seq<SpecPattern>, RegexError>(seq![SpecPattern::Character(c)]),
{
    let s = seq![c];
    assert(s[0] == c);
    assert(s.subrange(1, 1) =~= Seq::<char>::empty());
    assert(spec_compile(s.subrange(1, 1)) == Ok::<Seq<SpecPattern>, RegexError>(
        Seq::<SpecPattern>::empty(),
    ));
    assert(seq![SpecPattern::Character(c)] + Seq::<SpecPattern>::empty() =~= seq![
        SpecPattern::Character(c),
    ]);
}

/// A pattern text of one plain literal followed by `+` compiles to one
/// quantified literal element.
proof fn lemma_compile_literal_plus(c: char)
    requires
        is_plain_char(c),
    ensures
        spec_compile(seq![c, '+']) == Ok::<Seq<SpecPattern>, RegexError>(
            seq![SpecPattern::OneOrMore(Box::new(SpecPattern::Character(c)))],
        ),
{
    let s = seq![c, '+'];
    let q = SpecPattern::OneOrMore(Box::new(SpecPattern::Character(c)));
    assert(s[0] == c && s[1] == '+');
    assert(s.subrange(2, 2) =~= Seq::<char>::empty());
    assert(spec_compile(s.subrange(2, 2)) == Ok::<Seq<SpecPattern>, RegexError>(
        Seq::<SpecPattern>::empty(),
    ));
    assert(seq![q] + Seq::<SpecPattern>::empty() =~= seq![q]);
}

/// Matching a single plain literal is containment: for every literal
/// `c` and ASCII subject `s`, the pattern `c` matches `s` exactly when
/// some character of `s` is `c`.
pub proof fn law_single_literal(c: char, s: Seq<char>)
    requires
        is_plain_char(c),
        c <= '\u{7f}',
        is_ascii_chars(s),
    ensures
        spec_match_pattern(s, seq![c]) == Ok::<bool, RegexError>(s.contains(c)),
{
    let p = seq![c];
    assert(is_ascii_chars(p)) by {
        assert(forall|i: int| 0 <= i < p.len() ==> p[i] == c);
    }
    lemma_compile_literal(c);
    lemma_search_single(SpecPattern::Character(c), s);
    assert((exists|i: int| 0 <= i < s.len() && char_match(SpecPattern::Character(c), s[i]))
        == s.contains(c)) by {
        if exists|i: int| 0 <= i < s.len() && char_match(SpecPattern::Character(c), s[i]) {
            let i = choose|i: int|
                0 <= i < s.len() && char_match(SpecPattern::Character(c), s[i]);
            assert(s[i] == c);
        }
        if s.contains(c) {
            let i = choose|i: int| 0 <= i < s.len() && s[i] == c;
            assert(char_match(SpecPattern::Character(c), s[i]));
        }
    }
}

/// The digit-class pattern `\d` matches `s` exactly when `s` holds at
/// least one ASCII digit.
pub proof fn law_digit_class(s: Seq<char>)
    requires
        is_ascii_chars(s),
    ensures
        spec_match_pattern(s, seq!['\\', 'd']) == Ok::<bool, RegexError>(
            exists|i: int| 0 <= i < s.len() && is_digit_char(s[i]),
        ),
{
    let p = seq!['\\', 'd'];
    assert(is_ascii_chars(p)) by {
        assert(p[0] == '\\' && p[1] == 'd');
        assert(forall|i: int| 0 <= i < p.len() ==> (p[i] == '\\' || p[i] == 'd'));
    }
    assert(p[0] == '\\' && p[1] == 'd');
    assert(p.subrange(2, 2) =~= Seq::<char>::empty());
    assert(spec_compile(p.subrange(2, 2)) == Ok::<Seq<SpecPattern>, RegexError>(
        Seq::<SpecPattern>::empty(),
    ));
    assert(seq![SpecPattern::Digit] + Seq::<SpecPattern>::empty() =~= seq![SpecPattern::Digit]);
    assert(spec_compile(p) == Ok::<Seq<SpecPattern>, RegexError>(seq![SpecPattern::Digit]));
    lemma_search_single(SpecPattern::Digit, s);
}

/// The word-class pattern `\w` matches `s` exactly when `s` holds at
/// least one ASCII alphanumeric character.
pub proof fn law_word_class(s: Seq<char>)
    requires
        is_ascii_chars(s),
    ensures
        spec_match_pattern(s, seq!['\\', 'w']) == Ok::<bool, RegexError>(
            exists|i: int| 0 <= i < s.len() && is_word_char(s[i]),
        ),
{
    let p = seq!['\\', 'w'];
    assert(is_ascii_chars(p)) by {
        assert(p[0] == '\\' && p[1] == 'w');
        assert(forall|i: int| 0 <= i < p.len() ==> (p[i] == '\\' || p[i] == 'w'));
    }
    assert(p[0] == '\\' && p[1] == 'w');
    assert(p.subrange(2, 2) =~= Seq::<char>::empty());
    assert(spec_compile(p.subrange(2, 2)) == Ok::<Seq<SpecPattern>, RegexError>(
        Seq::<SpecPattern>::empty(),
    ));
    assert(seq![SpecPattern::Alphanumeric] + Seq::<SpecPattern>::empty() =~= seq![
        SpecPattern::Alphanumeric,
    ]);
    assert(spec_compile(p) == Ok::<Seq<SpecPattern>, RegexError>(seq![SpecPattern::Alphanumeric]));
    lemma_search_single(SpecPattern::Alphanumeric, s);
}

/// A quantified literal `c+` matches `s` exactly when `s` holds a run
/// of one or more `c` — that is, at least one `c`.
pub proof fn law_one_or_more_literal(c: char, s: Seq<char>)
    requires
        is_plain_char(c),
        c <= '\u{7f}',
        is_ascii_chars(s),
    ensures
        spec_match_pattern(s, seq![c, '+']) == Ok::<bool, RegexError>(s.contains(c)),
{
    let p = seq![c, '+'];
    assert(is_ascii_chars(p)) by {
        assert(p[0] == c && p[1] == '+');
        assert(forall|i: int| 0 <= i < p.len() ==> (p[i] == c || p[i] == '+'));
    }
    lemma_compile_literal_plus(c);
    lemma_search_one_or_more(SpecPattern::Character(c), s);
    assert((exists|i: int| 0 <= i < s.len() && char_match(SpecPattern::Character(c), s[i]))
        == s.contains(c)) by {
        if exists|i: int| 0 <= i < s.len() && char_match(SpecPattern::Character(c), s[i]) {
            let i = choose|i: int|
                0 <= i < s.len() && char_match(SpecPattern::Character(c), s[i]);
            assert(s[i] == c);
        }
        if s.contains(c) {
            let i = choose|i: int| 0 <= i < s.len() && s[i] == c;
            assert(char_match(SpecPattern::Character(c), s[i]));
        }
    }
}

/// A bracket set `[set]` matches `s` exactly when some character of
/// `s` is in the set.  The set may not hold `]`, which would close the
/// group early, nor open with `^`, which would negate it.
pub proof fn law_positive_group(set: Seq<char>, s: Seq<char>)
    requires
        is_ascii_chars(set),
        is_ascii_chars(s),
        !set.contains(']'),
        set.len() > 0 ==> set[0] != '^',
    ensures
        spec_match_pattern(s, seq!['['] + set + seq![']']) == Ok::<bool, RegexError>(
            exists|i: int| 0 <= i < s.len() && set.contains(s[i]),
        ),
{
    let p = seq!['['] + set + seq![']'];
    assert(p[0] == '[');
    assert(p[p.len() - 1] == ']');
    assert(forall|i: int| 0 <= i < set.len() ==> p[i + 1] == set[i]);
    assert(is_ascii_chars(p)) by {
        assert(forall|i: int|
            0 <= i < p.len() ==> (p[i] == '[' || p[i] == ']' || (0 <= i - 1 < set.len() && p[i]
                == set[i - 1])));
    }
    assert(p.len() >= 2 ==> p[1] != '^');
    let rest = p.subrange(1, p.len() as int);
    assert(rest =~= set + seq![']']);
    lemma_find_char_first(rest, ']', set.len() as int);
    assert(rest.subrange(0, set.len() as int) =~= set);
    let e = SpecPattern::PositiveGroup(set);
    assert(p.subrange(p.len() as int, p.len() as int) =~= Seq::<char>::empty());
    assert(spec_compile(p.subrange(p.len() as int, p.len() as int)) == Ok::<
        Seq<SpecPattern>,
        RegexError,
    >(Seq::<SpecPattern>::empty()));
    assert(seq![e] + Seq::<SpecPattern>::empty() =~= seq![e]);
    assert(spec_compile(p) == Ok::<Seq<SpecPattern>, RegexError>(seq![e]));
    lemma_search_single(e, s);
}

/// A negated bracket set `[^set]` matches `s` exactly when some
/// character of `s` is absent from the set.  The set may not hold `]`.
pub proof fn law_negative_group(set: Seq<char>, s: Seq<char>)
    requires
        is_ascii_chars(set),
        is_ascii_chars(s),
        !set.contains(']'),
    ensures
        spec_match_pattern(s, seq!['[', '^'] + set + seq![']']) == Ok::<bool, RegexError>(
            exists|i: int| 0 <= i < s.len() && !set.contains(s[i]),
        ),
{
    let p = seq!['[', '^'] + set + seq![']'];
    assert(p[0] == '[' && p[1] == '^');
    assert(p[p.len() - 1] == ']');
    assert(forall|i: int| 0 <= i < set.len() ==> p[i + 2] == set[i]);
    assert(is_ascii_chars(p)) by {
        assert(forall|i: int|
            0 <= i < p.len() ==> (p[i] == '[' || p[i] == '^' || p[i] == ']' || (0 <= i - 2
                < set.len() && p[i] == set[i - 2])));
    }
    let rest = p.subrange(2, p.len() as int);
    assert(rest =~= set + seq![']']);
    lemma_find_char_first(rest, ']', set.len() as int);
    assert(rest.subrange(0, set.len() as int) =~= set);
    let e = SpecPattern::NegativeGroup(set);
    assert(p.subrange(p.len() as int, p.len() as int) =~= Seq::<char>::empty());
    assert(spec_compile(p.subrange(p.len() as int, p.len() as int)) == Ok::<
        Seq<SpecPattern>,
        RegexError,
    >(Seq::<SpecPattern>::empty()));
    assert(seq![e] + Seq::<SpecPattern>::empty() =~= seq![e]);
    assert(spec_compile(p) == Ok::<Seq<SpecPattern>, RegexError>(seq![e]));
    lemma_search_single(e, s);
}

/// A start-anchored pattern `^p` matches `s` exactly when `s` starts
/// with a match for `p`: the search runs at offset zero alone.
pub proof fn law_start_anchor(p: Seq<char>, ps: Seq<SpecPattern>, s: Seq<char>)
    requires
        is_ascii_chars(p),
        is_ascii_chars(s),
        spec_compile(p) == Ok::<Seq<SpecPattern>, RegexError>(ps),
    ensures
        spec_match_pattern(s, seq!['^'] + p) == Ok::<bool, RegexError>(spec_match_here(s, ps)),
{
    let full = seq!['^'] + p;
    assert(full[0] == '^');
    assert(forall|i: int| 0 <= i < p.len() ==> full[i + 1] == p[i]);
    assert(is_ascii_chars(full)) by {
        assert(forall|i: int|
            0 <= i < full.len() ==> (full[i] == '^' || (0 <= i - 1 < p.len() && full[i] == p[i
                - 1])));
    }
    assert(full.subrange(1, full.len() as int) =~= p);
    let ps2 = seq![SpecPattern::Start] + ps;
    assert(spec_compile(full) == Ok::<Seq<SpecPattern>, RegexError>(ps2));
    assert(ps2[0] == SpecPattern::Start);
    assert(ps2.subrange(1, ps2.len() as int) =~= ps);
    assert(spec_search(s, ps2) == spec_match_here(s, ps));
}

/// Whether a pattern element is free of end anchors, at its own level
/// and inside its alternation branches.
pub open spec fn pat_no_end(p: SpecPattern) -> bool
    decreases p,
{
    match p {
        SpecPattern::End => false,
        SpecPattern::Alternation(bs) => alts_no_end(bs),
        _ => true,
    }
}

/// Whether a program is free of end anchors.
pub open spec fn pats_no_end(ps: Seq<SpecPattern>) -> bool
    decreases ps,
{
    ps.len() == 0 || (pat_no_end(ps[0]) && pats_no_end(ps.subrange(1, ps.len() as int)))
}

/// Whether every branch of a branch list is free of end anchors.
pub open spec fn alts_no_end(bs: Seq<Seq<SpecPattern>>) -> bool
    decreases bs,
{
    bs.len() == 0 || (pats_no_end(bs[0]) && alts_no_end(bs.subrange(1, bs.len() as int)))
}

/// Freedom from end anchors distributes over concatenation.
proof fn lemma_no_end_concat(a: Seq<SpecPattern>, b: Seq<SpecPattern>)
    ensures
        pats_no_end(a + b) == (pats_no_end(a) && pats_no_end(b)),
    decreases a.len(),
{
    if a.len() == 0 {
        assert(a + b =~= b);
    } else {
        lemma_no_end_concat(a.subrange(1, a.len() as int), b);
        assert((a + b).subrange(1, (a + b).len() as int) =~= a.subrange(1, a.len() as int) + b);
        assert((a + b)[0] == a[0]);
    }
}

/// Each branch of an end-anchor-free branch list is itself free.
proof fn lemma_no_end_branch(bs: Seq<Seq<SpecPattern>>, i: int)
    requires
        alts_no_end(bs),
        0 <= i < bs.len(),
    ensures
        pats_no_end(bs[i]),
    decreases i,
{
    if i > 0 {
        lemma_no_end_branch(bs.subrange(1, bs.len() as int), i - 1);
    }
}

/// Appending text free of the sought character moves `find_char` not
/// at all: a hit keeps its position, a miss stays a miss.
proof fn lemma_find_char_append(s: Seq<char>, t: Seq<char>, c: char)
    requires
        !t.contains(c),
    ensures
        find_char(s + t, c) == find_char(s, c),
{
    lemma_find_char(s, c);
    lemma_find_char(s + t, c);
    match find_char(s, c) {
        Some(i) => {
            assert((s + t)[i] == c);
            assert(forall|j: int| 0 <= j < i ==> (s + t)[j] == s[j]);
            lemma_find_char_first(s + t, c, i);
        },
        None => {
            match find_char(s + t, c) {
                Some(i2) => {
                    if i2 < s.len() {
                        assert(s[i2] == c);
                        assert(s.contains(c));
                    } else {
                        assert(t[i2 - s.len()] == c);
                        assert(t.contains(c));
                    }
                },
                None => {},
            }
        },
    }
}

/// Appending a `$` after a token that parses changes nothing about
/// that token: the scanner never looks past what it consumed, except
/// for a quantifier peek that `$` cannot satisfy.
proof fn lemma_atom_extend(s: Seq<char>)
    requires
        s.len() > 0,
        spec_parse_atom(s) matches Ok(r),
    ensures
        spec_parse_atom(s + seq!['$']) == spec_parse_atom(s),
{
    let t = seq!['$'];
    let st = s + t;
    assert(st[0] == s[0]);
    assert(forall|j: int| 0 <= j < s.len() ==> st[j] == s[j]);
    assert(st[s.len() as int] == '$');
    assert(!t.contains(']')) by {
        assert(forall|j: int| 0 <= j < t.len() ==> t[j] == '$');
    }
    if s[0] == '[' {
        if s.len() < 2 {
            let rest = s.subrange(1, s.len() as int);
            assert(rest =~= Seq::<char>::empty());
            lemma_find_char(rest, ']');
            assert(spec_parse_atom(s) is Err);
        } else {
            let negative = s[1] == '^';
            let start: int = if negative {
                2
            } else {
                1
            };
            assert(st.len() >= 2 && st[1] == s[1]);
            let rest_s = s.subrange(start, s.len() as int);
            let rest_st = st.subrange(start, st.len() as int);
            assert(rest_st =~= rest_s + t);
            lemma_find_char_append(rest_s, t, ']');
            lemma_find_char(rest_s, ']');
            match find_char(rest_s, ']') {
                Some(i) => {
                    assert(rest_st.subrange(0, i) =~= rest_s.subrange(0, i));
                    let after = start + i + 1;
                    assert(after <= s.len());
                    if after < s.len() {
                        assert(st[after] == s[after]);
                    } else {
                        assert(st[after] == '$');
                    }
                },
                None => {},
            }
        }
    } else if s[0] == '\\' {
        if s.len() < 2 {
            assert(spec_parse_atom(s) is Err);
        } else {
            assert(st[1] == s[1]);
            if 2 < s.len() {
                assert(st[2] == s[2]);
            } else if 2 == s.len() {
                assert(st[2] == '$');
            }
        }
    } else if s[0] == '^' || s[0] == '$' || s[0] == '.' || s[0] == '(' {
    } else {
        if 1 < s.len() {
            assert(st[1] == s[1]);
        } else {
            assert(st[1] == '$');
        }
    }
}

/// Appending a `$` after a complete alternation body changes nothing:
/// the scan stopped at the `)` before it.
proof fn lemma_alts_extend(rem: Seq<char>)
    requires
        spec_parse_alts(rem) matches Ok(r),
    ensures
        spec_parse_alts(rem + seq!['$']) == spec_parse_alts(rem),
    decreases rem.len(),
{
    let t = seq!['$'];
    let remt = rem + t;
    assert(!t.contains('|') && !t.contains(')')) by {
        assert(forall|j: int| 0 <= j < t.len() ==> t[j] == '$');
    }
    lemma_find_char_append(rem, t, '|');
    lemma_find_char_append(rem, t, ')');
    lemma_find_char(rem, '|');
    lemma_find_char(rem, ')');
    match (find_char(rem, '|'), find_char(rem, ')')) {
        (None, None) => {},
        (Some(p), None) => {
            assert(rem.subrange(0, p) =~= remt.subrange(0, p));
            assert(remt.subrange(p + 1, remt.len() as int) =~= rem.subrange(p + 1, rem.len() as int)
                + t);
            lemma_alts_extend(rem.subrange(p + 1, rem.len() as int));
        },
        (None, Some(c)) => {
            assert(rem.subrange(0, c) =~= remt.subrange(0, c));
        },
        (Some(p), Some(c)) => {
            if p < c {
                assert(rem.subrange(0, p) =~= remt.subrange(0, p));
                assert(remt.subrange(p + 1, remt.len() as int) =~= rem.subrange(
                    p + 1,
                    rem.len() as int,
                ) + t);
                lemma_alts_extend(rem.subrange(p + 1, rem.len() as int));
            } else {
                assert(rem.subrange(0, c) =~= remt.subrange(0, c));
            }
        },
    }
}

/// Appending a `$` after a pattern element that parses changes
/// nothing about that element.
proof fn lemma_pattern_extend(s: Seq<char>)
    requires
        s.len() > 0,
        spec_parse_pattern(s) matches Ok(r),
    ensures
        spec_parse_pattern(s + seq!['$']) == spec_parse_pattern(s),
{
    let t = seq!['$'];
    let st = s + t;
    assert(st[0] == s[0]);
    if s[0] == '(' {
        assert(st.subrange(1, st.len() as int) =~= s.subrange(1, s.len() as int) + t);
        lemma_alts_extend(s.subrange(1, s.len() as int));
    } else {
        lemma_atom_extend(s);
    }
}

/// Compiling a pattern text with `$` appended appends an end anchor to
/// the compiled program.
proof fn lemma_compile_append_end(p: Seq<char>, ps: Seq<SpecPattern>)
    requires
        spec_compile(p) == Ok::<Seq<SpecPattern>, RegexError>(ps),
    ensures
        spec_compile(p + seq!['$']) == Ok::<Seq<SpecPattern>, RegexError>(
            ps + seq![SpecPattern::End],
        ),
    decreases p.len(),
{
    let t = seq!['$'];
    let pt = p + t;
    if p.len() == 0 {
        assert(pt =~= t);
        assert(pt[0] == '$');
        assert(pt.subrange(1, 1) =~= Seq::<char>::empty());
        assert(spec_compile(pt.subrange(1, 1)) == Ok::<Seq<SpecPattern>, RegexError>(
            Seq::<SpecPattern>::empty(),
        ));
        assert(seq![SpecPattern::End] + Seq::<SpecPattern>::empty() =~= seq![SpecPattern::End]);
        assert(ps + seq![SpecPattern::End] =~= seq![SpecPattern::End]);
    } else {
        match spec_parse_pattern(p) {
            Ok(r) => {
                lemma_pattern_bounds(p);
                lemma_pattern_extend(p);
                let tail = p.subrange(r.1, p.len() as int);
                assert(pt.subrange(r.1, pt.len() as int) =~= tail + t);
                match spec_compile(tail) {
                    Ok(tail_ps) => {
                        lemma_compile_append_end(tail, tail_ps);
                        assert(ps == seq![r.0] + tail_ps);
                        assert(seq![r.0] + (tail_ps + seq![SpecPattern::End]) =~= ps + seq![
                            SpecPattern::End,
                        ]);
                    },
                    Err(_) => {},
                }
            },
            Err(_) => {},
        }
    }
}

/// For a program free of end anchors, appending an end anchor turns
/// prefix matching into full matching: `ps` followed by `$` matches a
/// prefix of `s` exactly when `ps` matches all of `s`.
proof fn lemma_end_equiv(s: Seq<char>, ps: Seq<SpecPattern>)
    requires
        pats_no_end(ps),
    ensures
        spec_match_here(s, ps + seq![SpecPattern::End]) == spec_match_to_end(s, ps),
    decreases pats_size(ps),
{
    let e = SpecPattern::End;
    let ps_e = ps + seq![e];
    assert(ps_e.len() == ps.len() + 1);
    if ps.len() == 0 {
        assert(ps_e[0] == e);
        assert(ps_e.subrange(1, ps_e.len() as int) =~= Seq::<SpecPattern>::empty());
    } else {
        let rest = ps.subrange(1, ps.len() as int);
        let rest_e = ps_e.subrange(1, ps_e.len() as int);
        assert(rest_e =~= rest + seq![e]);
        assert(ps_e[0] == ps[0]);
        assert(pat_no_end(ps[0]) && pats_no_end(rest));
        lemma_pats_size_first(ps);
        lemma_pat_size_pos(ps[0]);
        match ps[0] {
            SpecPattern::OneOrMore(b2) => {
                assert forall|k: int| 1 <= k <= s.len() implies (spec_match_here(
                    s.subrange(k, s.len() as int),
                    rest_e,
                ) == spec_match_to_end(s.subrange(k, s.len() as int), rest)) by {
                    lemma_end_equiv(s.subrange(k, s.len() as int), rest);
                }
                if spec_match_here(s, ps_e) {
                    let k = choose|k: int|
                        1 <= k <= s.len() && (forall|j: int| 0 <= j < k ==> char_match(*b2, s[j]))
                            && spec_match_here(s.subrange(k, s.len() as int), rest_e);
                    assert(1 <= k <= s.len() && (forall|j: int|
                        0 <= j < k ==> char_match(*b2, s[j])) && spec_match_to_end(
                        s.subrange(k, s.len() as int),
                        rest,
                    ));
                    assert(spec_match_to_end(s, ps));
                }
                if spec_match_to_end(s, ps) {
                    let k = choose|k: int|
                        1 <= k <= s.len() && (forall|j: int| 0 <= j < k ==> char_match(*b2, s[j]))
                            && spec_match_to_end(s.subrange(k, s.len() as int), rest);
                    assert(1 <= k <= s.len() && (forall|j: int|
                        0 <= j < k ==> char_match(*b2, s[j])) && spec_match_here(
                        s.subrange(k, s.len() as int),
                        rest_e,
                    ));
                    assert(spec_match_here(s, ps_e));
                }
            },
            SpecPattern::ZeroOrOne(b2) => {
                lemma_end_equiv(s, rest);
                if s.len() > 0 {
                    lemma_end_equiv(s.subrange(1, s.len() as int), rest);
                }
            },
            SpecPattern::Alternation(b2s) => {
                assert forall|i: int| 0 <= i < b2s.len() implies (spec_match_here(
                    s,
                    b2s[i] + rest_e,
                ) == spec_match_to_end(s, b2s[i] + rest)) by {
                    lemma_no_end_branch(b2s, i);
                    lemma_no_end_concat(b2s[i], rest);
                    lemma_pats_size_concat(b2s[i], rest);
                    lemma_branch_size_le(b2s, i);
                    lemma_end_equiv(s, b2s[i] + rest);
                    assert(b2s[i] + rest_e =~= (b2s[i] + rest) + seq![e]);
                }
                if spec_match_here(s, ps_e) {
                    let i = choose|i: int|
                        0 <= i < b2s.len() && spec_match_here(s, b2s[i] + rest_e);
                    assert(0 <= i < b2s.len() && spec_match_to_end(s, b2s[i] + rest));
                    assert(spec_match_to_end(s, ps));
                }
                if spec_match_to_end(s, ps) {
                    let i = choose|i: int|
                        0 <= i < b2s.len() && spec_match_to_end(s, b2s[i] + rest);
                    assert(0 <= i < b2s.len() && spec_match_here(s, b2s[i] + rest_e));
                    assert(spec_match_here(s, ps_e));
                }
            },
            SpecPattern::End => {
                assert(!pat_no_end(ps[0]));
            },
            _ => {
                if s.len() > 0 {
                    lemma_end_equiv(s.subrange(1, s.len() as int), rest);
                }
            },
        }
    }
}

/// An end-anchored pattern `p$` matches `s` exactly when some suffix
/// of `s` is matched in full by `p`: the subject must end with a match.
/// The compiled `p` may not itself hold end anchors, which can never
/// be satisfied mid-program, nor open with a start anchor, which would
/// anchor the search to offset zero instead.
pub proof fn law_end_anchor(p: Seq<char>, ps: Seq<SpecPattern>, s: Seq<char>)
    requires
        is_ascii_chars(p),
        is_ascii_chars(s),
        spec_compile(p) == Ok::<Seq<SpecPattern>, RegexError>(ps),
        pats_no_end(ps),
        ps.len() > 0 ==> ps[0] != SpecPattern::Start,
    ensures
        spec_match_pattern(s, p + seq!['$']) == Ok::<bool, RegexError>(
            exists|off: int|
                0 <= off <= s.len() && spec_match_to_end(s.subrange(off, s.len() as int), ps),
        ),
{
    let full = p + seq!['$'];
    assert(is_ascii_chars(full)) by {
        assert(forall|i: int|
            0 <= i < full.len() ==> ((0 <= i < p.len() && full[i] == p[i]) || full[i] == '$'));
    }
    lemma_compile_append_end(p, ps);
    let ps_e = ps + seq![SpecPattern::End];
    assert(spec_regex_parse(full) == Ok::<Seq<SpecPattern>, RegexError>(ps_e));
    if ps.len() > 0 {
        assert(ps_e[0] == ps[0]);
    } else {
        assert(ps_e[0] == SpecPattern::End);
    }
    assert(ps_e[0] != SpecPattern::Start);
    assert forall|off: int| 0 <= off <= s.len() implies (spec_match_here(
        s.subrange(off, s.len() as int),
        ps_e,
    ) == spec_match_to_end(s.subrange(off, s.len() as int), ps)) by {
        lemma_end_equiv(s.subrange(off, s.len() as int), ps);
    }
    if spec_search(s, ps_e) {
        let off = choose|off: int|
            0 <= off <= s.len() && spec_match_here(s.subrange(off, s.len() as int), ps_e);
        assert(0 <= off <= s.len() && spec_match_to_end(s.subrange(off, s.len() as int), ps));
    }
    if exists|off: int|
        0 <= off <= s.len() && spec_match_to_end(s.subrange(off, s.len() as int), ps) {
        let off = choose|off: int|
            0 <= off <= s.len() && spec_match_to_end(s.subrange(off, s.len() as int), ps);
        assert(0 <= off <= s.len() && spec_match_here(s.subrange(off, s.len() as int), ps_e));
        assert(spec_search(s, ps_e));
    }
}

} // verus!
