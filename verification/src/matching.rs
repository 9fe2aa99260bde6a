//! The backtracking matcher: a recursive search over (subject
//! position, element index) pairs, with its mathematical model.

use vstd::prelude::*;
use vstd::utf8::is_ascii_chars;
use crate::parse::{spec_regex_parse, RegexError};
use crate::pattern::{
    alts_view,
    char_match,
    lemma_alts_view,
    lemma_branch_size_le,
    lemma_pat_size_pos,
    lemma_pats_size_concat,
    lemma_pats_size_first,
    lemma_pats_view,
    pat_size,
    pat_view,
    pats_size,
    pats_view,
    Pattern,
    Regex,
    SpecPattern,
};

verus! {

/// Whether the program `ps` matches a prefix of the subject `s`.
///
/// A quantifier tries every repetition count its inner element allows;
/// alternation tries each branch concatenated with the remaining
/// program; an end anchor in final position demands an empty rest of
/// the subject, and anywhere else it is an element that can never be
/// satisfied, as is a start anchor met here.
pub open spec fn spec_match_here(s: Seq<char>, ps: Seq<SpecPattern>) -> bool
    decreases pats_size(ps),
{
    if ps.len() == 0 {
        true
    } else {
        let p = ps[0];
        let rest = ps.subrange(1, ps.len() as int);
        proof {
            lemma_pats_size_first(ps);
            lemma_pat_size_pos(ps[0]);
        }
        match p {
            SpecPattern::OneOrMore(inner) => exists|k: int|
                1 <= k <= s.len() && (forall|j: int| 0 <= j < k ==> char_match(*inner, s[j]))
                    && spec_match_here(s.subrange(k, s.len() as int), rest),
            SpecPattern::ZeroOrOne(inner) => spec_match_here(s, rest) || (s.len() > 0
                && char_match(*inner, s[0]) && spec_match_here(
                s.subrange(1, s.len() as int),
                rest,
            )),
            SpecPattern::Alternation(bs) => {
                proof {
                    assert forall|i: int| 0 <= i < bs.len() implies pats_size(bs[i] + rest)
                        < pats_size(ps) by {
                        lemma_pats_size_concat(bs[i], rest);
                        lemma_branch_size_le(bs, i);
                    }
                }
                exists|i: int| 0 <= i < bs.len() && spec_match_here(s, bs[i] + rest)
            },
            SpecPattern::End => rest.len() == 0 && s.len() == 0,
            _ => s.len() > 0 && char_match(p, s[0]) && spec_match_here(
                s.subrange(1, s.len() as int),
                rest,
            ),
        }
    }
}

/// Whether the program `ps` matches the subject `s` in full, to its
/// last character: the same relation as `spec_match_here`, except that
/// an exhausted program demands an exhausted subject.
pub open spec fn spec_match_to_end(s: Seq<char>, ps: Seq<SpecPattern>) -> bool
    decreases pats_size(ps),
{
    if ps.len() == 0 {
        s.len() == 0
    } else {
        let p = ps[0];
        let rest = ps.subrange(1, ps.len() as int);
        proof {
            lemma_pats_size_first(ps);
            lemma_pat_size_pos(ps[0]);
        }
        match p {
            SpecPattern::OneOrMore(inner) => exists|k: int|
                1 <= k <= s.len() && (forall|j: int| 0 <= j < k ==> char_match(*inner, s[j]))
                    && spec_match_to_end(s.subrange(k, s.len() as int), rest),
            SpecPattern::ZeroOrOne(inner) => spec_match_to_end(s, rest) || (s.len() > 0
                && char_match(*inner, s[0]) && spec_match_to_end(
                s.subrange(1, s.len() as int),
                rest,
            )),
            SpecPattern::Alternation(bs) => {
                proof {
                    assert forall|i: int| 0 <= i < bs.len() implies pats_size(bs[i] + rest)
                        < pats_size(ps) by {
                        lemma_pats_size_concat(bs[i], rest);
                        lemma_branch_size_le(bs, i);
                    }
                }
                exists|i: int| 0 <= i < bs.len() && spec_match_to_end(s, bs[i] + rest)
            },
            SpecPattern::End => rest.len() == 0 && s.len() == 0,
            _ => s.len() > 0 && char_match(p, s[0]) && spec_match_to_end(
                s.subrange(1, s.len() as int),
                rest,
            ),
        }
    }
}

/// Whether the subject `s` contains a match for the program `ps`: at
/// offset zero only when the program opens with a start anchor, and
/// otherwise at any offset, the empty suffix included.
pub open spec fn spec_search(s: Seq<char>, ps: Seq<SpecPattern>) -> bool {
    if ps.len() > 0 && ps[0] == SpecPattern::Start {
        spec_match_here(s, ps.subrange(1, ps.len() as int))
    } else {
        exists|off: int|
            0 <= off <= s.len() && spec_match_here(s.subrange(off, s.len() as int), ps)
    }
}

/// The whole engine: compile the pattern, validate the subject, and
/// search.
pub open spec fn spec_match_pattern(line: Seq<char>, pattern: Seq<char>) -> Result<
    bool,
    RegexError,
> {
    match spec_regex_parse(pattern) {
        Err(e) => Err(e),
        Ok(ps) => if !is_ascii_chars(line) {
            Err(RegexError::NonAsciiSubject)
        } else {
            Ok(spec_search(line, ps))
        },
    }
}

/// The model of the tail of a program is the tail of its model.
proof fn lemma_tail_view(ps: Seq<Pattern>)
    requires
        ps.len() > 0,
    ensures
        pats_view(ps).subrange(1, pats_view(ps).len() as int) == pats_view(
            ps.subrange(1, ps.len() as int),
        ),
{
    lemma_pats_view(ps);
    lemma_pats_view(ps.subrange(1, ps.len() as int));
    assert(pats_view(ps).subrange(1, pats_view(ps).len() as int) =~= pats_view(
        ps.subrange(1, ps.len() as int),
    ));
}

/// The concatenation of a copy of `branch` and a copy of `rest`.
fn concat_patterns(branch: &Vec<Pattern>, rest: &[Pattern]) -> (r: Vec<Pattern>)
    ensures
        pats_view(r@) == pats_view(branch@) + pats_view(rest@),
{
    let mut out: Vec<Pattern> = Vec::new();
    let mut i: usize = 0;
    while i < branch.len()
        invariant
            0 <= i <= branch@.len(),
            out@.len() == i,
            forall|k: int| 0 <= k < i ==> out@[k]@ == branch@[k]@,
        decreases branch@.len() - i,
    {
        let p = branch[i].duplicate();
        out.push(p);
        i = i + 1;
    }
    let mut j: usize = 0;
    while j < rest.len()
        invariant
            0 <= j <= rest@.len(),
            out@.len() == branch@.len() + j,
            forall|k: int| 0 <= k < branch@.len() ==> out@[k]@ == branch@[k]@,
            forall|k: int| 0 <= k < j ==> out@[branch@.len() + k]@ == rest@[k]@,
        decreases rest@.len() - j,
    {
        let p = rest[j].duplicate();
        out.push(p);
        j = j + 1;
    }
    proof {
        lemma_pats_view(out@);
        lemma_pats_view(branch@);
        lemma_pats_view(rest@);
        assert(pats_view(out@) =~= pats_view(branch@) + pats_view(rest@));
    }
    out
}

impl Regex {
    /// Whether the subject line contains a match for this program.
    /// The only error is a non-ASCII subject; an ASCII subject always
    /// yields a boolean.
    pub fn matches(&self, input: &str) -> (r: Result<bool, RegexError>)
        ensures
            match r {
                Ok(b) => is_ascii_chars(input@) && b == spec_search(input@, self@),
                Err(e) => e == RegexError::NonAsciiSubject && !is_ascii_chars(input@),
            },
    {
        if !input.is_ascii() {
            return Err(RegexError::NonAsciiSubject);
        }
        Ok(self.match_(input, self.patterns.as_slice()))
    }

    /// The top-level search: at offset zero only for a program that
    /// opens with a start anchor, and otherwise at every offset in
    /// increasing order, the empty suffix included.
    pub fn match_(&self, input: &str, patterns: &[Pattern]) -> (r: bool)
        requires
            input.is_ascii(),
        ensures
            r == spec_search(input@, pats_view(patterns@)),
    {
        proof {
            lemma_pats_view(patterns@);
        }
        let anchored = match patterns.first() {
            Some(Pattern::Start) => true,
            _ => false,
        };
        if anchored {
            proof {
                lemma_tail_view(patterns@);
            }
            return self.match_here(input, &patterns[1..patterns.len()]);
        }
        let n = input.unicode_len();
        let mut off: usize = 0;
        while off < n
            invariant
                input.is_ascii(),
                n == input@.len(),
                0 <= off <= n,
                patterns@.len() > 0 ==> pat_view(patterns@[0]) != SpecPattern::Start,
                pats_view(patterns@).len() == patterns@.len(),
                forall|i: int| 0 <= i < patterns@.len() ==> pats_view(patterns@)[i] == pat_view(
                    patterns@[i],
                ),
                forall|o: int| 0 <= o < off ==> !spec_match_here(
                    input@.subrange(o, n as int),
                    pats_view(patterns@),
                ),
            decreases n - off,
        {
            if self.match_here(input.substring_ascii(off, n), patterns) {
                return true;
            }
            off = off + 1;
        }
        if self.match_here(input.substring_ascii(n, n), patterns) {
            return true;
        }
        false
    }

    /// One step of the recursive search, at the current subject
    /// position and element index.
    pub fn match_here(&self, input: &str, patterns: &[Pattern]) -> (r: bool)
        requires
            input.is_ascii(),
        ensures
            r == spec_match_here(input@, pats_view(patterns@)),
        decreases pats_size(pats_view(patterns@)), 0nat,
    {
        proof {
            lemma_pats_view(patterns@);
            if patterns@.len() > 0 {
                lemma_tail_view(patterns@);
                lemma_pats_size_first(pats_view(patterns@));
                lemma_pat_size_pos(pats_view(patterns@)[0]);
            }
        }
        let ghost s = input@;
        let ghost spv = pats_view(patterns@);
        let ghost rest = spv.subrange(1, spv.len() as int);
        match patterns.first() {
            None => true,
            Some(pattern) => {
                let next = &patterns[1..patterns.len()];
                proof {
                    assert(pats_view(next@) == rest);
                }
                proof {
                    assert(seq![spv[0]] + rest =~= spv);
                }
                match pattern {
                    Pattern::OneOrMore(inner_pattern) => {
                        let r = self.match_one_or_more(input, &**inner_pattern, next);
                        proof {
                            let iv = pat_view(**inner_pattern);
                            assert(spv[0] == SpecPattern::OneOrMore(Box::new(iv)));
                            assert(seq![SpecPattern::OneOrMore(Box::new(iv))] + pats_view(next@)
                                == spv);
                        }
                        r
                    },
                    Pattern::ZeroOrOne(inner_pattern) => {
                        let r = self.match_zero_or_one(input, &**inner_pattern, next);
                        proof {
                            let iv = pat_view(**inner_pattern);
                            assert(spv[0] == SpecPattern::ZeroOrOne(Box::new(iv)));
                            assert(seq![SpecPattern::ZeroOrOne(Box::new(iv))] + pats_view(next@)
                                == spv);
                        }
                        r
                    },
                    Pattern::Alternation(alternatives) => {
                        let r = self.match_alternatives(input, alternatives.as_slice(), next);
                        proof {
                            let bsv = alts_view(alternatives@);
                            assert(spv[0] == SpecPattern::Alternation(bsv));
                            assert(seq![SpecPattern::Alternation(bsv)] + pats_view(next@) == spv);
                        }
                        r
                    },
                    Pattern::End => if patterns.len() == 1 {
                        input.is_empty()
                    } else {
                        false
                    },
                    _ => {
                        if !input.is_empty() {
                            let ch = input.get_char(0);
                            if pattern.matches(ch) {
                                let n = input.unicode_len();
                                self.match_here(input.substring_ascii(1, n), next)
                            } else {
                                false
                            }
                        } else {
                            false
                        }
                    },
                }
            },
        }
    }

    /// Greedily consume characters accepted by the inner element, and
    /// after each one try the rest of the program, shortest run first.
    pub fn match_one_or_more(
        &self,
        input: &str,
        inner_pattern: &Pattern,
        next_patterns: &[Pattern],
    ) -> (r: bool)
        requires
            input.is_ascii(),
        ensures
            r == spec_match_here(
                input@,
                seq![SpecPattern::OneOrMore(Box::new(inner_pattern@))] + pats_view(next_patterns@),
            ),
        decreases pat_size(inner_pattern@) + pats_size(pats_view(next_patterns@)), 1nat,
    {
        let ghost s = input@;
        let ghost iv = inner_pattern@;
        let ghost pv = pats_view(next_patterns@);
        let ghost ps2 = seq![SpecPattern::OneOrMore(Box::new(iv))] + pv;
        proof {
            lemma_pat_size_pos(iv);
            assert(ps2[0] == SpecPattern::OneOrMore(Box::new(iv)));
            assert(ps2.subrange(1, ps2.len() as int) =~= pv);
        }
        let n = input.unicode_len();
        let mut k: usize = 0;
        while k < n
            invariant
                input.is_ascii(),
                n == s.len(),
                s == input@,
                iv == inner_pattern@,
                pv == pats_view(next_patterns@),
                ps2 == seq![SpecPattern::OneOrMore(Box::new(iv))] + pv,
                ps2.subrange(1, ps2.len() as int) == pv,
                0 <= k <= n,
                forall|j: int| 0 <= j < k ==> char_match(iv, s[j]),
                forall|kk: int| 1 <= kk <= k ==> !spec_match_here(s.subrange(kk, n as int), pv),
            decreases n - k,
        {
            if !inner_pattern.matches(input.get_char(k)) {
                proof {
                    let rest2 = ps2.subrange(1, ps2.len() as int);
                    assert(ps2[0] == SpecPattern::OneOrMore(Box::new(iv)));
                    match ps2[0] {
                        SpecPattern::OneOrMore(b2) => {
                            assert(*b2 == iv);
                            assert forall|kp: int|
                                1 <= kp <= s.len() implies !((forall|j: int|
                                0 <= j < kp ==> char_match(*b2, s[j])) && spec_match_here(
                                s.subrange(kp, s.len() as int),
                                rest2,
                            )) by {
                                if kp > k {
                                    assert(!char_match(*b2, s[k as int]));
                                } else {
                                    assert(!spec_match_here(s.subrange(kp, s.len() as int), pv));
                                }
                            }
                            assert(!(exists|kk: int|
                                1 <= kk <= s.len() && (forall|j: int|
                                    0 <= j < kk ==> char_match(*b2, s[j])) && spec_match_here(
                                    s.subrange(kk, s.len() as int),
                                    rest2,
                                )));
                        },
                        _ => {},
                    }
                    assert(!spec_match_here(s, ps2));
                }
                return false;
            }
            k = k + 1;
            if self.match_here(input.substring_ascii(k, n), next_patterns) {
                proof {
                    let kw = k as int;
                    let rest2 = ps2.subrange(1, ps2.len() as int);
                    assert(ps2[0] == SpecPattern::OneOrMore(Box::new(iv)));
                    match ps2[0] {
                        SpecPattern::OneOrMore(b2) => {
                            assert(*b2 == iv);
                            assert(1 <= kw <= s.len() && (forall|j: int|
                                0 <= j < kw ==> char_match(*b2, s[j])) && spec_match_here(
                                s.subrange(kw, s.len() as int),
                                rest2,
                            ));
                            assert(exists|kk: int|
                                1 <= kk <= s.len() && (forall|j: int|
                                    0 <= j < kk ==> char_match(*b2, s[j])) && spec_match_here(
                                    s.subrange(kk, s.len() as int),
                                    rest2,
                                ));
                        },
                        _ => {},
                    }
                    assert(spec_match_here(s, ps2));
                }
                return true;
            }
        }
        proof {
            let rest2 = ps2.subrange(1, ps2.len() as int);
            assert(ps2[0] == SpecPattern::OneOrMore(Box::new(iv)));
            match ps2[0] {
                SpecPattern::OneOrMore(b2) => {
                    assert(*b2 == iv);
                    assert forall|kp: int|
                        1 <= kp <= s.len() implies !((forall|j: int|
                        0 <= j < kp ==> char_match(*b2, s[j])) && spec_match_here(
                        s.subrange(kp, s.len() as int),
                        rest2,
                    )) by {
                        assert(!spec_match_here(s.subrange(kp, s.len() as int), pv));
                    }
                    assert(!(exists|kk: int|
                        1 <= kk <= s.len() && (forall|j: int|
                            0 <= j < kk ==> char_match(*b2, s[j])) && spec_match_here(
                            s.subrange(kk, s.len() as int),
                            rest2,
                        )));
                },
                _ => {},
            }
            assert(!spec_match_here(s, ps2));
        }
        false
    }

    /// Try the rest of the program without consuming input; only if
    /// that fails, consume one accepted character and try again.
    pub fn match_zero_or_one(
        &self,
        input: &str,
        inner_pattern: &Pattern,
        next_patterns: &[Pattern],
    ) -> (r: bool)
        requires
            input.is_ascii(),
        ensures
            r == spec_match_here(
                input@,
                seq![SpecPattern::ZeroOrOne(Box::new(inner_pattern@))] + pats_view(next_patterns@),
            ),
        decreases pat_size(inner_pattern@) + pats_size(pats_view(next_patterns@)), 1nat,
    {
        let ghost s = input@;
        let ghost iv = inner_pattern@;
        let ghost pv = pats_view(next_patterns@);
        let ghost ps2 = seq![SpecPattern::ZeroOrOne(Box::new(iv))] + pv;
        proof {
            lemma_pat_size_pos(iv);
            assert(ps2[0] == SpecPattern::ZeroOrOne(Box::new(iv)));
            assert(ps2.subrange(1, ps2.len() as int) =~= pv);
        }
        if self.match_here(input, next_patterns) {
            return true;
        }
        if !input.is_empty() {
            let ch = input.get_char(0);
            if inner_pattern.matches(ch) {
                let n = input.unicode_len();
                return self.match_here(input.substring_ascii(1, n), next_patterns);
            }
        }
        false
    }

    /// Try each branch in declaration order, concatenated with the
    /// rest of the program; the first branch that succeeds wins.
    pub fn match_alternatives(
        &self,
        input: &str,
        alternatives: &[Vec<Pattern>],
        next_patterns: &[Pattern],
    ) -> (r: bool)
        requires
            input.is_ascii(),
        ensures
            r == spec_match_here(
                input@,
                seq![SpecPattern::Alternation(alts_view(alternatives@))] + pats_view(
                    next_patterns@,
                ),
            ),
        decreases alts_size_of(alternatives@) + pats_size(pats_view(next_patterns@)), 1nat,
    {
        let ghost s = input@;
        let ghost bsv = alts_view(alternatives@);
        let ghost pv = pats_view(next_patterns@);
        let ghost ps2 = seq![SpecPattern::Alternation(bsv)] + pv;
        proof {
            lemma_alts_view(alternatives@);
            assert(ps2[0] == SpecPattern::Alternation(bsv));
            assert(ps2.subrange(1, ps2.len() as int) =~= pv);
        }
        let mut i: usize = 0;
        while i < alternatives.len()
            invariant
                input.is_ascii(),
                s == input@,
                bsv == alts_view(alternatives@),
                pv == pats_view(next_patterns@),
                ps2 == seq![SpecPattern::Alternation(bsv)] + pv,
                ps2.subrange(1, ps2.len() as int) == pv,
                bsv.len() == alternatives@.len(),
                forall|ii: int| 0 <= ii < alternatives@.len() ==> bsv[ii] == pats_view(
                    alternatives@[ii]@,
                ),
                0 <= i <= alternatives@.len(),
                forall|ii: int| 0 <= ii < i ==> !spec_match_here(s, bsv[ii] + pv),
            decreases alternatives@.len() - i,
        {
            let combined = concat_patterns(&alternatives[i], next_patterns);
            proof {
                lemma_pats_size_concat(bsv[i as int], pv);
                lemma_branch_size_le(bsv, i as int);
                assert(pats_view(combined@) == bsv[i as int] + pv);
            }
            if self.match_here(input, combined.as_slice()) {
                proof {
                    let iw = i as int;
                    let rest2 = ps2.subrange(1, ps2.len() as int);
                    assert(ps2[0] == SpecPattern::Alternation(bsv));
                    match ps2[0] {
                        SpecPattern::Alternation(b2) => {
                            assert(b2 == bsv);
                            assert(0 <= iw < b2.len() && spec_match_here(s, b2[iw] + rest2));
                            assert(exists|ii: int|
                                0 <= ii < b2.len() && spec_match_here(s, b2[ii] + rest2));
                        },
                        _ => {},
                    }
                    assert(spec_match_here(s, ps2));
                }
                return true;
            }
            i = i + 1;
        }
        proof {
            let rest2 = ps2.subrange(1, ps2.len() as int);
            assert(ps2[0] == SpecPattern::Alternation(bsv));
            match ps2[0] {
                SpecPattern::Alternation(b2) => {
                    assert(b2 == bsv);
                    assert forall|ii: int| 0 <= ii < b2.len() implies !spec_match_here(
                        s,
                        b2[ii] + rest2,
                    ) by {
                        assert(!spec_match_here(s, bsv[ii] + pv));
                    }
                    assert(!(exists|ii: int|
                        0 <= ii < b2.len() && spec_match_here(s, b2[ii] + rest2)));
                },
                _ => {},
            }
            assert(!spec_match_here(s, ps2));
        }
        false
    }
}

/// The size of a branch list, spelled over the exec list.
pub open spec fn alts_size_of(alternatives: Seq<Vec<Pattern>>) -> nat {
    crate::pattern::alts_size(alts_view(alternatives))
}

/// The whole engine as one call: compile the pattern, validate the
/// subject, and search.
pub fn match_pattern(input_line: &str, regex_str: &str) -> (r: Result<bool, RegexError>)
    ensures
        r == spec_match_pattern(input_line@, regex_str@),
{
    match Regex::parse(regex_str) {
        Err(e) => Err(e),
        Ok(regex) => regex.matches(input_line),
    }
}

} // verus!
