//! The compiled representation of a pattern, and its mathematical model.

use vstd::prelude::*;

verus! {

/// One unit of compiled pattern syntax.
///
/// A quantifier's inner element is the single atom that preceded the
/// quantifier in the source text; alternation branches are independently
/// compiled flat sub-programs.
#[derive(Debug, PartialEq)]
pub enum Pattern {
    /// Matches exactly one given character.
    Character(char),
    /// Matches one ASCII digit.
    Digit,
    /// Matches one ASCII alphanumeric character.
    Alphanumeric,
    /// Matches one character that occurs in the set.
    PositiveGroup(String),
    /// Matches one character that does not occur in the set.
    NegativeGroup(String),
    /// Matches only at the start of the subject.
    Start,
    /// Matches only at the end of the subject.
    End,
    /// One or more repetitions of the inner element.
    OneOrMore(Box<Pattern>),
    /// Zero or one repetition of the inner element.
    ZeroOrOne(Box<Pattern>),
    /// Matches any one character.
    Wildcard,
    /// An ordered list of alternative branches.
    Alternation(Vec<Vec<Pattern>>),
}

/// The mathematical model of a pattern element: the same shape as
/// `Pattern`, with text as character sequences.
pub enum SpecPattern {
    Character(char),
    Digit,
    Alphanumeric,
    PositiveGroup(Seq<char>),
    NegativeGroup(Seq<char>),
    Start,
    End,
    OneOrMore(Box<SpecPattern>),
    ZeroOrOne(Box<SpecPattern>),
    Wildcard,
    Alternation(Seq<Seq<SpecPattern>>),
}

/// The model of one pattern element.
pub open spec fn pat_view(p: Pattern) -> SpecPattern
    decreases p,
{
    match p {
        Pattern::Character(c) => SpecPattern::Character(c),
        Pattern::Digit => SpecPattern::Digit,
        Pattern::Alphanumeric => SpecPattern::Alphanumeric,
        Pattern::PositiveGroup(s) => SpecPattern::PositiveGroup(s@),
        Pattern::NegativeGroup(s) => SpecPattern::NegativeGroup(s@),
        Pattern::Start => SpecPattern::Start,
        Pattern::End => SpecPattern::End,
        Pattern::OneOrMore(inner) => SpecPattern::OneOrMore(Box::new(pat_view(*inner))),
        Pattern::ZeroOrOne(inner) => SpecPattern::ZeroOrOne(Box::new(pat_view(*inner))),
        Pattern::Wildcard => SpecPattern::Wildcard,
        Pattern::Alternation(bs) => SpecPattern::Alternation(alts_view(bs@)),
    }
}

/// The model of a sequence of pattern elements.
pub open spec fn pats_view(ps: Seq<Pattern>) -> Seq<SpecPattern>
    decreases ps,
{
    if ps.len() == 0 {
        Seq::empty()
    } else {
        seq![pat_view(ps[0])] + pats_view(ps.subrange(1, ps.len() as int))
    }
}

/// The model of a list of alternation branches.
pub open spec fn alts_view(bs: Seq<Vec<Pattern>>) -> Seq<Seq<SpecPattern>>
    decreases bs,
{
    if bs.len() == 0 {
        Seq::empty()
    } else {
        seq![pats_view(bs[0]@)] + alts_view(bs.subrange(1, bs.len() as int))
    }
}

/// The size of one pattern element: a termination measure for
/// functions that recurse over programs, strictly larger than the size
/// of any alternation branch inside the element.
pub open spec fn pat_size(p: SpecPattern) -> nat
    decreases p,
{
    match p {
        SpecPattern::OneOrMore(inner) => 1 + pat_size(*inner),
        SpecPattern::ZeroOrOne(inner) => 1 + pat_size(*inner),
        SpecPattern::Alternation(bs) => 1 + alts_size(bs),
        _ => 1,
    }
}

/// The total size of a sequence of pattern elements.
pub open spec fn pats_size(ps: Seq<SpecPattern>) -> nat
    decreases ps,
{
    if ps.len() == 0 {
        0
    } else {
        pat_size(ps[0]) + pats_size(ps.subrange(1, ps.len() as int))
    }
}

/// The total size of a list of alternation branches.
pub open spec fn alts_size(bs: Seq<Seq<SpecPattern>>) -> nat
    decreases bs,
{
    if bs.len() == 0 {
        0
    } else {
        pats_size(bs[0]) + alts_size(bs.subrange(1, bs.len() as int))
    }
}

/// Every pattern element has size at least one.
pub proof fn lemma_pat_size_pos(p: SpecPattern)
    ensures
        pat_size(p) >= 1,
{
}

/// The size of a non-empty program splits at its first element.
pub proof fn lemma_pats_size_first(ps: Seq<SpecPattern>)
    requires
        ps.len() > 0,
    ensures
        pats_size(ps) == pat_size(ps[0]) + pats_size(ps.subrange(1, ps.len() as int)),
{
}

/// Size distributes over concatenation of programs.
pub proof fn lemma_pats_size_concat(a: Seq<SpecPattern>, b: Seq<SpecPattern>)
    ensures
        pats_size(a + b) == pats_size(a) + pats_size(b),
    decreases a.len(),
{
    if a.len() == 0 {
        assert(a + b =~= b);
    } else {
        let t = a.subrange(1, a.len() as int);
        lemma_pats_size_concat(t, b);
        assert((a + b).subrange(1, (a + b).len() as int) =~= t + b);
        assert((a + b)[0] == a[0]);
    }
}

/// Each branch of an alternation is at most as large as the whole list.
pub proof fn lemma_branch_size_le(bs: Seq<Seq<SpecPattern>>, i: int)
    requires
        0 <= i < bs.len(),
    ensures
        pats_size(bs[i]) <= alts_size(bs),
    decreases i,
{
    if i > 0 {
        lemma_branch_size_le(bs.subrange(1, bs.len() as int), i - 1);
    }
}

/// Each element of a program is at most as large as the whole program.
pub proof fn lemma_elem_size_le(ps: Seq<SpecPattern>, i: int)
    requires
        0 <= i < ps.len(),
    ensures
        pat_size(ps[i]) <= pats_size(ps),
    decreases i,
{
    if i > 0 {
        lemma_elem_size_le(ps.subrange(1, ps.len() as int), i - 1);
    }
}

/// Whether `c` is an ASCII digit.
pub open spec fn is_digit_char(c: char) -> bool {
    '0' <= c && c <= '9'
}

/// Whether `c` is an ASCII alphanumeric character.
pub open spec fn is_word_char(c: char) -> bool {
    is_digit_char(c) || ('a' <= c && c <= 'z') || ('A' <= c && c <= 'Z')
}

/// Whether the single-character element `p` accepts the character `c`.
/// Anchors, quantifiers and alternation accept no character here: the
/// matcher gives them their own treatment, and an anchor found
/// mid-stream is an element that can never be satisfied.
pub open spec fn char_match(p: SpecPattern, c: char) -> bool {
    match p {
        SpecPattern::Character(ch) => ch == c,
        SpecPattern::Digit => is_digit_char(c),
        SpecPattern::Alphanumeric => is_word_char(c),
        SpecPattern::PositiveGroup(set) => set.contains(c),
        SpecPattern::NegativeGroup(set) => !set.contains(c),
        SpecPattern::Wildcard => true,
        _ => false,
    }
}

impl View for Pattern {
    type V = SpecPattern;

    open spec fn view(&self) -> SpecPattern {
        pat_view(*self)
    }
}

/// A compiled pattern: an ordered program of pattern elements, matched
/// in sequence against successive subject positions.
#[derive(Debug, PartialEq)]
pub struct Regex {
    pub patterns: Vec<Pattern>,
}

impl View for Regex {
    type V = Seq<SpecPattern>;

    open spec fn view(&self) -> Seq<SpecPattern> {
        pats_view(self.patterns@)
    }
}

/// The model of a program has the program's length and is taken
/// element by element.
pub proof fn lemma_pats_view(ps: Seq<Pattern>)
    ensures
        pats_view(ps).len() == ps.len(),
        forall|i: int| 0 <= i < ps.len() ==> pats_view(ps)[i] == pat_view(ps[i]),
    decreases ps.len(),
{
    if ps.len() > 0 {
        lemma_pats_view(ps.subrange(1, ps.len() as int));
    }
}

/// The model of a branch list has the list's length and is taken
/// branch by branch.
pub proof fn lemma_alts_view(bs: Seq<Vec<Pattern>>)
    ensures
        alts_view(bs).len() == bs.len(),
        forall|i: int| 0 <= i < bs.len() ==> alts_view(bs)[i] == pats_view(bs[i]@),
    decreases bs.len(),
{
    if bs.len() > 0 {
        lemma_alts_view(bs.subrange(1, bs.len() as int));
    }
}

/// Whether the string holds the character, by linear scan.
pub fn str_contains_char(s: &str, ch: char) -> (r: bool)
    ensures
        r == s@.contains(ch),
{
    let n = s.unicode_len();
    let mut i: usize = 0;
    while i < n
        invariant
            n == s@.len(),
            0 <= i <= n,
            forall|j: int| 0 <= j < i ==> s@[j] != ch,
        decreases n - i,
    {
        if s.get_char(i) == ch {
            return true;
        }
        i = i + 1;
    }
    false
}

impl Pattern {
    /// Whether this single-character element accepts `ch`.  Anchors,
    /// quantifiers and alternation accept no character.
    pub fn matches(&self, ch: char) -> (r: bool)
        ensures
            r == char_match(self@, ch),
    {
        match self {
            Pattern::Character(c) => *c == ch,
            Pattern::Digit => '0' <= ch && ch <= '9',
            Pattern::Alphanumeric => ('0' <= ch && ch <= '9') || ('a' <= ch && ch <= 'z') || (
            'A' <= ch && ch <= 'Z'),
            Pattern::PositiveGroup(set) => str_contains_char(set.as_str(), ch),
            Pattern::NegativeGroup(set) => !str_contains_char(set.as_str(), ch),
            Pattern::Wildcard => true,
            _ => false,
        }
    }

    /// A structurally equal copy of this element.
    pub fn duplicate(&self) -> (r: Pattern)
        ensures
            r@ == self@,
        decreases pat_size(self@), 0nat,
    {
        match self {
            Pattern::Character(c) => Pattern::Character(*c),
            Pattern::Digit => Pattern::Digit,
            Pattern::Alphanumeric => Pattern::Alphanumeric,
            Pattern::PositiveGroup(set) => Pattern::PositiveGroup(set.clone()),
            Pattern::NegativeGroup(set) => Pattern::NegativeGroup(set.clone()),
            Pattern::Start => Pattern::Start,
            Pattern::End => Pattern::End,
            Pattern::OneOrMore(inner) => {
                proof {
                    lemma_pat_size_pos(inner@);
                }
                Pattern::OneOrMore(Box::new(inner.duplicate()))
            },
            Pattern::ZeroOrOne(inner) => {
                proof {
                    lemma_pat_size_pos(inner@);
                }
                Pattern::ZeroOrOne(Box::new(inner.duplicate()))
            },
            Pattern::Wildcard => Pattern::Wildcard,
            Pattern::Alternation(bs) => Pattern::Alternation(duplicate_branches(bs)),
        }
    }
}

/// A structurally equal copy of a list of alternation branches.
fn duplicate_branches(bs: &Vec<Vec<Pattern>>) -> (r: Vec<Vec<Pattern>>)
    ensures
        alts_view(r@) == alts_view(bs@),
        r@.len() == bs@.len(),
    decreases alts_size(alts_view(bs@)), 2nat,
{
    let mut out: Vec<Vec<Pattern>> = Vec::new();
    let mut i: usize = 0;
    while i < bs.len()
        invariant
            0 <= i <= bs@.len(),
            out@.len() == i,
            forall|k: int| 0 <= k < i ==> pats_view(out@[k]@) == pats_view(bs@[k]@),
        decreases bs@.len() - i,
    {
        proof {
            lemma_alts_view(bs@);
            lemma_branch_size_le(alts_view(bs@), i as int);
        }
        let branch = duplicate_branch(&bs[i]);
        out.push(branch);
        i = i + 1;
    }
    proof {
        lemma_alts_view(bs@);
        lemma_alts_view(out@);
        assert(alts_view(out@) =~= alts_view(bs@));
    }
    out
}

/// A structurally equal copy of one branch.
fn duplicate_branch(ps: &Vec<Pattern>) -> (r: Vec<Pattern>)
    ensures
        pats_view(r@) == pats_view(ps@),
        r@.len() == ps@.len(),
    decreases pats_size(pats_view(ps@)), 1nat,
{
    let mut out: Vec<Pattern> = Vec::new();
    let mut i: usize = 0;
    while i < ps.len()
        invariant
            0 <= i <= ps@.len(),
            out@.len() == i,
            forall|k: int| 0 <= k < i ==> out@[k]@ == ps@[k]@,
        decreases ps@.len() - i,
    {
        proof {
            lemma_pats_view(ps@);
            lemma_elem_size_le(pats_view(ps@), i as int);
        }
        let p = ps[i].duplicate();
        out.push(p);
        i = i + 1;
    }
    proof {
        lemma_pats_view(ps@);
        lemma_pats_view(out@);
        assert(pats_view(out@) =~= pats_view(ps@));
    }
    out
}

} // verus!
