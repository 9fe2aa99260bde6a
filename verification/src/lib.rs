//! A minimal regular-expression engine for single lines of ASCII text.
//!
//! A pattern is compiled into a `Regex`, an ordered program of pattern
//! elements (literals, character classes, bracket sets, anchors, the
//! wildcard, `+`/`?` quantifiers and single-level alternation).  A
//! backtracking matcher then decides whether a subject line contains a
//! match for the program.  Every function is specified against a
//! mathematical model of the grammar and of the matching relation, and
//! verified with Verus.

pub mod laws;
pub mod matching;
pub mod parse;
pub mod pattern;

pub use matching::match_pattern;
pub use parse::RegexError;
pub use pattern::Pattern;
pub use pattern::Regex;
pub use pattern::SpecPattern;
