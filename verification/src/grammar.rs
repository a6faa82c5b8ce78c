//! The grammar of the expression language.
//!
//! ```text
//! expr    := not | and | or | pattern
//! not     := "NOT(" expr ")"
//! and     := "AND(" expr ("," expr)* ")"
//! or      := "OR("  expr ("," expr)* ")"
//! pattern := any run of characters other than ')' and ','
//! ```
//!
//! The alternatives of `expr` are tried in this order and the first that
//! matches is taken. A pattern matches everywhere, the empty run too, so a
//! text that begins with `NOT(`, `AND(` or `OR(` is read as a pattern only
//! where the bracketed form does not match, and a list always has at least
//! one expression.

use crate::expression_parser::regex_compiles;
use crate::expression_parser::Formula;
use vstd::prelude::*;

verus! {

/// What an attempt at one of the three bracketed productions yields.
pub enum Attempt {
    /// The production matched: its formula, and the position after it.
    Parsed(Formula, int),
    /// The production does not match here, and the next alternative is tried.
    Mismatch,
    /// A regular expression inside the production was not accepted.
    Invalid,
}

/// The opening word of a negation.
pub open spec fn not_word() -> Seq<char> {
    seq!['N', 'O', 'T', '(']
}

/// The opening word of a conjunction.
pub open spec fn and_word() -> Seq<char> {
    seq!['A', 'N', 'D', '(']
}

/// The opening word of a disjunction.
pub open spec fn or_word() -> Seq<char> {
    seq!['O', 'R', '(']
}

/// Whether `word` stands in `s` at position `at`.
pub open spec fn has_word(s: Seq<char>, at: int, word: Seq<char>) -> bool {
    &&& 0 <= at
    &&& at + word.len() <= s.len()
    &&& s.subrange(at, at + word.len()) == word
}

/// Whether a closing bracket stands in `s` at position `at`.
pub open spec fn closes(s: Seq<char>, at: int) -> bool {
    0 <= at < s.len() && s[at] == ')'
}

/// Whether a comma stands in `s` at position `at`.
pub open spec fn separates(s: Seq<char>, at: int) -> bool {
    0 <= at < s.len() && s[at] == ','
}

/// The end of the pattern that starts at `at`: the first position from
/// there on that holds `)` or `,`, or the end of `s`.
pub open spec fn pattern_end(s: Seq<char>, at: int) -> int
    decreases s.len() - at,
{
    if at < 0 || at >= s.len() || s[at] == ')' || s[at] == ',' {
        at
    } else {
        pattern_end(s, at + 1)
    }
}

/// The pattern production: the run of characters up to the next `)` or `,`,
/// taken as a regular expression. It matches everywhere, so the only way to
/// fail is a text that is not accepted as a regular expression.
pub open spec fn parse_pattern(s: Seq<char>, at: int) -> Option<(Formula, int)> {
    let end = pattern_end(s, at);
    let text = s.subrange(at, end);
    if regex_compiles(text) {
        Some((Formula::Pattern(text), end))
    } else {
        None
    }
}

/// The expression that starts at `at`, with the position after it: the first
/// of negation, conjunction, disjunction and pattern that matches. `None`
/// when a regular expression met on the way was not accepted.
pub open spec fn parse_expr(s: Seq<char>, at: int) -> Option<(Formula, int)>
    decreases s.len() - at, 1int,
{
    match parse_not(s, at) {
        Attempt::Parsed(formula, next) => Some((formula, next)),
        Attempt::Invalid => None,
        Attempt::Mismatch => match parse_and(s, at) {
            Attempt::Parsed(formula, next) => Some((formula, next)),
            Attempt::Invalid => None,
            Attempt::Mismatch => match parse_or(s, at) {
                Attempt::Parsed(formula, next) => Some((formula, next)),
                Attempt::Invalid => None,
                Attempt::Mismatch => parse_pattern(s, at),
            },
        },
    }
}

/// The production `NOT(` expression `)`.
pub open spec fn parse_not(s: Seq<char>, at: int) -> Attempt
    decreases s.len() - at, 0int,
{
    if !has_word(s, at, not_word()) {
        Attempt::Mismatch
    } else {
        match parse_expr(s, at + 4) {
            None => Attempt::Invalid,
            Some((inner, next)) => if closes(s, next) {
                Attempt::Parsed(Formula::Not(Box::new(inner)), next + 1)
            } else {
                Attempt::Mismatch
            },
        }
    }
}

/// The production `AND(` list `)`.
pub open spec fn parse_and(s: Seq<char>, at: int) -> Attempt
    decreases s.len() - at, 0int,
{
    if !has_word(s, at, and_word()) {
        Attempt::Mismatch
    } else {
        match parse_list(s, at + 4, Seq::empty()) {
            None => Attempt::Invalid,
            Some((parts, next)) => if closes(s, next) {
                Attempt::Parsed(Formula::And(parts), next + 1)
            } else {
                Attempt::Mismatch
            },
        }
    }
}

/// The production `OR(` list `)`.
pub open spec fn parse_or(s: Seq<char>, at: int) -> Attempt
    decreases s.len() - at, 0int,
{
    if !has_word(s, at, or_word()) {
        Attempt::Mismatch
    } else {
        match parse_list(s, at + 3, Seq::empty()) {
            None => Attempt::Invalid,
            Some((parts, next)) => if closes(s, next) {
                Attempt::Parsed(Formula::Or(parts), next + 1)
            } else {
                Attempt::Mismatch
            },
        }
    }
}

/// A list of expressions with commas between them, read from `at` on and
/// added to `before`. An expression is read first and after each comma; the
/// list ends at the first position after an expression that holds no comma.
pub open spec fn parse_list(s: Seq<char>, at: int, before: Seq<Formula>) -> Option<
    (Seq<Formula>, int),
>
    decreases s.len() - at, 2int,
{
    match parse_expr(s, at) {
        None => None,
        Some((formula, next)) => if at <= next && separates(s, next) {
            parse_list(s, next + 1, before.push(formula))
        } else {
            Some((before.push(formula), next))
        },
    }
}

/// The formula that the text `s` stands for: the expression at its start.
/// What follows that expression is not looked at. `None` when a regular
/// expression met on the way was not accepted.
pub open spec fn parsed(s: Seq<char>) -> Option<Formula> {
    match parse_expr(s, 0) {
        Some((formula, _)) => Some(formula),
        None => None,
    }
}

/// An expression ends at or behind the position where it starts, and within
/// the text.
pub proof fn lemma_parse_moves_on(s: Seq<char>, at: int)
    requires
        0 <= at <= s.len(),
    ensures
        parse_expr(s, at) matches Some((_, next)) ==> at <= next <= s.len(),
        parse_not(s, at) matches Attempt::Parsed(_, next) ==> at <= next <= s.len(),
        parse_and(s, at) matches Attempt::Parsed(_, next) ==> at <= next <= s.len(),
        parse_or(s, at) matches Attempt::Parsed(_, next) ==> at <= next <= s.len(),
    decreases s.len() - at, 0int,
{
    lemma_pattern_end_bounds(s, at);
    if has_word(s, at, not_word()) {
        lemma_parse_moves_on(s, at + 4);
    }
    if has_word(s, at, and_word()) {
        lemma_list_moves_on(s, at + 4, Seq::empty());
    }
    if has_word(s, at, or_word()) {
        lemma_list_moves_on(s, at + 3, Seq::empty());
    }
}

/// A list ends at or behind the position where it starts, and within the
/// text. So the test in `parse_list` that an expression does not end before
/// its start always holds.
pub proof fn lemma_list_moves_on(s: Seq<char>, at: int, before: Seq<Formula>)
    requires
        0 <= at <= s.len(),
    ensures
        parse_list(s, at, before) matches Some((_, next)) ==> at <= next <= s.len(),
    decreases s.len() - at, 1int,
{
    lemma_parse_moves_on(s, at);
    match parse_expr(s, at) {
        None => {},
        Some((formula, next)) => {
            if separates(s, next) {
                lemma_list_moves_on(s, next + 1, before.push(formula));
            }
        },
    }
}

/// A pattern ends at or behind the position where it starts, and within the
/// text.
pub proof fn lemma_pattern_end_bounds(s: Seq<char>, at: int)
    requires
        0 <= at <= s.len(),
    ensures
        at <= pattern_end(s, at) <= s.len(),
    decreases s.len() - at,
{
    if !(at >= s.len() || s[at] == ')' || s[at] == ',') {
        lemma_pattern_end_bounds(s, at + 1);
    }
}

} // verus!
