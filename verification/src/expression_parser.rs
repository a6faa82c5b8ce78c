//! The expression language: `AND(..)`, `OR(..)` and `NOT(..)` over regular
//! expressions.

use crate::grammar::and_word;
use crate::grammar::has_word;
use crate::grammar::not_word;
use crate::grammar::or_word;
use crate::grammar::parse_and;
use crate::grammar::parse_expr;
use crate::grammar::parse_list;
use crate::grammar::parse_not;
use crate::grammar::parse_or;
use crate::grammar::parse_pattern;
use crate::grammar::parsed;
use crate::grammar::pattern_end;
use crate::grammar::Attempt;
use crate::text::chars_of;
use regex::Regex;
use vstd::prelude::*;

verus! {

/// The compiled regular expression of the `regex` crate. Verus sees nothing
/// inside a value of it.
#[verifier::external_type_specification]
#[verifier::external_body]
pub struct ExRegex(Regex);

/// `regex::Regex::clone`, the copy of a compiled regular expression. Nothing
/// is stated of the copy here; `Pattern::clone` keeps it beside the text
/// that the copied one was compiled from.
pub assume_specification[ <regex::Regex as Clone>::clone ](compiled: &regex::Regex) -> (copy:
    regex::Regex)
;

/// Whether `regex::Regex::new` accepts `pattern`.
pub uninterp spec fn regex_compiles(pattern: Seq<char>) -> bool;

/// Whether the regular expression that `regex::Regex::new` builds from
/// `pattern` finds a match somewhere in `text`, as `regex::Regex::is_match`
/// reports it.
pub uninterp spec fn regex_is_match(pattern: Seq<char>, text: Seq<char>) -> bool;

/// A regular expression together with the text it was compiled from.
///
/// The fields are private, and a pattern is made by `Pattern::compile` or
/// copied from one that was, so `compiled` is always what
/// `regex::Regex::new` returned for `source`, or a copy of it.
#[derive(Debug)]
pub struct Pattern {
    source: String,
    compiled: Regex,
}

impl View for Pattern {
    type V = Seq<char>;

    closed spec fn view(&self) -> Seq<char> {
        self.source@
    }
}

impl Clone for Pattern {
    /// A copy of the pattern: the same text with a copy of what it was
    /// compiled to.
    fn clone(&self) -> (copy: Pattern)
        ensures
            copy@ == self@,
    {
        Pattern { source: self.source.clone(), compiled: self.compiled.clone() }
    }
}

impl Pattern {
    /// Calls `regex::Regex::new` on `source`. It returns `Some` exactly when
    /// the crate accepts the text as a regular expression, and the pattern
    /// then stands for that text.
    #[verifier::external_body]
    pub(crate) fn compile(source: &str) -> (compiled: Option<Pattern>)
        ensures
            compiled.is_some() == regex_compiles(source@),
            compiled matches Some(p) ==> p@ == source@,
    {
        match Regex::new(source) {
            Ok(compiled) => Some(Pattern { source: source.to_string(), compiled }),
            Err(_) => None,
        }
    }

    /// The text that the pattern was compiled from.
    pub fn as_str(&self) -> (source: &str)
        ensures
            source@ == self@,
    {
        self.source.as_str()
    }

    /// Calls `regex::Regex::is_match` on what the pattern's text was compiled
    /// to: whether the regular expression matches somewhere in `text`.
    #[verifier::external_body]
    pub(crate) fn is_match(&self, text: &str) -> (found: bool)
        ensures
            found == regex_is_match(self@, text@),
    {
        self.compiled.is_match(text)
    }
}

/// The mathematical model of an expression: a tree whose leaves are the texts
/// of regular expressions.
pub enum Formula {
    /// Holds where each part holds.
    And(Seq<Formula>),
    /// Holds where some part holds.
    Or(Seq<Formula>),
    /// Holds where the part does not.
    Not(Box<Formula>),
    /// Holds where the text, taken as a regular expression, matches.
    Pattern(Seq<char>),
}

impl Formula {
    /// Whether every formula of `parts` holds on `text`.
    pub open spec fn all_hold(parts: Seq<Formula>, text: Seq<char>) -> bool
        decreases parts,
    {
        forall|i: int| 0 <= i < parts.len() ==> (#[trigger] parts[i]).holds(text)
    }

    /// Whether some formula of `parts` holds on `text`.
    pub open spec fn some_holds(parts: Seq<Formula>, text: Seq<char>) -> bool
        decreases parts,
    {
        exists|i: int| 0 <= i < parts.len() && (#[trigger] parts[i]).holds(text)
    }

    /// The truth value of the formula on `text`.
    pub open spec fn holds(self, text: Seq<char>) -> bool
        decreases self,
    {
        match self {
            Formula::And(parts) => Formula::all_hold(parts, text),
            Formula::Or(parts) => Formula::some_holds(parts, text),
            Formula::Not(inner) => !inner.holds(text),
            Formula::Pattern(pattern) => regex_is_match(pattern, text),
        }
    }
}

/// A boolean expression over regular expressions.
#[derive(Debug)]
pub enum Expr {
    /// Holds where each part holds.
    And(Vec<Expr>),
    /// Holds where some part holds.
    Or(Vec<Expr>),
    /// Holds where the part does not.
    Not(Box<Expr>),
    /// Holds where the regular expression matches somewhere in the text.
    Regex(Pattern),
}

impl Expr {
    /// The models of a list of expressions, in order.
    pub open spec fn views(parts: Vec<Expr>) -> Seq<Formula>
        decreases parts,
    {
        Seq::new(
            parts.len() as nat,
            |i: int|
                if 0 <= i < parts.len() {
                    parts[i]@
                } else {
                    Formula::Pattern(Seq::empty())
                },
        )
    }
}

impl View for Expr {
    type V = Formula;

    open spec fn view(&self) -> Formula
        decreases self,
    {
        match self {
            Expr::And(parts) => Formula::And(Expr::views(*parts)),
            Expr::Or(parts) => Formula::Or(Expr::views(*parts)),
            Expr::Not(inner) => Formula::Not(Box::new((**inner)@)),
            Expr::Regex(pattern) => Formula::Pattern(pattern@),
        }
    }
}

impl Clone for Expr {
    /// A copy of the expression: it stands for the same formula.
    fn clone(&self) -> (copy: Expr)
        ensures
            copy@ == self@,
        decreases self,
    {
        match self {
            Expr::And(parts) => Expr::And(Expr::clone_parts(parts)),
            Expr::Or(parts) => Expr::Or(Expr::clone_parts(parts)),
            Expr::Not(inner) => Expr::Not(Box::new((**inner).clone())),
            Expr::Regex(pattern) => Expr::Regex(pattern.clone()),
        }
    }
}

impl Expr {
    /// Copies of `parts`, in order.
    fn clone_parts(parts: &Vec<Expr>) -> (copies: Vec<Expr>)
        ensures
            Expr::views(copies) == Expr::views(*parts),
        decreases parts,
    {
        let mut copies: Vec<Expr> = Vec::new();
        let mut i: usize = 0;
        while i < parts.len()
            invariant
                i <= parts.len(),
                copies.len() == i,
                forall|j: int| 0 <= j < i ==> (#[trigger] copies[j])@ == parts[j]@,
            decreases parts.len() - i,
        {
            assert(decreases_to!(*parts => parts[i as int]));
            copies.push(parts[i].clone());
            i += 1;
        }
        assert(Expr::views(copies) =~= Expr::views(*parts));
        copies
    }

    /// The expression that holds where `source`, taken as a regular
    /// expression, matches somewhere in the text. `None` where `source` is
    /// not accepted as a regular expression.
    pub fn pattern(source: &str) -> (expr: Option<Expr>)
        ensures
            match expr {
                Some(expr) => regex_compiles(source@) && expr@ == Formula::Pattern(source@),
                None => !regex_compiles(source@),
            },
    {
        match Pattern::compile(source) {
            Some(pattern) => Some(Expr::Regex(pattern)),
            None => None,
        }
    }
}

/// An expression text that was not accepted.
#[derive(Debug)]
pub struct ParseError {
    /// The text that was given.
    pub expression: String,
}

/// A conjunction without parts holds on every text.
pub proof fn law_empty_and_holds(text: Seq<char>)
    ensures
        Formula::And(Seq::empty()).holds(text),
{
    assert(Formula::all_hold(Seq::empty(), text));
}

/// A disjunction without parts holds on no text.
pub proof fn law_empty_or_fails(text: Seq<char>)
    ensures
        !Formula::Or(Seq::empty()).holds(text),
{
    assert(!Formula::some_holds(Seq::empty(), text));
}

impl Expr {
    /// A conjunction holds on a text exactly when each of its parts does.
    pub proof fn lemma_and_holds(parts: Vec<Expr>, text: Seq<char>)
        ensures
            Expr::And(parts)@.holds(text) <==> forall|j: int|
                0 <= j < parts.len() ==> (#[trigger] parts[j])@.holds(text),
    {
        let models = Expr::views(parts);
        assert(Expr::And(parts)@ == Formula::And(models));
        assert(Formula::And(models).holds(text) == Formula::all_hold(models, text));
        assert(models.len() == parts.len());
        if Formula::all_hold(models, text) {
            assert forall|j: int| 0 <= j < parts.len() implies (#[trigger] parts[j])@.holds(
                text,
            ) by {
                assert(models[j].holds(text));
            }
        }
        if forall|j: int| 0 <= j < parts.len() ==> (#[trigger] parts[j])@.holds(text) {
            assert forall|j: int| 0 <= j < models.len() implies (#[trigger] models[j]).holds(
                text,
            ) by {
                assert(parts[j]@.holds(text));
            }
        }
    }

    /// A disjunction holds on a text exactly when one of its parts does.
    pub proof fn lemma_or_holds(parts: Vec<Expr>, text: Seq<char>)
        ensures
            Expr::Or(parts)@.holds(text) <==> exists|j: int|
                0 <= j < parts.len() && (#[trigger] parts[j])@.holds(text),
    {
        let models = Expr::views(parts);
        assert(Expr::Or(parts)@ == Formula::Or(models));
        assert(Formula::Or(models).holds(text) == Formula::some_holds(models, text));
        assert(models.len() == parts.len());
        if Formula::some_holds(models, text) {
            let j = choose|j: int| 0 <= j < models.len() && (#[trigger] models[j]).holds(text);
            assert(parts[j]@.holds(text));
        }
        if exists|j: int| 0 <= j < parts.len() && (#[trigger] parts[j])@.holds(text) {
            let j = choose|j: int| 0 <= j < parts.len() && (#[trigger] parts[j])@.holds(text);
            assert(models[j].holds(text));
        }
    }
}

impl ParseError {
    /// The text of the error.
    pub fn message(&self) -> (text: String)
        ensures
            text@ == "Failed to parse expression "@ + self.expression@,
    {
        let mut text = "Failed to parse expression ".to_owned();
        text.append(self.expression.as_str());
        text
    }
}

/// The models of a list that grew by one expression.
proof fn lemma_views_push(shorter: Vec<Expr>, longer: Vec<Expr>, last: Expr)
    requires
        longer@ == shorter@.push(last),
    ensures
        Expr::views(longer) == Expr::views(shorter).push(last@),
{
    assert(Expr::views(longer) =~= Expr::views(shorter).push(last@));
}

/// The executable form of `Attempt`.
enum Step {
    Parsed(Expr, usize),
    Mismatch,
    Invalid,
}

impl Step {
    /// The attempt that the step stands for.
    spec fn model(self) -> Attempt {
        match self {
            Step::Parsed(expr, next) => Attempt::Parsed(expr@, next as int),
            Step::Mismatch => Attempt::Mismatch,
            Step::Invalid => Attempt::Invalid,
        }
    }
}

/// The model of what the executable parser returns for an expression.
spec fn expr_model(found: Option<(Expr, usize)>) -> Option<(Formula, int)> {
    match found {
        Some((expr, next)) => Some((expr@, next as int)),
        None => None,
    }
}

/// The model of what the executable parser returns for a list.
spec fn list_model(found: Option<(Vec<Expr>, usize)>) -> Option<(Seq<Formula>, int)> {
    match found {
        Some((parts, next)) => Some((Expr::views(parts), next as int)),
        None => None,
    }
}

/// Whether `word` stands in `chars` at position `at`.
fn starts_with(chars: &Vec<char>, at: usize, word: &Vec<char>) -> (found: bool)
    requires
        at <= chars.len(),
    ensures
        found == has_word(chars@, at as int, word@),
{
    if word.len() > chars.len() - at {
        return false;
    }
    let mut i: usize = 0;
    while i < word.len()
        invariant
            i <= word.len(),
            at + word.len() <= chars.len(),
            forall|j: int| 0 <= j < i ==> chars[at + j] == #[trigger] word[j],
        decreases word.len() - i,
    {
        if chars[at + i] != word[i] {
            assert(chars@.subrange(at as int, at + word.len())[i as int] != word@[i as int]);
            return false;
        }
        i += 1;
    }
    assert(chars@.subrange(at as int, at + word.len()) =~= word@);
    true
}

/// The end of the pattern that starts at `at`.
fn find_pattern_end(chars: &Vec<char>, at: usize) -> (end: usize)
    requires
        at <= chars.len(),
    ensures
        end == pattern_end(chars@, at as int),
        at <= end <= chars.len(),
{
    let mut end: usize = at;
    while end < chars.len() && chars[end] != ')' && chars[end] != ','
        invariant
            at <= end <= chars.len(),
            pattern_end(chars@, at as int) == pattern_end(chars@, end as int),
        decreases chars.len() - end,
    {
        end += 1;
    }
    end
}

/// Reads the pattern that starts at `at`.
fn parse_pattern_at(input: &str, chars: &Vec<char>, at: usize) -> (found: Option<(Expr, usize)>)
    requires
        chars@ == input@,
        at <= chars.len(),
    ensures
        expr_model(found) == parse_pattern(chars@, at as int),
        found matches Some((_, next)) ==> at <= next <= chars.len(),
{
    let end = find_pattern_end(chars, at);
    let text = input.substring_char(at, end);
    match Pattern::compile(text) {
        Some(pattern) => Some((Expr::Regex(pattern), end)),
        None => None,
    }
}

/// Reads the expression that starts at `at`: the first of the four forms
/// that matches.
fn parse_expr_at(input: &str, chars: &Vec<char>, at: usize) -> (found: Option<(Expr, usize)>)
    requires
        chars@ == input@,
        at <= chars.len(),
    ensures
        expr_model(found) == parse_expr(chars@, at as int),
        found matches Some((_, next)) ==> at <= next <= chars.len(),
    decreases chars.len() - at, 1int,
{
    match parse_not_at(input, chars, at) {
        Step::Parsed(expr, next) => {
            return Some((expr, next));
        },
        Step::Invalid => {
            return None;
        },
        Step::Mismatch => {},
    }
    match parse_and_at(input, chars, at) {
        Step::Parsed(expr, next) => {
            return Some((expr, next));
        },
        Step::Invalid => {
            return None;
        },
        Step::Mismatch => {},
    }
    match parse_or_at(input, chars, at) {
        Step::Parsed(expr, next) => {
            return Some((expr, next));
        },
        Step::Invalid => {
            return None;
        },
        Step::Mismatch => {},
    }
    parse_pattern_at(input, chars, at)
}

/// Tries to read a negation at `at`.
fn parse_not_at(input: &str, chars: &Vec<char>, at: usize) -> (step: Step)
    requires
        chars@ == input@,
        at <= chars.len(),
    ensures
        step.model() == parse_not(chars@, at as int),
        step matches Step::Parsed(_, next) ==> at <= next <= chars.len(),
    decreases chars.len() - at, 0int,
{
    let word = vec!['N', 'O', 'T', '('];
    assert(word@ =~= not_word());
    if !starts_with(chars, at, &word) {
        return Step::Mismatch;
    }
    match parse_expr_at(input, chars, at + 4) {
        None => Step::Invalid,
        Some((inner, next)) => {
            if next < chars.len() && chars[next] == ')' {
                Step::Parsed(Expr::Not(Box::new(inner)), next + 1)
            } else {
                Step::Mismatch
            }
        },
    }
}

/// Tries to read a conjunction at `at`.
fn parse_and_at(input: &str, chars: &Vec<char>, at: usize) -> (step: Step)
    requires
        chars@ == input@,
        at <= chars.len(),
    ensures
        step.model() == parse_and(chars@, at as int),
        step matches Step::Parsed(_, next) ==> at <= next <= chars.len(),
    decreases chars.len() - at, 0int,
{
    let word = vec!['A', 'N', 'D', '('];
    assert(word@ =~= and_word());
    if !starts_with(chars, at, &word) {
        return Step::Mismatch;
    }
    match parse_list_at(input, chars, at + 4) {
        None => Step::Invalid,
        Some((parts, next)) => {
            if next < chars.len() && chars[next] == ')' {
                Step::Parsed(Expr::And(parts), next + 1)
            } else {
                Step::Mismatch
            }
        },
    }
}

/// Tries to read a disjunction at `at`.
fn parse_or_at(input: &str, chars: &Vec<char>, at: usize) -> (step: Step)
    requires
        chars@ == input@,
        at <= chars.len(),
    ensures
        step.model() == parse_or(chars@, at as int),
        step matches Step::Parsed(_, next) ==> at <= next <= chars.len(),
    decreases chars.len() - at, 0int,
{
    let word = vec!['O', 'R', '('];
    assert(word@ =~= or_word());
    if !starts_with(chars, at, &word) {
        return Step::Mismatch;
    }
    match parse_list_at(input, chars, at + 3) {
        None => Step::Invalid,
        Some((parts, next)) => {
            if next < chars.len() && chars[next] == ')' {
                Step::Parsed(Expr::Or(parts), next + 1)
            } else {
                Step::Mismatch
            }
        },
    }
}

/// Reads the list of expressions that starts at `at`.
fn parse_list_at(input: &str, chars: &Vec<char>, at: usize) -> (found: Option<(Vec<Expr>, usize)>)
    requires
        chars@ == input@,
        at <= chars.len(),
    ensures
        list_model(found) == parse_list(chars@, at as int, Seq::empty()),
        found matches Some((_, next)) ==> at <= next <= chars.len(),
    decreases chars.len() - at, 2int,
{
    let mut parts: Vec<Expr> = Vec::new();
    let mut cur: usize = at;
    assert(Expr::views(parts) =~= Seq::empty());
    loop
        invariant
            chars@ == input@,
            at <= cur <= chars.len(),
            parse_list(chars@, at as int, Seq::empty()) == parse_list(
                chars@,
                cur as int,
                Expr::views(parts),
            ),
        decreases chars.len() - cur,
    {
        match parse_expr_at(input, chars, cur) {
            None => {
                return None;
            },
            Some((expr, next)) => {
                let ghost shorter = parts;
                let ghost last = expr;
                parts.push(expr);
                proof {
                    lemma_views_push(shorter, parts, last);
                }
                if next < chars.len() && chars[next] == ',' {
                    cur = next + 1;
                } else {
                    return Some((parts, next));
                }
            },
        }
    }
}

/// Reads the expression at the start of `input`. What follows it is not
/// looked at. The result is an error exactly when a regular expression met on
/// the way was not accepted.
pub fn parse(input: &str) -> (result: Result<Expr, ParseError>)
    ensures
        match result {
            Ok(expr) => parsed(input@) == Some(expr@),
            Err(error) => parsed(input@).is_none() && error.expression@ == input@,
        },
{
    let chars = chars_of(input);
    match parse_expr_at(input, &chars, 0) {
        Some((expr, _)) => Ok(expr),
        None => Err(ParseError { expression: input.to_owned() }),
    }
}

} // verus!
