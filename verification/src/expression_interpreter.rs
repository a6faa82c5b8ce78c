//! Evaluation of an expression on a text.

use crate::expression_parser::Expr;
use vstd::prelude::*;

verus! {

/// Evaluates `expression` on `line`: a conjunction holds when all its parts
/// hold (so the empty one holds), a disjunction when some part holds (so the
/// empty one does not), a negation when its part does not, and a regular
/// expression when it matches somewhere in `line`.
pub fn evaluate(expression: &Expr, line: &str) -> (result: bool)
    ensures
        result == expression@.holds(line@),
    decreases expression,
{
    match expression {
        Expr::And(expressions) => {
            let mut i: usize = 0;
            while i < expressions.len()
                invariant
                    i <= expressions.len(),
                    *expression == Expr::And(*expressions),
                    forall|j: int| 0 <= j < i ==> (#[trigger] expressions[j])@.holds(line@),
                decreases expressions.len() - i,
            {
                assert(decreases_to!(*expressions => expressions[i as int]));
                assert(expression->And_0 == *expressions);
                if !evaluate(&expressions[i], line) {
                    proof {
                        Expr::lemma_and_holds(*expressions, line@);
                    }
                    return false;
                }
                i += 1;
            }
            proof {
                Expr::lemma_and_holds(*expressions, line@);
            }
            true
        },
        Expr::Or(expressions) => {
            let mut i: usize = 0;
            while i < expressions.len()
                invariant
                    i <= expressions.len(),
                    *expression == Expr::Or(*expressions),
                    forall|j: int| 0 <= j < i ==> !(#[trigger] expressions[j])@.holds(line@),
                decreases expressions.len() - i,
            {
                assert(decreases_to!(*expressions => expressions[i as int]));
                assert(expression->Or_0 == *expressions);
                if evaluate(&expressions[i], line) {
                    proof {
                        Expr::lemma_or_holds(*expressions, line@);
                    }
                    return true;
                }
                i += 1;
            }
            proof {
                Expr::lemma_or_holds(*expressions, line@);
            }
            false
        },
        Expr::Not(inner) => !evaluate(inner, line),
        Expr::Regex(regex) => regex.is_match(line),
    }
}

} // verus!
