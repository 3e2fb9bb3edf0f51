//! Evaluation of whitespace-separated arithmetic expressions built from
//! signed 64-bit integers, addition (`+`) and modulo (`%`), with no operator
//! precedence: all operators apply strictly left to right, so `a + b % c`
//! means `(a + b) % c`.
pub mod evaluator;
pub mod token;
pub mod tokenizer;

use vstd::prelude::*;

use crate::evaluator::evaluate;
use crate::evaluator::spec_evaluate;
use crate::token::CalcError;
use crate::tokenizer::spec_tokenize;
use crate::tokenizer::tokenize;

verus! {

/// What `compute` returns: the input tokenized, then evaluated left to
/// right, short-circuiting on the first failure.
pub open spec fn spec_compute(s: Seq<char>) -> Result<i64, CalcError> {
    match spec_tokenize(s) {
        Ok(ts) => spec_evaluate(ts),
        Err(e) => Err(e),
    }
}

/// Evaluate a whitespace-separated arithmetic expression: split the input on
/// single spaces, classify each piece as a number or an operator, and fold
/// the tokens strictly left to right. Returns the computed value, or the
/// first failure encountered. An empty input, like any input with an empty
/// piece (two spaces in a row), fails tokenization; a `%` with a zero right
/// operand is checked explicitly and reported, never left to a runtime
/// fault.
pub fn compute(s: &str) -> (r: Result<i64, CalcError>)
    ensures
        r == spec_compute(s@),
{
    let tokens = match tokenize(s) {
        Ok(ts) => ts,
        Err(e) => {
            return Err(e);
        },
    };
    evaluate(&tokens)
}

/// Law: `compute` is a pure function of its input. Its contract pins the
/// result to `spec_compute`, so any two results obtained from equal inputs
/// are equal.
pub proof fn lemma_compute_deterministic(
    s1: Seq<char>,
    s2: Seq<char>,
    r1: Result<i64, CalcError>,
    r2: Result<i64, CalcError>,
)
    requires
        s1 == s2,
        r1 == spec_compute(s1),
        r2 == spec_compute(s2),
    ensures
        r1 == r2,
{
}

} // verus!
