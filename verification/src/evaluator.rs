use vstd::prelude::*;

use crate::token::CalcError;
use crate::token::Token;

verus! {

/// Addition on `i64` with two's-complement wraparound, the semantics of
/// `i64::wrapping_add`.
pub open spec fn wrap_add(a: i64, b: i64) -> i64 {
    if a + b > i64::MAX {
        (a + b - 0x1_0000_0000_0000_0000) as i64
    } else if a + b < i64::MIN {
        (a + b + 0x1_0000_0000_0000_0000) as i64
    } else {
        (a + b) as i64
    }
}

/// Absolute value of a mathematical integer.
pub open spec fn abs_int(a: int) -> int {
    if a >= 0 {
        a
    } else {
        -a
    }
}

/// Remainder with the sign of the dividend: the semantics of Rust's `%` on
/// signed integers (Verus's spec-level `%` is Euclidean instead). The one
/// case where Rust's `%` itself would overflow, `i64::MIN % -1`, yields 0
/// here, matching `i64::wrapping_rem`.
pub open spec fn trunc_rem(a: i64, b: i64) -> i64
    recommends
        b != 0,
{
    let m = abs_int(a as int) % abs_int(b as int);
    if a >= 0 {
        m as i64
    } else {
        (-m) as i64
    }
}

/// One evaluation step: fold the right operand `n` into the accumulator with
/// the operator `op`.
pub open spec fn apply_op(acc: i64, op: Token, n: i64) -> i64
    recommends
        op is Plus || op is Mod,
{
    if op is Plus {
        wrap_add(acc, n)
    } else {
        trunc_rem(acc, n)
    }
}

/// Left-to-right evaluation of everything after the leading number: `ts`
/// must consist of (operator, number) pairs and `acc` is the running value.
/// Structural checks and the division-by-zero check happen pair by pair, so
/// the first offending pair decides the error.
pub open spec fn eval_tail(acc: i64, ts: Seq<Token>) -> Result<i64, CalcError>
    decreases ts.len(),
{
    if ts.len() == 0 {
        Ok(acc)
    } else if ts.len() == 1 {
        Err(CalcError::MalformedSequenceError)
    } else if !(ts[0] is Plus || ts[0] is Mod) || !(ts[1] is Number) {
        Err(CalcError::MalformedSequenceError)
    } else if ts[0] is Mod && ts[1]->Number_0 == 0 {
        Err(CalcError::DivisionByZeroError)
    } else {
        eval_tail(apply_op(acc, ts[0], ts[1]->Number_0), ts.skip(2))
    }
}

/// What `evaluate` returns on any token sequence: the leading token must be
/// a number, and the rest is folded left to right by `eval_tail`.
pub open spec fn spec_evaluate(ts: Seq<Token>) -> Result<i64, CalcError> {
    if ts.len() == 0 {
        Err(CalcError::EmptyExpressionError)
    } else if !(ts[0] is Number) {
        Err(CalcError::LeadingOperatorError)
    } else {
        eval_tail(ts[0]->Number_0, ts.skip(1))
    }
}

/// The alternating shape of a well-formed expression: odd length, numbers at
/// the even positions, operators at the odd positions.
pub open spec fn well_formed(ts: Seq<Token>) -> bool {
    &&& ts.len() % 2 == 1
    &&& forall|i: int| 0 <= i < ts.len() && i % 2 == 0 ==> (#[trigger] ts[i]) is Number
    &&& forall|i: int|
        0 <= i < ts.len() && i % 2 == 1 ==> ((#[trigger] ts[i]) is Plus || ts[i] is Mod)
}

/// No `%` operator in the sequence is followed by a zero operand.
pub open spec fn no_zero_mod(ts: Seq<Token>) -> bool {
    forall|i: int|
        0 <= i && i + 1 < ts.len() && (#[trigger] ts[i]) is Mod ==> ts[i + 1] != Token::Number(
            0i64,
        )
}

/// The value of an even-length run of (operator, number) pairs folded onto
/// the start value `acc` under left-associative grouping: the last pair
/// applies to the value of everything before it.
pub open spec fn fold_from(acc: i64, ts: Seq<Token>) -> i64
    decreases ts.len(),
{
    if ts.len() < 2 {
        acc
    } else {
        apply_op(
            fold_from(acc, ts.take(ts.len() - 2)),
            ts[ts.len() - 2],
            ts[ts.len() - 1]->Number_0,
        )
    }
}

/// The value of a well-formed expression under strict left-to-right
/// (left-associative) grouping.
pub open spec fn fold_value(ts: Seq<Token>) -> i64
    recommends
        well_formed(ts),
{
    if ts.len() == 0 {
        0
    } else {
        fold_from(ts[0]->Number_0, ts.skip(1))
    }
}

/// Folding one leading pair into the accumulator and then folding the rest
/// is the same as folding the whole run: the bridge between the forward
/// accumulation of `eval_tail` and the backward recursion of `fold_from`.
proof fn lemma_fold_from_shift(acc: i64, ts: Seq<Token>)
    requires
        ts.len() >= 2,
        ts.len() % 2 == 0,
    ensures
        fold_from(apply_op(acc, ts[0], ts[1]->Number_0), ts.skip(2)) == fold_from(acc, ts),
    decreases ts.len(),
{
    let len = ts.len() as int;
    if len == 2 {
        assert(ts.take(0) =~= Seq::<Token>::empty());
        assert(ts.skip(2) =~= Seq::<Token>::empty());
        assert(fold_from(acc, ts) == apply_op(
            fold_from(acc, ts.take(0)),
            ts[0],
            ts[1]->Number_0,
        ));
        assert(fold_from(apply_op(acc, ts[0], ts[1]->Number_0), ts.skip(2)) == apply_op(
            acc,
            ts[0],
            ts[1]->Number_0,
        ));
    } else {
        let head = ts.take(len - 2);
        assert(head[0] == ts[0]);
        assert(head[1] == ts[1]);
        lemma_fold_from_shift(acc, head);
        let acc2 = apply_op(acc, ts[0], ts[1]->Number_0);
        assert(head.skip(2) =~= ts.skip(2).take(len - 4));
        assert(ts.skip(2)[len - 4] == ts[len - 2]);
        assert(ts.skip(2)[len - 3] == ts[len - 1]);
        assert(fold_from(acc2, ts.skip(2)) == apply_op(
            fold_from(acc2, ts.skip(2).take(len - 4)),
            ts[len - 2],
            ts[len - 1]->Number_0,
        ));
        assert(fold_from(acc2, ts.skip(2).take(len - 4)) == fold_from(acc, head));
        assert(fold_from(acc, ts) == apply_op(
            fold_from(acc, head),
            ts[len - 2],
            ts[len - 1]->Number_0,
        ));
    }
}

/// On an even-length run of (operator, number) pairs whose `%` operands are
/// all nonzero, `eval_tail` succeeds and returns the left-associative fold.
proof fn lemma_eval_tail_fold(acc: i64, ts: Seq<Token>)
    requires
        ts.len() % 2 == 0,
        forall|i: int|
            0 <= i < ts.len() && i % 2 == 0 ==> ((#[trigger] ts[i]) is Plus || ts[i] is Mod),
        forall|i: int| 0 <= i < ts.len() && i % 2 == 1 ==> (#[trigger] ts[i]) is Number,
        no_zero_mod(ts),
    ensures
        eval_tail(acc, ts) == Ok::<i64, CalcError>(fold_from(acc, ts)),
    decreases ts.len(),
{
    if ts.len() == 0 {
    } else {
        assert(ts[0] is Plus || ts[0] is Mod);
        assert(ts[1] is Number);
        let acc2 = apply_op(acc, ts[0], ts[1]->Number_0);
        let rest = ts.skip(2);
        assert(forall|i: int| 0 <= i < rest.len() ==> rest[i] == ts[i + 2]);
        lemma_eval_tail_fold(acc2, rest);
        lemma_fold_from_shift(acc, ts);
    }
}

/// Law: on a well-formed alternating sequence whose `%` operators all have
/// nonzero right operands, evaluation succeeds and returns the strict
/// left-to-right fold of the sequence.
pub proof fn lemma_evaluate_is_left_fold(ts: Seq<Token>)
    requires
        well_formed(ts),
        no_zero_mod(ts),
    ensures
        spec_evaluate(ts) == Ok::<i64, CalcError>(fold_value(ts)),
{
    let tail = ts.skip(1);
    assert(forall|i: int| 0 <= i < tail.len() ==> tail[i] == ts[i + 1]);
    lemma_eval_tail_fold(ts[0]->Number_0, tail);
}

/// On an even-length run, success of `eval_tail` forces the (operator,
/// number) pair shape and nonzero `%` operands.
proof fn lemma_eval_tail_ok_shape(acc: i64, ts: Seq<Token>)
    requires
        eval_tail(acc, ts) is Ok,
    ensures
        ts.len() % 2 == 0,
        forall|i: int|
            0 <= i < ts.len() && i % 2 == 0 ==> ((#[trigger] ts[i]) is Plus || ts[i] is Mod),
        forall|i: int| 0 <= i < ts.len() && i % 2 == 1 ==> (#[trigger] ts[i]) is Number,
        no_zero_mod(ts),
    decreases ts.len(),
{
    if ts.len() == 0 {
    } else {
        let rest = ts.skip(2);
        let acc2 = apply_op(acc, ts[0], ts[1]->Number_0);
        lemma_eval_tail_ok_shape(acc2, rest);
        assert(forall|i: int| 0 <= i < rest.len() ==> rest[i] == ts[i + 2]);
        assert forall|i: int|
            0 <= i < ts.len() && i % 2 == 0 implies ((#[trigger] ts[i]) is Plus
            || ts[i] is Mod) by {
            if i >= 2 {
                assert(ts[i] == rest[i - 2]);
            }
        }
        assert forall|i: int| 0 <= i < ts.len() && i % 2 == 1 implies (#[trigger] ts[i]) is Number by {
            if i >= 2 {
                assert(ts[i] == rest[i - 2]);
            }
        }
        assert forall|i: int|
            0 <= i && i + 1 < ts.len() && (#[trigger] ts[i]) is Mod implies ts[i + 1]
            != Token::Number(0i64) by {
            if i >= 2 {
                assert(ts[i] == rest[i - 2]);
                assert(ts[i + 1] == rest[i - 1]);
            }
        }
    }
}

/// Law: evaluation succeeds exactly on the well-formed alternating sequences
/// whose `%` operators all have nonzero right operands; on every other
/// sequence it returns one of the errors.
pub proof fn lemma_evaluate_ok_iff(ts: Seq<Token>)
    ensures
        spec_evaluate(ts) is Ok <==> (well_formed(ts) && no_zero_mod(ts)),
{
    if spec_evaluate(ts) is Ok {
        let tail = ts.skip(1);
        lemma_eval_tail_ok_shape(ts[0]->Number_0, tail);
        assert(forall|i: int| 0 <= i < tail.len() ==> tail[i] == ts[i + 1]);
        assert forall|i: int| 0 <= i < ts.len() && i % 2 == 0 implies (#[trigger] ts[i]) is Number by {
            if i >= 1 {
                assert(ts[i] == tail[i - 1]);
            }
        }
        assert forall|i: int|
            0 <= i < ts.len() && i % 2 == 1 implies ((#[trigger] ts[i]) is Plus
            || ts[i] is Mod) by {
            assert(ts[i] == tail[i - 1]);
        }
        assert forall|i: int|
            0 <= i && i + 1 < ts.len() && (#[trigger] ts[i]) is Mod implies ts[i + 1]
            != Token::Number(0i64) by {
            assert(ts[i] == tail[i - 1]);
            assert(ts[i + 1] == tail[i]);
        }
    }
    if well_formed(ts) && no_zero_mod(ts) {
        lemma_evaluate_is_left_fold(ts);
    }
}

/// Rust-style remainder (sign of the dividend), computed through unsigned
/// magnitudes so that it is total for every nonzero divisor, including
/// `i64::MIN % -1`.
fn rem_i64(a: i64, b: i64) -> (r: i64)
    requires
        b != 0,
    ensures
        r == trunc_rem(a, b),
{
    let ua: u64 = if a >= 0 {
        a as u64
    } else if a == i64::MIN {
        9223372036854775808u64
    } else {
        (-a) as u64
    };
    let ub: u64 = if b >= 0 {
        b as u64
    } else if b == i64::MIN {
        9223372036854775808u64
    } else {
        (-b) as u64
    };
    proof {
        assert(ua == abs_int(a as int));
        assert(ub == abs_int(b as int));
    }
    let m: u64 = ua % ub;
    if a >= 0 {
        m as i64
    } else {
        -(m as i64)
    }
}

/// Consume a token sequence left to right, enforcing the alternating
/// number/operator structure, and fold it into a single value. The result is
/// exactly `spec_evaluate` of the sequence, errors included.
pub fn evaluate(tokens: &Vec<Token>) -> (r: Result<i64, CalcError>)
    ensures
        r == spec_evaluate(tokens@),
{
    if tokens.len() == 0 {
        return Err(CalcError::EmptyExpressionError);
    }
    let mut acc: i64 = match tokens[0] {
        Token::Number(n) => n,
        _ => {
            return Err(CalcError::LeadingOperatorError);
        },
    };
    let mut i: usize = 1;
    while i < tokens.len()
        invariant
            1 <= i <= tokens@.len(),
            spec_evaluate(tokens@) == eval_tail(acc, tokens@.skip(i as int)),
        decreases tokens@.len() - i,
    {
        proof {
            assert(tokens@.skip(i as int)[0] == tokens@[i as int]);
        }
        if i + 1 == tokens.len() {
            return Err(CalcError::MalformedSequenceError);
        }
        proof {
            assert(tokens@.skip(i as int)[1] == tokens@[i as int + 1]);
            assert(tokens@.skip(i as int).skip(2) =~= tokens@.skip(i as int + 2));
        }
        let op = tokens[i];
        let operand = tokens[i + 1];
        match (op, operand) {
            (Token::Plus, Token::Number(n)) => {
                acc = acc.wrapping_add(n);
            },
            (Token::Mod, Token::Number(n)) => {
                if n == 0 {
                    return Err(CalcError::DivisionByZeroError);
                }
                acc = rem_i64(acc, n);
            },
            _ => {
                return Err(CalcError::MalformedSequenceError);
            },
        }
        i += 2;
    }
    proof {
        assert(tokens@.skip(i as int) =~= Seq::<Token>::empty());
    }
    Ok(acc)
}

} // verus!
