//! One arithmetic step on 32-bit integers, with every failure reported.

use vstd::prelude::*;
use crate::token::{EvaluationError, Operator};

verus! {

/// Quotient of `left` by `right` rounded toward zero, for `right != 0`.
pub open spec fn truncated_quotient(left: int, right: int) -> int {
    let magnitude: int = (vstd::math::abs(left) / vstd::math::abs(right)) as int;
    if (left < 0) != (right < 0) {
        -magnitude
    } else {
        magnitude
    }
}

/// What `left operator right` is over the unbounded integers.
pub open spec fn exact_result(operator: Operator, left: int, right: int) -> int {
    match operator {
        Operator::Plus => left + right,
        Operator::Minus => left - right,
        Operator::Times => left * right,
        Operator::Divisor => truncated_quotient(left, right),
    }
}

/// Outcome of one arithmetic step: a division by zero is reported at
/// `position`, a result outside of 32 bits as an overflow, and anything else
/// is the exact result.
pub open spec fn step(operator: Operator, left: i32, right: i32, position: usize) -> Result<
    i32,
    EvaluationError,
> {
    if operator == Operator::Divisor && right == 0 {
        Err(EvaluationError::DivisionByZero { position })
    } else if i32::MIN <= exact_result(operator, left as int, right as int) <= i32::MAX {
        Ok(exact_result(operator, left as int, right as int) as i32)
    } else {
        Err(EvaluationError::ArithmeticOverflow { operator, left, right })
    }
}

/// Applies `operator` to `left` and `right`. `position` is where the right
/// operand stands in the expression, and is only used to report a zero
/// divisor.
pub fn apply_operator(operator: Operator, left: i32, right: i32, position: usize) -> (result:
    Result<i32, EvaluationError>)
    ensures
        result == step(operator, left, right, position),
{
    let outcome: Option<i32> = match operator {
        Operator::Plus => left.checked_add(right),
        Operator::Minus => left.checked_sub(right),
        Operator::Times => left.checked_mul(right),
        Operator::Divisor => {
            if right == 0 {
                return Err(EvaluationError::DivisionByZero { position });
            }
            left.checked_div(right)
        },
    };
    match outcome {
        Some(value) => Ok(value),
        None => Err(EvaluationError::ArithmeticOverflow { operator, left, right }),
    }
}

} // verus!
