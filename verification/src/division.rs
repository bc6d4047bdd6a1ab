//! Division by zero: when it is reported, and what a report means.

use vstd::prelude::*;
use crate::arithmetic::step;
use crate::fold::{fold_from, single_tier_from};
use crate::contraction::{contract_tier, reduction};
use crate::sweep::{
    lemma_pass_sweeps, lemma_reduction_sweeps_then_folds, lemma_sweep_leaves_sums, sweep,
};
use crate::token::{well_formed, EvaluationError, MathsArg, Operator, Tier};

verus! {

/// Whether the literal at `position` is a zero that a `/` stands before.
pub open spec fn zero_divisor(tokens: Seq<MathsArg>, position: int) -> bool {
    &&& 0 < position < tokens.len()
    &&& tokens[position - 1] == MathsArg::Op(Operator::Divisor)
    &&& tokens[position] == MathsArg::Int(0)
}

/// A sweep that runs into a zero divisor fails there, unless it fails
/// before.
proof fn lemma_sweep_meets_zero(
    tokens: Seq<MathsArg>,
    position: int,
    from: int,
    accumulator: i32,
)
    requires
        well_formed(tokens),
        zero_divisor(tokens, position),
        1 <= from < position,
        from % 2 == 1,
    ensures
        sweep(tokens, from, accumulator) == match sweep(
            tokens.take(position - 1),
            from,
            accumulator,
        ) {
            Ok(_) => Err::<Seq<MathsArg>, EvaluationError>(
                EvaluationError::DivisionByZero { position: position as usize },
            ),
            Err(error) => Err(error),
        },
    decreases tokens.len() - from,
{
    let before = tokens.take(position - 1);
    assert(tokens[position - 1] is Op);
    assert(tokens[from] is Op);
    if from < position - 1 {
        assert(before[from] == tokens[from]);
        assert(before[from + 1] == tokens[from + 1]);
        if tokens[from].is_operator_of(Tier::Multiplicative) {
            match step(
                tokens[from]->Op_0,
                accumulator,
                tokens[from + 1]->Int_0,
                (from + 1) as usize,
            ) {
                Ok(value) => {
                    lemma_sweep_meets_zero(tokens, position, from + 2, value);
                },
                Err(_) => {},
            }
        } else {
            lemma_sweep_meets_zero(tokens, position, from + 2, tokens[from + 1]->Int_0);
        }
    }
}

/// A zero divisor anywhere in a well-formed expression fails its
/// evaluation, whatever stands behind it: with `DivisionByZero` at the
/// divisor's position, unless the multiplicative pass over what stands
/// before the `/` fails already, and then with that failure.
pub proof fn lemma_zero_divisor_is_reported(tokens: Seq<MathsArg>, position: int)
    requires
        well_formed(tokens),
        zero_divisor(tokens, position),
    ensures
        reduction(tokens) == match contract_tier(
            tokens.take(position - 1),
            Tier::Multiplicative,
            0,
        ) {
            Ok(_) => Err::<i32, EvaluationError>(
                EvaluationError::DivisionByZero { position: position as usize },
            ),
            Err(error) => Err(error),
        },
        reduction(tokens) is Err,
{
    let before = tokens.take(position - 1);
    assert(tokens[position - 1] is Op);
    assert(well_formed(before)) by {
        assert forall|i: int| 0 <= i < before.len() implies ((#[trigger] before[i]) is Int <==> i
            % 2 == 0) by {
            assert(before[i] == tokens[i]);
        }
    }
    lemma_reduction_sweeps_then_folds(tokens);
    lemma_sweep_meets_zero(tokens, position, 1, tokens[0]->Int_0);
    assert(seq![MathsArg::Int(before[0]->Int_0)] + before.skip(1) =~= before);
    lemma_pass_sweeps(before, 1, before[0]->Int_0);
}

/// A sweep reports a division by zero only at a zero divisor.
proof fn lemma_sweep_reports_zero(
    tokens: Seq<MathsArg>,
    from: int,
    accumulator: i32,
    position: usize,
)
    requires
        well_formed(tokens),
        tokens.len() <= usize::MAX,
        1 <= from <= tokens.len(),
        from % 2 == 1,
        sweep(tokens, from, accumulator) == Err::<Seq<MathsArg>, EvaluationError>(
            EvaluationError::DivisionByZero { position },
        ),
    ensures
        zero_divisor(tokens, position as int),
    decreases tokens.len() - from,
{
    if from + 1 < tokens.len() {
        assert(tokens[from] is Op);
        assert(tokens[from + 1] is Int);
        if tokens[from].is_operator_of(Tier::Multiplicative) {
            match step(
                tokens[from]->Op_0,
                accumulator,
                tokens[from + 1]->Int_0,
                (from + 1) as usize,
            ) {
                Ok(value) => {
                    lemma_sweep_reports_zero(tokens, from + 2, value, position);
                },
                Err(_) => {},
            }
        } else {
            lemma_sweep_reports_zero(tokens, from + 2, tokens[from + 1]->Int_0, position);
        }
    }
}

/// A fold over `+` and `-` reports no division by zero.
proof fn lemma_sums_divide_nothing(tokens: Seq<MathsArg>, from: int, accumulator: i32)
    requires
        well_formed(tokens),
        1 <= from <= tokens.len(),
        from % 2 == 1,
        single_tier_from(tokens, from, Tier::Additive),
    ensures
        !(fold_from(tokens, from, accumulator) matches Err(
            EvaluationError::DivisionByZero { .. },
        )),
    decreases tokens.len() - from,
{
    if from + 1 < tokens.len() {
        assert(tokens[from] is Op);
        match step(
            tokens[from]->Op_0,
            accumulator,
            tokens[from + 1]->Int_0,
            (from + 1) as usize,
        ) {
            Ok(value) => {
                lemma_sums_divide_nothing(tokens, from + 2, value);
            },
            Err(_) => {},
        }
    }
}

/// What a `DivisionByZero` names is there: the literal at the reported
/// position of the expression is a zero, and a `/` stands before it.
pub proof fn lemma_reported_divisor_is_zero(tokens: Seq<MathsArg>, position: usize)
    requires
        well_formed(tokens),
        tokens.len() <= usize::MAX,
        reduction(tokens) == Err::<i32, EvaluationError>(
            EvaluationError::DivisionByZero { position },
        ),
    ensures
        zero_divisor(tokens, position as int),
{
    lemma_reduction_sweeps_then_folds(tokens);
    lemma_sweep_leaves_sums(tokens, 1, tokens[0]->Int_0);
    match sweep(tokens, 1, tokens[0]->Int_0) {
        Ok(sums) => {
            lemma_sums_divide_nothing(sums, 1, sums[0]->Int_0);
        },
        Err(_) => {
            lemma_sweep_reports_zero(tokens, 1, tokens[0]->Int_0, position);
        },
    }
}

} // verus!
