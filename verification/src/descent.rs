//! Evaluation by recursive descent, and its agreement with contraction.
//!
//! The grammar is the classic one for two levels of precedence: an
//! expression is a sum of terms, a term a product of literals. The evaluator
//! below follows it with one function per level.

use vstd::prelude::*;
use crate::arithmetic::step;
use crate::fold::{fold_from, left_fold, lemma_fold_ignores_positions, single_tier_from};
use crate::contraction::reduction;
use crate::sweep::{lemma_reduction_sweeps_then_folds, lemma_sweep_leaves_sums, sweep};
use crate::token::{well_formed, EvaluationError, MathsArg, Tier};

verus! {

/// Index of the token behind the term in progress at `from`, where an
/// operator stands or the sequence ends: the term goes on as long as the
/// operator is `*` or `/`.
pub open spec fn term_end(tokens: Seq<MathsArg>, from: int) -> int
    decreases tokens.len() - from,
{
    if from + 1 < tokens.len() && tokens[from].is_operator_of(Tier::Multiplicative) {
        term_end(tokens, from + 2)
    } else {
        from
    }
}

/// Value of the term in progress at `from`, whose factors so far multiply
/// and divide to `accumulator`.
pub open spec fn term_from(tokens: Seq<MathsArg>, from: int, accumulator: i32) -> Result<
    i32,
    EvaluationError,
>
    decreases tokens.len() - from,
{
    if from + 1 < tokens.len() && tokens[from].is_operator_of(Tier::Multiplicative) {
        match step(
            tokens[from]->Op_0,
            accumulator,
            tokens[from + 1]->Int_0,
            (from + 1) as usize,
        ) {
            Ok(value) => term_from(tokens, from + 2, value),
            Err(error) => Err(error),
        }
    } else {
        Ok(accumulator)
    }
}

/// Value of the expression in progress at `from`, where a `+` or `-` stands
/// or the sequence ends, and whose terms so far add up to `total`: the term
/// behind the operator is evaluated and joined to the total at once.
pub open spec fn sum_from(tokens: Seq<MathsArg>, from: int, total: i32) -> Result<
    i32,
    EvaluationError,
>
    decreases tokens.len() - from,
    via sum_from_terminates
{
    if from + 1 < tokens.len() {
        match term_from(tokens, from + 2, tokens[from + 1]->Int_0) {
            Err(error) => Err(error),
            Ok(term) => match step(tokens[from]->Op_0, total, term, (from + 1) as usize) {
                Err(error) => Err(error),
                Ok(value) => sum_from(tokens, term_end(tokens, from + 2), value),
            },
        }
    } else {
        Ok(total)
    }
}

#[via_fn]
proof fn sum_from_terminates(tokens: Seq<MathsArg>, from: int, total: i32) {
    lemma_term_end(tokens, from + 2);
}

/// The value that recursive descent gives to an expression: that of its
/// first term, then of the sum that the term begins.
pub open spec fn descent(tokens: Seq<MathsArg>) -> Result<i32, EvaluationError> {
    match term_from(tokens, 1, tokens[0]->Int_0) {
        Err(error) => Err(error),
        Ok(term) => sum_from(tokens, term_end(tokens, 1), term),
    }
}

/// Whether two outcomes are the same value, or are both failures.
pub open spec fn same_value(
    one: Result<i32, EvaluationError>,
    other: Result<i32, EvaluationError>,
) -> bool {
    match one {
        Ok(value) => other == Ok::<i32, EvaluationError>(value),
        Err(_) => other is Err,
    }
}

/// A term ends at or behind the place where it is picked up, on an operator
/// position, and what it ends on is no `*` or `/`.
pub proof fn lemma_term_end(tokens: Seq<MathsArg>, from: int)
    ensures
        from <= term_end(tokens, from),
        (term_end(tokens, from) - from) % 2 == 0,
        from <= tokens.len() ==> term_end(tokens, from) <= tokens.len(),
        term_end(tokens, from) + 1 < tokens.len() ==> !tokens[term_end(
            tokens,
            from,
        )].is_operator_of(Tier::Multiplicative),
    decreases tokens.len() - from,
{
    if from + 1 < tokens.len() && tokens[from].is_operator_of(Tier::Multiplicative) {
        lemma_term_end(tokens, from + 2);
    }
}

/// The fold of what a sweep leaves behind a running total, against the
/// descent from the same place with the same total.
proof fn lemma_sweep_agrees_behind_total(
    tokens: Seq<MathsArg>,
    from: int,
    accumulator: i32,
    total: i32,
    joint: MathsArg,
    joint_position: usize,
)
    requires
        well_formed(tokens),
        1 <= from <= tokens.len(),
        from % 2 == 1,
        joint.is_operator_of(Tier::Additive),
    ensures
        same_value(
            match sweep(tokens, from, accumulator) {
                Ok(sums) => left_fold(seq![MathsArg::Int(total), joint] + sums),
                Err(error) => Err(error),
            },
            match term_from(tokens, from, accumulator) {
                Err(error) => Err(error),
                Ok(term) => match step(joint->Op_0, total, term, joint_position) {
                    Err(error) => Err(error),
                    Ok(value) => sum_from(tokens, term_end(tokens, from), value),
                },
            },
        ),
    decreases tokens.len() - from,
{
    let front = seq![MathsArg::Int(total), joint];
    if from + 1 < tokens.len() {
        assert(tokens[from] is Op);
        assert(tokens[from + 1] is Int);
        if tokens[from].is_operator_of(Tier::Multiplicative) {
            match step(
                tokens[from]->Op_0,
                accumulator,
                tokens[from + 1]->Int_0,
                (from + 1) as usize,
            ) {
                Ok(value) => {
                    lemma_sweep_agrees_behind_total(
                        tokens,
                        from + 2,
                        value,
                        total,
                        joint,
                        joint_position,
                    );
                },
                Err(_) => {},
            }
        } else {
            // The term ends here. Descent joins it to the total now; the fold
            // does so before anything else it does.
            let next = tokens[from + 1]->Int_0;
            lemma_sweep_leaves_sums(tokens, from + 2, next);
            match step(joint->Op_0, total, accumulator, joint_position) {
                Ok(value) => {
                    lemma_sweep_agrees_behind_total(
                        tokens,
                        from + 2,
                        next,
                        value,
                        tokens[from],
                        (from + 1) as usize,
                    );
                    match sweep(tokens, from + 2, next) {
                        Ok(rest) => {
                            let sums = seq![MathsArg::Int(accumulator), tokens[from]] + rest;
                            let long = front + sums;
                            let short = seq![MathsArg::Int(value), tokens[from]] + rest;
                            lemma_joined(front, sums);
                            lemma_joined(seq![MathsArg::Int(value), tokens[from]], rest);
                            assert(long[1] == joint);
                            assert(long[2] == MathsArg::Int(accumulator));
                            assert(step(joint->Op_0, total, accumulator, 2usize) == Ok::<
                                i32,
                                EvaluationError,
                            >(value));
                            assert(long.skip(3) =~= short.skip(1));
                            lemma_fold_ignores_positions(long, 3, short, 1, value);
                        },
                        Err(_) => {},
                    }
                },
                Err(_) => {
                    match sweep(tokens, from + 2, next) {
                        Ok(rest) => {
                            let sums = seq![MathsArg::Int(accumulator), tokens[from]] + rest;
                            let long = front + sums;
                            assert(long[1] == joint);
                            assert(long[2] == MathsArg::Int(accumulator));
                            assert(step(joint->Op_0, total, accumulator, 2usize) is Err);
                        },
                        Err(_) => {},
                    }
                },
            }
        }
    } else {
        let long = front + seq![MathsArg::Int(accumulator)];
        assert(long[1] == joint);
        assert(long[2] == MathsArg::Int(accumulator));
        assert(long.len() == 3);
        match step(joint->Op_0, total, accumulator, 2usize) {
            Ok(value) => {
                assert(fold_from(long, 3, value) == Ok::<i32, EvaluationError>(value));
            },
            Err(_) => {},
        }
    }
}

/// A literal and a `+` or `-` put before a well-formed chain of `+` and `-`
/// make such a chain again.
proof fn lemma_joined(front: Seq<MathsArg>, sums: Seq<MathsArg>)
    requires
        front.len() == 2,
        front[0] is Int,
        front[1].is_operator_of(Tier::Additive),
        well_formed(sums),
        single_tier_from(sums, 0, Tier::Additive),
    ensures
        well_formed(front + sums),
        single_tier_from(front + sums, 0, Tier::Additive),
{
    let long = front + sums;
    assert forall|i: int| 0 <= i < long.len() implies ((#[trigger] long[i]) is Int <==> i % 2
        == 0) by {
        if i >= 2 {
            assert(long[i] == sums[i - 2]);
        }
    }
    assert forall|i: int| 0 <= i < long.len() && (#[trigger] long[i])
        is Op implies long[i].is_operator_of(Tier::Additive) by {
        if i >= 2 {
            assert(long[i] == sums[i - 2]);
        }
    }
}

/// The fold of what a sweep leaves, against the descent from the same place.
proof fn lemma_sweep_agrees(tokens: Seq<MathsArg>, from: int, accumulator: i32)
    requires
        well_formed(tokens),
        1 <= from <= tokens.len(),
        from % 2 == 1,
    ensures
        same_value(
            match sweep(tokens, from, accumulator) {
                Ok(sums) => left_fold(sums),
                Err(error) => Err(error),
            },
            match term_from(tokens, from, accumulator) {
                Err(error) => Err(error),
                Ok(term) => sum_from(tokens, term_end(tokens, from), term),
            },
        ),
    decreases tokens.len() - from,
{
    if from + 1 < tokens.len() {
        assert(tokens[from] is Op);
        if tokens[from].is_operator_of(Tier::Multiplicative) {
            match step(
                tokens[from]->Op_0,
                accumulator,
                tokens[from + 1]->Int_0,
                (from + 1) as usize,
            ) {
                Ok(value) => {
                    lemma_sweep_agrees(tokens, from + 2, value);
                },
                Err(_) => {},
            }
        } else {
            lemma_sweep_agrees_behind_total(
                tokens,
                from + 2,
                tokens[from + 1]->Int_0,
                accumulator,
                tokens[from],
                (from + 1) as usize,
            );
        }
    }
}

/// Precedence: contraction in two passes and recursive descent give every
/// well-formed expression the same value, and where one of them fails, so
/// does the other.
pub proof fn lemma_reduction_is_descent(tokens: Seq<MathsArg>)
    requires
        well_formed(tokens),
    ensures
        same_value(reduction(tokens), descent(tokens)),
{
    lemma_reduction_sweeps_then_folds(tokens);
    lemma_sweep_agrees(tokens, 1, tokens[0]->Int_0);
}

} // verus!
