//! The multiplicative pass seen as one sweep from left to right.

use vstd::prelude::*;
use crate::arithmetic::step;
use crate::contraction::{
    behind, contract_tier, contracted, lemma_contract_behind, lemma_first_operator_is, reduction,
};
use crate::fold::{left_fold, lemma_pass_folds, single_tier_from};
use crate::token::{well_formed, EvaluationError, MathsArg, Tier};

verus! {

/// What the multiplicative pass leaves of `accumulator` followed by the
/// tokens from `from` on, where an operator stands: a `*` or `/` is applied
/// to the accumulator at once, a `+` or `-` puts the accumulator and itself
/// out and makes the next literal the accumulator.
pub open spec fn sweep(tokens: Seq<MathsArg>, from: int, accumulator: i32) -> Result<
    Seq<MathsArg>,
    EvaluationError,
>
    decreases tokens.len() - from,
{
    if from + 1 < tokens.len() {
        if tokens[from].is_operator_of(Tier::Multiplicative) {
            match step(
                tokens[from]->Op_0,
                accumulator,
                tokens[from + 1]->Int_0,
                (from + 1) as usize,
            ) {
                Ok(value) => sweep(tokens, from + 2, value),
                Err(error) => Err(error),
            }
        } else {
            behind(
                seq![MathsArg::Int(accumulator), tokens[from]],
                sweep(tokens, from + 2, tokens[from + 1]->Int_0),
            )
        }
    } else {
        Ok(seq![MathsArg::Int(accumulator)])
    }
}

/// The multiplicative pass over a literal and the end of a well-formed
/// sequence is the sweep over them.
pub proof fn lemma_pass_sweeps(tokens: Seq<MathsArg>, from: int, accumulator: i32)
    requires
        well_formed(tokens),
        1 <= from <= tokens.len(),
        from % 2 == 1,
    ensures
        contract_tier(
            seq![MathsArg::Int(accumulator)] + tokens.skip(from),
            Tier::Multiplicative,
            (from - 1) as nat,
        ) == sweep(tokens, from, accumulator),
    decreases tokens.len() - from,
{
    let current = seq![MathsArg::Int(accumulator)] + tokens.skip(from);
    if from + 1 < tokens.len() {
        assert(current[1] == tokens[from]);
        assert(current[2] == tokens[from + 1]);
        assert(tokens[from] is Op);
        assert(tokens[from + 1] is Int);
        if tokens[from].is_operator_of(Tier::Multiplicative) {
            lemma_first_operator_is(current, Tier::Multiplicative, 1);
            match step(
                tokens[from]->Op_0,
                accumulator,
                tokens[from + 1]->Int_0,
                (from + 1) as usize,
            ) {
                Ok(value) => {
                    assert(contracted(current, 1, value) =~= seq![MathsArg::Int(value)]
                        + tokens.skip(from + 2));
                    lemma_pass_sweeps(tokens, from + 2, value);
                },
                Err(_) => {},
            }
        } else {
            let front = seq![MathsArg::Int(accumulator), tokens[from]];
            let rest = seq![tokens[from + 1]] + tokens.skip(from + 2);
            assert(current =~= front + rest);
            assert(rest[0] == tokens[from + 1]);
            lemma_contract_behind(front, rest, Tier::Multiplicative, (from - 1) as nat);
            lemma_pass_sweeps(tokens, from + 2, tokens[from + 1]->Int_0);
        }
    } else {
        assert(current =~= seq![MathsArg::Int(accumulator)]);
        lemma_first_operator_is(current, Tier::Multiplicative, 1);
    }
}

/// What a sweep puts out is a well-formed chain of `+` and `-`.
pub proof fn lemma_sweep_leaves_sums(tokens: Seq<MathsArg>, from: int, accumulator: i32)
    requires
        well_formed(tokens),
        1 <= from <= tokens.len(),
        from % 2 == 1,
    ensures
        sweep(tokens, from, accumulator) matches Ok(sums) ==> well_formed(sums)
            && single_tier_from(sums, 0, Tier::Additive),
    decreases tokens.len() - from,
{
    if from + 1 < tokens.len() {
        assert(tokens[from] is Op);
        if tokens[from].is_operator_of(Tier::Multiplicative) {
            match step(
                tokens[from]->Op_0,
                accumulator,
                tokens[from + 1]->Int_0,
                (from + 1) as usize,
            ) {
                Ok(value) => {
                    lemma_sweep_leaves_sums(tokens, from + 2, value);
                },
                Err(_) => {},
            }
        } else {
            lemma_sweep_leaves_sums(tokens, from + 2, tokens[from + 1]->Int_0);
            match sweep(tokens, from + 2, tokens[from + 1]->Int_0) {
                Ok(rest) => {
                    let front = seq![MathsArg::Int(accumulator), tokens[from]];
                    let sums = front + rest;
                    assert forall|i: int| 0 <= i < sums.len() implies ((#[trigger] sums[i]) is Int
                        <==> i % 2 == 0) by {
                        if i >= 2 {
                            assert(sums[i] == rest[i - 2]);
                        }
                    }
                    assert forall|i: int| 0 <= i < sums.len() && (#[trigger] sums[i])
                        is Op implies sums[i].is_operator_of(Tier::Additive) by {
                        if i >= 2 {
                            assert(sums[i] == rest[i - 2]);
                        }
                    }
                },
                Err(_) => {},
            }
        }
    }
}

/// The value of a well-formed expression is the fold from the left of what
/// the sweep over it leaves.
pub proof fn lemma_reduction_sweeps_then_folds(tokens: Seq<MathsArg>)
    requires
        well_formed(tokens),
    ensures
        reduction(tokens) == match sweep(tokens, 1, tokens[0]->Int_0) {
            Ok(sums) => left_fold(sums),
            Err(error) => Err(error),
        },
{
    assert(seq![MathsArg::Int(tokens[0]->Int_0)] + tokens.skip(1) =~= tokens);
    lemma_pass_sweeps(tokens, 1, tokens[0]->Int_0);
    lemma_sweep_leaves_sums(tokens, 1, tokens[0]->Int_0);
    match sweep(tokens, 1, tokens[0]->Int_0) {
        Ok(sums) => {
            lemma_pass_folds(sums, Tier::Additive);
        },
        Err(_) => {},
    }
}

} // verus!
