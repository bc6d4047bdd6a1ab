//! Chains of one tier: contraction is a plain fold from the left.

use vstd::prelude::*;
use crate::arithmetic::{apply_operator, exact_result, step};
use crate::contraction::{contract_tier, contracted, lemma_first_operator_is, reduction};
use crate::token::{well_formed, EvaluationError, MathsArg, Operator, Tier};

verus! {

/// The fold from the left of what `tokens` holds from `from` on, where an
/// operator stands: `accumulator` is combined with the next literal by the
/// operator between them, and so on to the end. The first step that fails
/// ends the fold with its error.
pub open spec fn fold_from(tokens: Seq<MathsArg>, from: int, accumulator: i32) -> Result<
    i32,
    EvaluationError,
>
    decreases tokens.len() - from,
{
    if from + 1 < tokens.len() {
        match step(
            tokens[from]->Op_0,
            accumulator,
            tokens[from + 1]->Int_0,
            (from + 1) as usize,
        ) {
            Ok(value) => fold_from(tokens, from + 2, value),
            Err(error) => Err(error),
        }
    } else {
        Ok(accumulator)
    }
}

/// The fold from the left of a whole chain, begun with its first literal.
pub open spec fn left_fold(tokens: Seq<MathsArg>) -> Result<i32, EvaluationError> {
    fold_from(tokens, 1, tokens[0]->Int_0)
}

/// Whether every operator of `tokens` from index `from` on is of `tier`.
pub open spec fn single_tier_from(tokens: Seq<MathsArg>, from: int, tier: Tier) -> bool {
    forall|i: int|
        from <= i < tokens.len() && (#[trigger] tokens[i]) is Op ==> tokens[i].is_operator_of(
            tier,
        )
}

/// The literal that `outcome` holds, as a sequence of one token.
pub open spec fn single(outcome: Result<i32, EvaluationError>) -> Result<
    Seq<MathsArg>,
    EvaluationError,
> {
    match outcome {
        Ok(value) => Ok(seq![MathsArg::Int(value)]),
        Err(error) => Err(error),
    }
}

/// Contracting a literal followed by the end of a chain of one tier folds
/// the chain into the literal.
pub proof fn lemma_contract_folds(tokens: Seq<MathsArg>, tier: Tier, from: int, accumulator: i32)
    requires
        well_formed(tokens),
        1 <= from <= tokens.len(),
        from % 2 == 1,
        single_tier_from(tokens, from, tier),
    ensures
        contract_tier(
            seq![MathsArg::Int(accumulator)] + tokens.skip(from),
            tier,
            (from - 1) as nat,
        ) == single(fold_from(tokens, from, accumulator)),
    decreases tokens.len() - from,
{
    let current = seq![MathsArg::Int(accumulator)] + tokens.skip(from);
    if from + 1 < tokens.len() {
        assert(current[1] == tokens[from]);
        assert(current[2] == tokens[from + 1]);
        assert(tokens[from] is Op);
        lemma_first_operator_is(current, tier, 1);
        match step(
            tokens[from]->Op_0,
            accumulator,
            tokens[from + 1]->Int_0,
            (from + 1) as usize,
        ) {
            Ok(value) => {
                assert(contracted(current, 1, value) =~= seq![MathsArg::Int(value)] + tokens.skip(
                    from + 2,
                ));
                lemma_contract_folds(tokens, tier, from + 2, value);
            },
            Err(_) => {},
        }
    } else {
        assert(current =~= seq![MathsArg::Int(accumulator)]);
        lemma_first_operator_is(current, tier, 1);
    }
}

/// A pass over a well-formed chain of one tier comes to the fold from the
/// left of the chain.
pub proof fn lemma_pass_folds(tokens: Seq<MathsArg>, tier: Tier)
    requires
        well_formed(tokens),
        single_tier_from(tokens, 0, tier),
    ensures
        contract_tier(tokens, tier, 0) == single(left_fold(tokens)),
{
    assert(seq![MathsArg::Int(tokens[0]->Int_0)] + tokens.skip(1) =~= tokens);
    lemma_contract_folds(tokens, tier, 1, tokens[0]->Int_0);
}

/// Associativity from left to right: an expression whose operators are all
/// of one tier, be it `*` and `/` or `+` and `-`, evaluates to the fold from
/// the left of its literals, and fails where and as the fold fails.
pub proof fn lemma_chain_is_left_fold(tokens: Seq<MathsArg>, tier: Tier)
    requires
        well_formed(tokens),
        single_tier_from(tokens, 0, tier),
    ensures
        reduction(tokens) == left_fold(tokens),
{
    lemma_pass_folds(tokens, tier);
    match tier {
        Tier::Multiplicative => {
            match left_fold(tokens) {
                Ok(value) => {
                    lemma_first_operator_is(seq![MathsArg::Int(value)], Tier::Additive, 1);
                },
                Err(_) => {},
            }
        },
        Tier::Additive => {
            assert forall|j: int| 0 <= j < tokens.len() implies !(#[trigger] tokens[j]).is_operator_of(
                Tier::Multiplicative,
            ) by {}
            lemma_first_operator_is(tokens, Tier::Multiplicative, tokens.len() as int);
        },
    }
}

/// An expression of two literals and one operator evaluates to one
/// arithmetic step: to the exact result of the operator on the literals,
/// with division rounded toward zero, wherever the divisor is not zero and
/// the result fits in 32 bits.
pub proof fn lemma_two_operands(left: i32, operator: Operator, right: i32)
    ensures
        reduction(seq![MathsArg::Int(left), MathsArg::Op(operator), MathsArg::Int(right)])
            == step(operator, left, right, 2),
        !(operator == Operator::Divisor && right == 0) && i32::MIN <= exact_result(
            operator,
            left as int,
            right as int,
        ) <= i32::MAX ==> reduction(
            seq![MathsArg::Int(left), MathsArg::Op(operator), MathsArg::Int(right)],
        ) == Ok::<i32, EvaluationError>(
            exact_result(operator, left as int, right as int) as i32,
        ),
{
    let tokens = seq![MathsArg::Int(left), MathsArg::Op(operator), MathsArg::Int(right)];
    lemma_chain_is_left_fold(tokens, operator.tier());
    match step(operator, left, right, 2) {
        Ok(value) => {
            assert(fold_from(tokens, 3, value) == Ok::<i32, EvaluationError>(value));
        },
        Err(_) => {},
    }
}

/// A fold over `+` and `-` does not depend on where its tokens stand: two
/// sequences that end alike fold alike.
pub proof fn lemma_fold_ignores_positions(
    tokens: Seq<MathsArg>,
    from: int,
    others: Seq<MathsArg>,
    other_from: int,
    accumulator: i32,
)
    requires
        well_formed(tokens),
        1 <= from <= tokens.len(),
        from % 2 == 1,
        single_tier_from(tokens, from, Tier::Additive),
        0 <= other_from <= others.len(),
        tokens.skip(from) == others.skip(other_from),
    ensures
        fold_from(tokens, from, accumulator) == fold_from(others, other_from, accumulator),
    decreases tokens.len() - from,
{
    assert(tokens.len() - from == others.len() - other_from) by {
        assert(tokens.skip(from).len() == others.skip(other_from).len());
    }
    if from + 1 < tokens.len() {
        assert(tokens[from] is Op);
        assert(tokens[from] == tokens.skip(from)[0]);
        assert(others[other_from] == others.skip(other_from)[0]);
        assert(tokens[from + 1] == tokens.skip(from)[1]);
        assert(others[other_from + 1] == others.skip(other_from)[1]);
        assert(tokens.skip(from + 2) =~= tokens.skip(from).skip(2));
        assert(others.skip(other_from + 2) =~= others.skip(other_from).skip(2));
        match step(
            tokens[from]->Op_0,
            accumulator,
            tokens[from + 1]->Int_0,
            (from + 1) as usize,
        ) {
            Ok(value) => {
                lemma_fold_ignores_positions(tokens, from + 2, others, other_from + 2, value);
            },
            Err(_) => {},
        }
    }
}

/// Folds a well-formed sequence from the left, whatever its operators.
pub fn fold_left(tokens: &Vec<MathsArg>) -> (outcome: Result<i32, EvaluationError>)
    requires
        well_formed(tokens@),
    ensures
        outcome == left_fold(tokens@),
{
    let len: usize = tokens.len();
    let mut accumulator: i32 = tokens[0].literal();
    let mut from: usize = 1;
    while from < len
        invariant
            well_formed(tokens@),
            len == tokens@.len(),
            1 <= from <= len,
            from % 2 == 1,
            left_fold(tokens@) == fold_from(tokens@, from as int, accumulator),
        decreases len - from,
    {
        let operator = tokens[from].operator();
        let right: i32 = tokens[from + 1].literal();
        match apply_operator(operator, accumulator, right, from + 1) {
            Err(error) => {
                return Err(error);
            },
            Ok(value) => {
                accumulator = value;
            },
        }
        from = from + 2;
    }
    Ok(accumulator)
}

} // verus!
