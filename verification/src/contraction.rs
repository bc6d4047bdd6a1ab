//! What an expression evaluates to, defined by contraction: the leftmost
//! operator of a tier and the two literals around it are replaced by the
//! literal they evaluate to, until the tier is used up.

use vstd::prelude::*;
use crate::arithmetic::step;
use crate::token::{EvaluationError, MathsArg, Tier};

verus! {

/// Index of the leftmost operator of `tier`, or the length of `tokens` where
/// there is none.
pub open spec fn first_operator(tokens: Seq<MathsArg>, tier: Tier) -> int
    decreases tokens.len(),
{
    if tokens.len() == 0 || tokens[0].is_operator_of(tier) {
        0
    } else {
        1 + first_operator(tokens.skip(1), tier)
    }
}

/// `tokens` with the triple around index `at` replaced by the literal `value`.
pub open spec fn contracted(tokens: Seq<MathsArg>, at: int, value: i32) -> Seq<MathsArg> {
    tokens.subrange(0, at - 1).push(MathsArg::Int(value)) + tokens.subrange(
        at + 2,
        tokens.len() as int,
    )
}

/// One pass of contraction: as long as `tokens` holds an operator of `tier`,
/// the leftmost one is applied to its neighbours and the three tokens give
/// way to the result. The first step that fails ends the pass with its error.
///
/// `removed` counts the tokens that earlier contractions of the pass took
/// out, all of them left of the operator at hand, so that a zero divisor is
/// reported at the position it had when the pass began.
pub open spec fn contract_tier(tokens: Seq<MathsArg>, tier: Tier, removed: nat) -> Result<
    Seq<MathsArg>,
    EvaluationError,
>
    decreases tokens.len(),
{
    let at = first_operator(tokens, tier);
    if 0 < at < tokens.len() - 1 {
        match step(
            tokens[at]->Op_0,
            tokens[at - 1]->Int_0,
            tokens[at + 1]->Int_0,
            (at + 1 + removed) as usize,
        ) {
            Ok(value) => contract_tier(contracted(tokens, at, value), tier, removed + 2),
            Err(error) => Err(error),
        }
    } else {
        Ok(tokens)
    }
}

/// The value of a well-formed expression: every `*` and `/` is contracted
/// first, from left to right, then every `+` and `-`, and the one literal
/// that remains is the result.
pub open spec fn reduction(tokens: Seq<MathsArg>) -> Result<i32, EvaluationError> {
    match contract_tier(tokens, Tier::Multiplicative, 0) {
        Err(error) => Err(error),
        Ok(sums) => match contract_tier(sums, Tier::Additive, 0) {
            Err(error) => Err(error),
            Ok(last) => Ok(last[0]->Int_0),
        },
    }
}

/// `outcome` with `front` put before the tokens, if it holds any.
pub open spec fn behind(front: Seq<MathsArg>, outcome: Result<Seq<MathsArg>, EvaluationError>)
    -> Result<Seq<MathsArg>, EvaluationError> {
    match outcome {
        Ok(tokens) => Ok(front + tokens),
        Err(error) => Err(error),
    }
}

/// `first_operator` points at an operator of the tier or past the end, and
/// nothing before it is such an operator.
pub proof fn lemma_first_operator(tokens: Seq<MathsArg>, tier: Tier)
    ensures
        0 <= first_operator(tokens, tier) <= tokens.len(),
        first_operator(tokens, tier) < tokens.len() ==> tokens[first_operator(
            tokens,
            tier,
        )].is_operator_of(tier),
        forall|j: int|
            0 <= j < first_operator(tokens, tier) ==> !(#[trigger] tokens[j]).is_operator_of(tier),
    decreases tokens.len(),
{
    if tokens.len() == 0 || tokens[0].is_operator_of(tier) {
    } else {
        let rest = tokens.skip(1);
        lemma_first_operator(rest, tier);
        assert forall|j: int| 0 <= j < first_operator(tokens, tier) implies !(
        #[trigger] tokens[j]).is_operator_of(tier) by {
            if j > 0 {
                assert(tokens[j] == rest[j - 1]);
            }
        }
    }
}

/// An index that holds an operator of the tier, or lies at the end, with no
/// such operator before it, is what `first_operator` gives.
pub proof fn lemma_first_operator_is(tokens: Seq<MathsArg>, tier: Tier, at: int)
    requires
        0 <= at <= tokens.len(),
        at < tokens.len() ==> tokens[at].is_operator_of(tier),
        forall|j: int| 0 <= j < at ==> !(#[trigger] tokens[j]).is_operator_of(tier),
    ensures
        first_operator(tokens, tier) == at,
    decreases at,
{
    if at > 0 {
        let rest = tokens.skip(1);
        assert(!tokens[0].is_operator_of(tier));
        assert forall|j: int| 0 <= j < at - 1 implies !(#[trigger] rest[j]).is_operator_of(
            tier,
        ) by {
            assert(rest[j] == tokens[j + 1]);
        }
        lemma_first_operator_is(rest, tier, at - 1);
    }
}

/// A pass leaves alone what stands before the literal that its first
/// contraction consumes: tokens in front that hold no operator of the tier
/// come out as they went in, and only shift the positions behind them.
pub proof fn lemma_contract_behind(
    front: Seq<MathsArg>,
    rest: Seq<MathsArg>,
    tier: Tier,
    removed: nat,
)
    requires
        forall|j: int| 0 <= j < front.len() ==> !(#[trigger] front[j]).is_operator_of(tier),
        rest.len() > 0 ==> !rest[0].is_operator_of(tier),
    ensures
        contract_tier(front + rest, tier, removed) == behind(
            front,
            contract_tier(rest, tier, removed + front.len()),
        ),
    decreases rest.len(),
{
    let whole = front + rest;
    let at = first_operator(rest, tier);
    lemma_first_operator(rest, tier);
    assert forall|j: int| 0 <= j < front.len() + at implies !(#[trigger] whole[j]).is_operator_of(
        tier,
    ) by {
        if j < front.len() {
            assert(whole[j] == front[j]);
        } else {
            assert(whole[j] == rest[j - front.len()]);
        }
    }
    if at < rest.len() {
        assert(whole[front.len() + at] == rest[at]);
    }
    lemma_first_operator_is(whole, tier, front.len() + at);
    if 0 < at < rest.len() - 1 {
        assert(whole[front.len() + at - 1] == rest[at - 1]);
        assert(whole[front.len() + at + 1] == rest[at + 1]);
        match step(
            rest[at]->Op_0,
            rest[at - 1]->Int_0,
            rest[at + 1]->Int_0,
            (at + 1 + removed + front.len()) as usize,
        ) {
            Ok(value) => {
                let shorter = contracted(rest, at, value);
                assert(contracted(whole, front.len() + at, value) =~= front + shorter);
                assert(!shorter[0].is_operator_of(tier)) by {
                    if at > 1 {
                        assert(shorter[0] == rest[0]);
                    }
                }
                lemma_contract_behind(front, shorter, tier, removed + 2);
            },
            Err(_) => {},
        }
    }
}

} // verus!
