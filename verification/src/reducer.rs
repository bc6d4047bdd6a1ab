//! The reducer: a well-formed token sequence goes in, its value comes out.
//!
//! Both passes run over the tokens once. The multiplicative pass keeps the
//! tokens it is done with at the front of the vector, so that the literal a
//! `*` or `/` applies to is always the last one kept, and nothing is ever
//! moved twice or searched for.

use vstd::prelude::*;
use crate::arithmetic::apply_operator;
use crate::contraction::{contract_tier, contracted, lemma_first_operator_is, reduction};
use crate::fold::{fold_left, lemma_pass_folds, single_tier_from};
use crate::token::{well_formed, EvaluationError, MathsArg, Tier};

verus! {

/// Runs the multiplicative pass on `tokens` in place: every `*` and `/`
/// gives way, with its two literals, to their product or quotient, and a
/// chain of `+` and `-` is left. On failure the tokens are left in no
/// particular state.
pub fn contract_products(tokens: &mut Vec<MathsArg>) -> (outcome: Result<(), EvaluationError>)
    requires
        well_formed(old(tokens)@),
    ensures
        match outcome {
            Ok(_) => contract_tier(old(tokens)@, Tier::Multiplicative, 0) == Ok::<
                Seq<MathsArg>,
                EvaluationError,
            >(final(tokens)@),
            Err(error) => contract_tier(old(tokens)@, Tier::Multiplicative, 0) == Err::<
                Seq<MathsArg>,
                EvaluationError,
            >(error),
        },
        outcome is Ok ==> well_formed(final(tokens)@) && single_tier_from(
            final(tokens)@,
            0,
            Tier::Additive,
        ),
{
    let ghost given = tokens@;
    let len: usize = tokens.len();
    // `tokens[..kept]` is what the pass has made so far of `given[..next]`.
    let mut kept: usize = 1;
    let mut next: usize = 1;
    assert(tokens@.subrange(0, 1) + given.subrange(1, len as int) =~= given);
    while next < len
        invariant
            given == old(tokens)@,
            well_formed(given),
            tokens@.len() == len == given.len(),
            1 <= kept <= next <= len,
            kept % 2 == 1,
            next % 2 == 1,
            forall|j: int| next <= j < len ==> tokens@[j] == given[j],
            forall|j: int| 0 <= j < kept ==> ((#[trigger] tokens@[j]) is Int <==> j % 2 == 0),
            forall|j: int|
                0 <= j < kept ==> !(#[trigger] tokens@[j]).is_operator_of(Tier::Multiplicative),
            contract_tier(given, Tier::Multiplicative, 0) == contract_tier(
                tokens@.subrange(0, kept as int) + given.subrange(next as int, len as int),
                Tier::Multiplicative,
                (next - kept) as nat,
            ),
        decreases len - next,
    {
        let ghost current = tokens@.subrange(0, kept as int) + given.subrange(
            next as int,
            len as int,
        );
        assert(tokens@[next as int] == given[next as int]);
        assert(tokens@[next + 1] == given[next + 1]);
        let operator = tokens[next].operator();
        let right: i32 = tokens[next + 1].literal();
        match operator.precedence() {
            Tier::Multiplicative => {
                let left: i32 = tokens[kept - 1].literal();
                proof {
                    assert(current[kept as int] == given[next as int]);
                    assert(current[kept + 1] == given[next + 1]);
                    assert(current[kept - 1] == tokens@[kept - 1]);
                    lemma_first_operator_is(current, Tier::Multiplicative, kept as int);
                }
                match apply_operator(operator, left, right, next + 1) {
                    Err(error) => {
                        return Err(error);
                    },
                    Ok(value) => {
                        tokens.set(kept - 1, MathsArg::Int(value));
                        proof {
                            assert(tokens@.subrange(0, kept as int) + given.subrange(
                                next + 2,
                                len as int,
                            ) =~= contracted(current, kept as int, value));
                        }
                    },
                }
            },
            Tier::Additive => {
                tokens.set(kept, MathsArg::Op(operator));
                tokens.set(kept + 1, MathsArg::Int(right));
                kept = kept + 2;
                proof {
                    assert(tokens@.subrange(0, kept as int) + given.subrange(
                        next + 2,
                        len as int,
                    ) =~= current);
                }
            },
        }
        next = next + 2;
    }
    tokens.truncate(kept);
    proof {
        assert(tokens@ + given.subrange(next as int, len as int) =~= tokens@);
        lemma_first_operator_is(tokens@, Tier::Multiplicative, kept as int);
    }
    Ok(())
}

/// Evaluates a well-formed expression: the multiplicative pass first, then
/// the fold of the sums and differences it leaves.
pub fn reduce_maths_vector(vector: Vec<MathsArg>) -> (result: Result<i32, EvaluationError>)
    requires
        well_formed(vector@),
    ensures
        result == reduction(vector@),
{
    let mut tokens = vector;
    match contract_products(&mut tokens) {
        Err(error) => Err(error),
        Ok(_) => {
            proof {
                lemma_pass_folds(tokens@, Tier::Additive);
            }
            fold_left(&tokens)
        },
    }
}

} // verus!
