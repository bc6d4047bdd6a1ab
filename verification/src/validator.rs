//! The shape check that stands between tokens and their evaluation.

use vstd::prelude::*;
use crate::token::{well_formed, EvaluationError, MathsArg, TokenKind};

verus! {

/// The kind of token that belongs at `index`: literals at even indices,
/// operators at odd ones.
pub open spec fn expected_kind(index: int) -> TokenKind {
    if index % 2 == 0 {
        TokenKind::Literal
    } else {
        TokenKind::Operator
    }
}

/// Whether the token at `index` is of another kind than its index calls for.
pub open spec fn misplaced(tokens: Seq<MathsArg>, index: int) -> bool {
    0 <= index < tokens.len() && tokens[index].kind() != expected_kind(index)
}

/// Index of the leftmost misplaced token, or the length of `tokens` where
/// every token is in place.
pub open spec fn first_misplaced(tokens: Seq<MathsArg>) -> int
    decreases tokens.len(),
{
    if tokens.len() == 0 {
        0
    } else {
        let before = first_misplaced(tokens.drop_last());
        if before < tokens.len() - 1 || misplaced(tokens, tokens.len() - 1) {
            before
        } else {
            tokens.len() as int
        }
    }
}

/// What validation makes of a token sequence: it rejects the empty sequence,
/// then the leftmost token that is out of place, then a sequence that ends
/// on an operator, and hands back unchanged what passes all three.
pub open spec fn validation(tokens: Seq<MathsArg>) -> Result<Seq<MathsArg>, EvaluationError> {
    let index = first_misplaced(tokens);
    if tokens.len() == 0 {
        Err(EvaluationError::EmptyExpression)
    } else if index < tokens.len() {
        Err(
            EvaluationError::OutOfOrderTokens {
                index: index as usize,
                expected: expected_kind(index),
            },
        )
    } else if tokens.len() % 2 == 0 {
        Err(EvaluationError::IncompleteExpression)
    } else {
        Ok(tokens)
    }
}

/// `first_misplaced` is the least index of a misplaced token, or the length
/// where there is none.
pub proof fn lemma_first_misplaced(tokens: Seq<MathsArg>)
    ensures
        0 <= first_misplaced(tokens) <= tokens.len(),
        first_misplaced(tokens) < tokens.len() ==> misplaced(tokens, first_misplaced(tokens)),
        forall|j: int| 0 <= j < first_misplaced(tokens) ==> !misplaced(tokens, j),
    decreases tokens.len(),
{
    if tokens.len() > 0 {
        let front = tokens.drop_last();
        lemma_first_misplaced(front);
        assert forall|j: int| 0 <= j < first_misplaced(tokens) implies !misplaced(tokens, j) by {
            if j < front.len() {
                assert(front[j] == tokens[j]);
                assert(!misplaced(front, j));
            }
        }
        if first_misplaced(front) < front.len() {
            assert(front[first_misplaced(front)] == tokens[first_misplaced(front)]);
        }
    }
}

/// Validation succeeds on the well-formed sequences and on no others.
pub proof fn lemma_validation_accepts(tokens: Seq<MathsArg>)
    ensures
        validation(tokens) is Ok <==> well_formed(tokens),
        validation(tokens) is Ok ==> validation(tokens) == Ok::<Seq<MathsArg>, EvaluationError>(
            tokens,
        ),
{
    lemma_first_misplaced(tokens);
    if validation(tokens) is Ok {
        assert forall|i: int| 0 <= i < tokens.len() implies ((#[trigger] tokens[i]) is Int <==> i
            % 2 == 0) by {
            assert(!misplaced(tokens, i));
        }
    }
    if well_formed(tokens) {
        if first_misplaced(tokens) < tokens.len() {
            assert(misplaced(tokens, first_misplaced(tokens)));
        }
    }
}

/// Validating twice is validating once: what validation hands back is what
/// it was given, and is accepted again and handed back again.
pub proof fn lemma_validation_idempotent(tokens: Seq<MathsArg>)
    ensures
        validation(tokens) matches Ok(valid) ==> valid == tokens && validation(valid) == Ok::<
            Seq<MathsArg>,
            EvaluationError,
        >(valid),
{
}

/// A misplaced token found in a prefix is the first one of the whole
/// sequence too.
pub proof fn lemma_misplaced_stays(tokens: Seq<MathsArg>, upto: int)
    requires
        0 <= upto <= tokens.len(),
        first_misplaced(tokens.take(upto)) < upto,
    ensures
        first_misplaced(tokens) == first_misplaced(tokens.take(upto)),
    decreases tokens.len() - upto,
{
    if upto < tokens.len() {
        assert(tokens.take(upto + 1).drop_last() =~= tokens.take(upto));
        lemma_misplaced_stays(tokens, upto + 1);
    } else {
        assert(tokens.take(upto) =~= tokens);
    }
}

/// Checks that `vector` is shaped like an expression and returns it
/// unchanged if it is.
pub fn validate_maths_vector(vector: Vec<MathsArg>) -> (result: Result<
    Vec<MathsArg>,
    EvaluationError,
>)
    ensures
        match result {
            Ok(valid) => validation(vector@) == Ok::<Seq<MathsArg>, EvaluationError>(valid@),
            Err(error) => validation(vector@) == Err::<Seq<MathsArg>, EvaluationError>(error),
        },
        result matches Ok(valid) ==> valid@ == vector@ && well_formed(valid@),
{
    let len: usize = vector.len();
    if len == 0 {
        return Err(EvaluationError::EmptyExpression);
    }
    let mut index: usize = 0;
    while index < len
        invariant
            len == vector@.len(),
            0 <= index <= len,
            first_misplaced(vector@.take(index as int)) == index,
        decreases len - index,
    {
        let expected = if index % 2 == 0 {
            TokenKind::Literal
        } else {
            TokenKind::Operator
        };
        let found = match vector[index] {
            MathsArg::Int(_) => TokenKind::Literal,
            MathsArg::Op(_) => TokenKind::Operator,
        };
        proof {
            assert(vector@.take(index + 1).drop_last() =~= vector@.take(index as int));
        }
        if found != expected {
            proof {
                lemma_misplaced_stays(vector@, index + 1);
            }
            return Err(EvaluationError::OutOfOrderTokens { index, expected });
        }
        index = index + 1;
    }
    proof {
        assert(vector@.take(len as int) =~= vector@);
        lemma_validation_accepts(vector@);
    }
    if len % 2 == 0 {
        return Err(EvaluationError::IncompleteExpression);
    }
    Ok(vector)
}

} // verus!
