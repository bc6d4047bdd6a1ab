//! The whole pipeline, from a line of text to its value.

use vstd::prelude::*;
use crate::arithmetic::{exact_result, step};
use crate::contraction::reduction;
use crate::fold::lemma_two_operands;
use crate::reducer::reduce_maths_vector;
use crate::token::{well_formed, EvaluationError, MathsArg, Operator};
use crate::tokenizer::{
    classify, decimal_text, lemma_decimal_text_is_literal, lemma_operator_text_is_symbol,
    lemma_token_word, lemma_tokenization_succeeds, operator_text, parse_maths_vector,
    tokenization,
};
use crate::validator::{lemma_validation_accepts, validate_maths_vector, validation};
use crate::words::{lemma_words_of_joined, lemma_words_of_single, split_words, words_of};

verus! {

/// The value of an equation: its words are tokenized, the tokens validated
/// and the valid sequence reduced. The first stage that fails decides the
/// error.
pub open spec fn evaluation(equation: Seq<char>) -> Result<i32, EvaluationError> {
    match tokenization(words_of(equation)) {
        Err(error) => Err(error),
        Ok(tokens) => match validation(tokens) {
            Err(error) => Err(error),
            Ok(valid) => reduction(valid),
        },
    }
}

/// Evaluates an equation such as `1 + 5 * 2`.
pub fn parse_maths_equation(equation: String) -> (result: Result<i32, EvaluationError>)
    ensures
        result == evaluation(equation@),
{
    let words = split_words(equation.as_str());
    let tokens = match parse_maths_vector(words) {
        Ok(tokens) => tokens,
        Err(error) => {
            return Err(error);
        },
    };
    let valid = match validate_maths_vector(tokens) {
        Ok(valid) => valid,
        Err(error) => {
            return Err(error);
        },
    };
    reduce_maths_vector(valid)
}

/// Where the words of an equation stand for a well-formed token sequence,
/// the equation evaluates to what the sequence reduces to. Whatever holds of
/// the reduction of tokens holds of the evaluation of their text.
pub proof fn lemma_evaluation_reduces_tokens(equation: Seq<char>, tokens: Seq<MathsArg>)
    requires
        tokenization(words_of(equation)) == Ok::<Seq<MathsArg>, EvaluationError>(tokens),
        well_formed(tokens),
    ensures
        evaluation(equation) == reduction(tokens),
{
    lemma_validation_accepts(tokens);
}

/// An equation of two literals around one operator, a space between each
/// two of them, evaluates to one arithmetic step on the numbers that the
/// literals denote: to the exact result, with division rounded toward
/// zero, wherever the divisor is not zero and the result fits in 32 bits.
pub proof fn lemma_two_operand_equation(
    left_word: Seq<char>,
    symbol: Seq<char>,
    right_word: Seq<char>,
    left: i32,
    operator: Operator,
    right: i32,
)
    requires
        classify(left_word) == Some(MathsArg::Int(left)),
        classify(symbol) == Some(MathsArg::Op(operator)),
        classify(right_word) == Some(MathsArg::Int(right)),
    ensures
        evaluation(left_word + seq![' '] + symbol + seq![' '] + right_word) == step(
            operator,
            left,
            right,
            2,
        ),
        !(operator == Operator::Divisor && right == 0) && i32::MIN <= exact_result(
            operator,
            left as int,
            right as int,
        ) <= i32::MAX ==> evaluation(left_word + seq![' '] + symbol + seq![' '] + right_word)
            == Ok::<i32, EvaluationError>(
            exact_result(operator, left as int, right as int) as i32,
        ),
{
    let text = left_word + seq![' '] + symbol + seq![' '] + right_word;
    let words = seq![left_word, symbol, right_word];
    let tokens = seq![MathsArg::Int(left), MathsArg::Op(operator), MathsArg::Int(right)];
    assert(words_of(text) == words) by {
        lemma_token_word(left_word);
        lemma_token_word(symbol);
        lemma_token_word(right_word);
        let tail = symbol + seq![' '] + right_word;
        assert(text =~= left_word + seq![' '] + tail);
        lemma_words_of_joined(left_word, tail);
        lemma_words_of_joined(symbol, right_word);
        lemma_words_of_single(right_word);
        assert(seq![left_word] + (seq![symbol] + seq![right_word]) =~= words);
    }
    lemma_tokenization_succeeds(words, tokens);
    lemma_validation_accepts(tokens);
    lemma_two_operands(left, operator, right);
}

/// Two numbers written out in base ten around an operator symbol, a space
/// between each two of them, evaluate to one arithmetic step on the
/// numbers.
pub proof fn lemma_two_numbers_equation(left: i32, operator: Operator, right: i32)
    ensures
        evaluation(
            decimal_text(left as int) + seq![' '] + operator_text(operator) + seq![' ']
                + decimal_text(right as int),
        ) == step(operator, left, right, 2),
        !(operator == Operator::Divisor && right == 0) && i32::MIN <= exact_result(
            operator,
            left as int,
            right as int,
        ) <= i32::MAX ==> evaluation(
            decimal_text(left as int) + seq![' '] + operator_text(operator) + seq![' ']
                + decimal_text(right as int),
        ) == Ok::<i32, EvaluationError>(exact_result(operator, left as int, right as int) as i32),
{
    lemma_decimal_text_is_literal(left);
    lemma_operator_text_is_symbol(operator);
    lemma_decimal_text_is_literal(right);
    lemma_two_operand_equation(
        decimal_text(left as int),
        operator_text(operator),
        decimal_text(right as int),
        left,
        operator,
        right,
    );
}

} // verus!
