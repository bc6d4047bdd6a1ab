//! Classification of words as operators or integer literals.

use vstd::prelude::*;
use crate::token::{EvaluationError, MathsArg, Operator};
use crate::words::{is_word, word_texts};

verus! {

/// Whether `c` is one of the ten decimal digits.
pub open spec fn is_digit(c: char) -> bool {
    '0' <= c && c <= '9'
}

/// The number a decimal digit stands for.
pub open spec fn digit_value(c: char) -> int {
    c as int - '0' as int
}

/// Whether `text` holds decimal digits only.
pub open spec fn all_digits(text: Seq<char>) -> bool {
    forall|i: int| 0 <= i < text.len() ==> is_digit(#[trigger] text[i])
}

/// The number that a run of decimal digits denotes in base ten.
pub open spec fn decimal_value(digits: Seq<char>) -> int
    decreases digits.len(),
{
    if digits.len() == 0 {
        0
    } else {
        10 * decimal_value(digits.drop_last()) + digit_value(digits.last())
    }
}

/// Whether `word` begins with a sign.
pub open spec fn has_sign(word: Seq<char>) -> bool {
    word.len() > 0 && (word[0] == '-' || word[0] == '+')
}

/// `word` without its sign, if it has one.
pub open spec fn unsigned_part(word: Seq<char>) -> Seq<char> {
    if has_sign(word) {
        word.skip(1)
    } else {
        word
    }
}

/// The integer that `word` denotes: an optional `+` or `-`, then one or more
/// decimal digits, read in base ten. Words of another shape, and numbers
/// that do not fit in 32 bits, denote nothing.
pub open spec fn literal_value(word: Seq<char>) -> Option<i32> {
    let digits = unsigned_part(word);
    let value = if word.len() > 0 && word[0] == '-' {
        -decimal_value(digits)
    } else {
        decimal_value(digits)
    };
    if digits.len() > 0 && all_digits(digits) && i32::MIN <= value <= i32::MAX {
        Some(value as i32)
    } else {
        None
    }
}

/// The operator that `word` is the symbol of.
pub open spec fn operator_symbol(word: Seq<char>) -> Option<Operator> {
    if word.len() != 1 {
        None
    } else if word[0] == '+' {
        Some(Operator::Plus)
    } else if word[0] == '-' {
        Some(Operator::Minus)
    } else if word[0] == '*' || word[0] == 'x' {
        Some(Operator::Times)
    } else if word[0] == '/' {
        Some(Operator::Divisor)
    } else {
        None
    }
}

/// The token that `word` stands for: an operator where the word is an
/// operator symbol, else a literal where it denotes an integer.
pub open spec fn classify(word: Seq<char>) -> Option<MathsArg> {
    match operator_symbol(word) {
        Some(operator) => Some(MathsArg::Op(operator)),
        None => match literal_value(word) {
            Some(value) => Some(MathsArg::Int(value)),
            None => None,
        },
    }
}

/// The decimal digit that stands for `digit`, a number below ten.
pub open spec fn digit_char(digit: nat) -> char {
    if digit == 0 {
        '0'
    } else if digit == 1 {
        '1'
    } else if digit == 2 {
        '2'
    } else if digit == 3 {
        '3'
    } else if digit == 4 {
        '4'
    } else if digit == 5 {
        '5'
    } else if digit == 6 {
        '6'
    } else if digit == 7 {
        '7'
    } else if digit == 8 {
        '8'
    } else {
        '9'
    }
}

/// The digits of `number` in base ten, without leading zeros.
pub open spec fn decimal_digits(number: nat) -> Seq<char>
    decreases number,
{
    if number < 10 {
        seq![digit_char(number)]
    } else {
        decimal_digits(number / 10).push(digit_char(number % 10))
    }
}

/// The usual way to write `value` in base ten: its digits, behind a `-`
/// where it is negative.
pub open spec fn decimal_text(value: int) -> Seq<char> {
    if value < 0 {
        seq!['-'] + decimal_digits((-value) as nat)
    } else {
        decimal_digits(value as nat)
    }
}

/// The symbol that `*`, `/`, `+` or `-` is written with.
pub open spec fn operator_text(operator: Operator) -> Seq<char> {
    match operator {
        Operator::Plus => seq!['+'],
        Operator::Minus => seq!['-'],
        Operator::Times => seq!['*'],
        Operator::Divisor => seq!['/'],
    }
}

/// What tokenizing makes of a sequence of words: the token of each word, in
/// order, unless some word stands for no token, and then the index of the
/// leftmost such word.
pub open spec fn tokenization(words: Seq<Seq<char>>) -> Result<Seq<MathsArg>, EvaluationError>
    decreases words.len(),
{
    if words.len() == 0 {
        Ok(Seq::empty())
    } else {
        match tokenization(words.drop_last()) {
            Err(error) => Err(error),
            Ok(tokens) => match classify(words.last()) {
                Some(token) => Ok(tokens.push(token)),
                None => Err(EvaluationError::MalformedToken { index: (words.len() - 1) as usize }),
            },
        }
    }
}

/// A run of digits denotes a number that is not negative.
pub proof fn lemma_decimal_value_not_negative(digits: Seq<char>)
    requires
        all_digits(digits),
    ensures
        0 <= decimal_value(digits),
    decreases digits.len(),
{
    if digits.len() > 0 {
        lemma_decimal_value_not_negative(digits.drop_last());
        assert(is_digit(digits.last()));
    }
}

/// A run consists of digits exactly if its last character is a digit and
/// what comes before consists of digits.
pub proof fn lemma_all_digits_by_last(text: Seq<char>)
    requires
        text.len() > 0,
    ensures
        all_digits(text) <==> all_digits(text.drop_last()) && is_digit(text.last()),
{
    let front = text.drop_last();
    if all_digits(text) {
        assert forall|i: int| 0 <= i < front.len() implies is_digit(#[trigger] front[i]) by {
            assert(front[i] == text[i]);
        }
        assert(is_digit(text[text.len() - 1]));
    }
    if all_digits(front) && is_digit(text.last()) {
        assert forall|i: int| 0 <= i < text.len() implies is_digit(#[trigger] text[i]) by {
            if i < front.len() {
                assert(front[i] == text[i]);
            }
        }
    }
}

/// Classifies one word, in a single pass over its characters.
pub fn classify_word(word: &str) -> (token: Option<MathsArg>)
    ensures
        token == classify(word@),
{
    // Set as soon as the digits read so far denote more than any 32-bit
    // magnitude; the exact number is then of no interest.
    let ceiling: i64 = 0x8000_0001;
    let mut at_start: bool = true;
    let mut single: bool = false;
    let mut first: char = ' ';
    let mut signed: bool = false;
    let mut digits_only: bool = true;
    let mut magnitude: i64 = 0;
    for c in it: word.chars()
        invariant
            it.seq() == word@,
            ceiling == 0x8000_0001,
            at_start <==> it.index() == 0,
            single <==> it.index() == 1,
            !at_start ==> first == word@[0],
            signed <==> has_sign(word@.take(it.index())),
            digits_only <==> all_digits(unsigned_part(word@.take(it.index()))),
            0 <= magnitude <= ceiling,
            digits_only ==> magnitude == vstd::math::min(
                decimal_value(unsigned_part(word@.take(it.index()))),
                ceiling as int,
            ),
    {
        let ghost before = word@.take(it.index());
        let ghost after = word@.take(it.index() + 1);
        assert(c == word@[it.index()]);
        assert(after.drop_last() =~= before);
        assert(after.last() == c);
        if at_start {
            first = c;
            single = true;
            signed = c == '-' || c == '+';
            assert(unsigned_part(before) =~= Seq::<char>::empty());
        } else {
            single = false;
            assert(after[0] == before[0]);
        }
        if !(at_start && signed) {
            assert(unsigned_part(after).drop_last() =~= unsigned_part(before));
            assert(unsigned_part(after).last() == c);
            proof {
                lemma_all_digits_by_last(unsigned_part(after));
            }
            if c >= '0' && c <= '9' {
                if digits_only {
                    proof {
                        lemma_decimal_value_not_negative(unsigned_part(before));
                    }
                    let digit: i64 = (c as u32 - '0' as u32) as i64;
                    magnitude = magnitude * 10 + digit;
                    if magnitude > ceiling {
                        magnitude = ceiling;
                    }
                }
            } else {
                digits_only = false;
            }
        } else {
            assert(unsigned_part(after) =~= Seq::<char>::empty());
        }
        at_start = false;
    }
    assert(word@.take(word@.len() as int) =~= word@);
    if at_start {
        return None;
    }
    if single {
        if first == '+' {
            return Some(MathsArg::Op(Operator::Plus));
        } else if first == '-' {
            return Some(MathsArg::Op(Operator::Minus));
        } else if first == '*' || first == 'x' {
            return Some(MathsArg::Op(Operator::Times));
        } else if first == '/' {
            return Some(MathsArg::Op(Operator::Divisor));
        }
    }
    if !digits_only || (single && signed) {
        return None;
    }
    let value: i64 = if first == '-' {
        -magnitude
    } else {
        magnitude
    };
    if value < -0x8000_0000 || value > 0x7fff_ffff {
        return None;
    }
    Some(MathsArg::Int(value as i32))
}

/// A word that stands for a token is not empty and holds no space.
pub proof fn lemma_token_word(word: Seq<char>)
    requires
        classify(word) is Some,
    ensures
        is_word(word),
{
    if operator_symbol(word) is None {
        let digits = unsigned_part(word);
        assert forall|i: int| 0 <= i < word.len() implies #[trigger] word[i] != ' ' by {
            if has_sign(word) {
                if i > 0 {
                    assert(is_digit(digits[i - 1]));
                }
            } else {
                assert(is_digit(digits[i]));
            }
        }
    }
}

/// The digits of a number are digits, and denote the number.
pub proof fn lemma_decimal_digits(number: nat)
    ensures
        decimal_digits(number).len() > 0,
        all_digits(decimal_digits(number)),
        decimal_value(decimal_digits(number)) == number,
    decreases number,
{
    let digits = decimal_digits(number);
    if number < 10 {
        assert(digits.drop_last() =~= Seq::<char>::empty());
        assert(decimal_value(digits.drop_last()) == 0);
    } else {
        let front = decimal_digits(number / 10);
        lemma_decimal_digits(number / 10);
        assert(digits.drop_last() =~= front);
        assert(is_digit(digits.last()));
        lemma_all_digits_by_last(digits);
    }
}

/// Every 32-bit integer, written out in base ten, is a literal that
/// stands for it.
pub proof fn lemma_decimal_text_is_literal(value: i32)
    ensures
        classify(decimal_text(value as int)) == Some(MathsArg::Int(value)),
{
    let word = decimal_text(value as int);
    if value < 0 {
        let digits = decimal_digits((-value) as nat);
        lemma_decimal_digits((-value) as nat);
        assert(word[0] == '-');
        assert(word.skip(1) =~= digits);
        assert(operator_symbol(word) is None) by {
            if word.len() == 1 {
                assert(digits.len() == 0);
            }
        }
    } else {
        lemma_decimal_digits(value as nat);
        assert(is_digit(word[0]));
    }
}

/// Every operator has a symbol that stands for it.
pub proof fn lemma_operator_text_is_symbol(operator: Operator)
    ensures
        classify(operator_text(operator)) == Some(MathsArg::Op(operator)),
{
}

/// Tokenizing yields one token for each word, the one the word stands for,
/// and fails exactly on the leftmost word that stands for none.
pub proof fn lemma_tokenization(words: Seq<Seq<char>>)
    ensures
        match tokenization(words) {
            Ok(tokens) => {
                &&& tokens.len() == words.len()
                &&& forall|i: int|
                    0 <= i < words.len() ==> classify(#[trigger] words[i]) == Some(tokens[i])
            },
            Err(error) => exists|index: int|
                {
                    &&& 0 <= index < words.len()
                    &&& error == EvaluationError::MalformedToken { index: index as usize }
                    &&& classify(#[trigger] words[index]) is None
                    &&& forall|i: int| 0 <= i < index ==> classify(#[trigger] words[i]) is Some
                },
        },
    decreases words.len(),
{
    if words.len() > 0 {
        let front = words.drop_last();
        lemma_tokenization(front);
        match tokenization(front) {
            Ok(tokens) => {
                assert forall|i: int| 0 <= i < front.len() implies classify(#[trigger] words[i])
                    == Some(tokens[i]) by {
                    assert(front[i] == words[i]);
                }
                if classify(words.last()) is None {
                    assert(classify(words[words.len() - 1]) is None);
                }
            },
            Err(error) => {
                let index = choose|index: int|
                    {
                        &&& 0 <= index < front.len()
                        &&& error == EvaluationError::MalformedToken { index: index as usize }
                        &&& classify(#[trigger] front[index]) is None
                        &&& forall|i: int| 0 <= i < index ==> classify(#[trigger] front[i]) is Some
                    };
                assert(front[index] == words[index]);
                assert forall|i: int| 0 <= i < index implies classify(#[trigger] words[i])
                    is Some by {
                    assert(front[i] == words[i]);
                }
                assert(classify(words[index]) is None);
            },
        }
    }
}

/// Words that each stand for a token tokenize to those tokens.
pub proof fn lemma_tokenization_succeeds(words: Seq<Seq<char>>, tokens: Seq<MathsArg>)
    requires
        tokens.len() == words.len(),
        forall|i: int| 0 <= i < words.len() ==> classify(#[trigger] words[i]) == Some(tokens[i]),
    ensures
        tokenization(words) == Ok::<Seq<MathsArg>, EvaluationError>(tokens),
    decreases words.len(),
{
    if words.len() > 0 {
        let front = words.drop_last();
        assert forall|i: int| 0 <= i < front.len() implies classify(#[trigger] front[i]) == Some(
            tokens.drop_last()[i],
        ) by {
            assert(front[i] == words[i]);
        }
        lemma_tokenization_succeeds(front, tokens.drop_last());
        assert(classify(words[words.len() - 1]) == Some(tokens[words.len() - 1]));
        assert(tokens.drop_last().push(tokens.last()) =~= tokens);
    } else {
        assert(tokens =~= Seq::<MathsArg>::empty());
    }
}

/// A word that stands for no token fails the tokenizing of every longer
/// sequence in the same way.
pub proof fn lemma_malformed_stays(words: Seq<Seq<char>>, upto: int)
    requires
        0 <= upto <= words.len(),
        tokenization(words.take(upto)) is Err,
    ensures
        tokenization(words) == tokenization(words.take(upto)),
    decreases words.len() - upto,
{
    if upto < words.len() {
        assert(words.take(upto + 1).drop_last() =~= words.take(upto));
        lemma_malformed_stays(words, upto + 1);
    } else {
        assert(words.take(upto) =~= words);
    }
}

/// Classifies every word of `vector`, in order.
pub fn parse_maths_vector(vector: Vec<&str>) -> (result: Result<Vec<MathsArg>, EvaluationError>)
    ensures
        match result {
            Ok(tokens) => tokenization(word_texts(vector@)) == Ok::<
                Seq<MathsArg>,
                EvaluationError,
            >(tokens@),
            Err(error) => tokenization(word_texts(vector@)) == Err::<
                Seq<MathsArg>,
                EvaluationError,
            >(error),
        },
{
    let ghost words = word_texts(vector@);
    let len: usize = vector.len();
    let mut tokens: Vec<MathsArg> = Vec::new();
    let mut index: usize = 0;
    assert(words.take(0) =~= Seq::<Seq<char>>::empty());
    while index < len
        invariant
            words == word_texts(vector@),
            len == vector@.len(),
            0 <= index <= len,
            tokenization(words.take(index as int)) == Ok::<Seq<MathsArg>, EvaluationError>(
                tokens@,
            ),
        decreases len - index,
    {
        proof {
            assert(words.take(index + 1).drop_last() =~= words.take(index as int));
            assert(words.take(index + 1).last() == vector@[index as int]@);
        }
        match classify_word(vector[index]) {
            Some(token) => {
                tokens.push(token);
            },
            None => {
                proof {
                    lemma_malformed_stays(words, index + 1);
                }
                return Err(EvaluationError::MalformedToken { index });
            },
        }
        index = index + 1;
    }
    assert(words.take(len as int) =~= words);
    Ok(tokens)
}

} // verus!
