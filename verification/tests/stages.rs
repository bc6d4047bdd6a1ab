use maths::{
    apply_operator, classify_word, contract_products, fold_left, parse_maths_vector,
    reduce_maths_vector, split_words, validate_maths_vector, EvaluationError, MathsArg, Operator,
    Tier, TokenKind,
};

fn lit(value: i32) -> MathsArg {
    MathsArg::Int(value)
}

fn op(operator: Operator) -> MathsArg {
    MathsArg::Op(operator)
}

/// Evaluates well-formed tokens by recursive descent, for comparison.
struct Descent {
    tokens: Vec<MathsArg>,
    at: usize,
}

impl Descent {
    fn literal(&mut self) -> i64 {
        let value = match self.tokens[self.at] {
            MathsArg::Int(value) => value as i64,
            MathsArg::Op(_) => panic!("literal expected"),
        };
        self.at += 1;
        value
    }

    fn operator(&self) -> Option<Operator> {
        match self.tokens.get(self.at) {
            Some(MathsArg::Op(operator)) => Some(*operator),
            _ => None,
        }
    }

    fn term(&mut self) -> i64 {
        let mut value = self.literal();
        loop {
            match self.operator() {
                Some(Operator::Times) => {
                    self.at += 1;
                    value *= self.literal();
                }
                Some(Operator::Divisor) => {
                    self.at += 1;
                    value /= self.literal();
                }
                _ => return value,
            }
        }
    }

    fn expression(&mut self) -> i64 {
        let mut value = self.term();
        loop {
            match self.operator() {
                Some(Operator::Plus) => {
                    self.at += 1;
                    value += self.term();
                }
                Some(Operator::Minus) => {
                    self.at += 1;
                    value -= self.term();
                }
                _ => return value,
            }
        }
    }
}

fn descend(tokens: &[MathsArg]) -> i64 {
    let mut descent = Descent {
        tokens: tokens.to_vec(),
        at: 0,
    };
    descent.expression()
}

fn left_fold(tokens: &[MathsArg]) -> i64 {
    let mut value = match tokens[0] {
        MathsArg::Int(value) => value as i64,
        MathsArg::Op(_) => panic!("literal expected"),
    };
    let mut at = 1;
    while at < tokens.len() {
        let right = match tokens[at + 1] {
            MathsArg::Int(value) => value as i64,
            MathsArg::Op(_) => panic!("literal expected"),
        };
        value = match tokens[at] {
            MathsArg::Op(Operator::Plus) => value + right,
            MathsArg::Op(Operator::Minus) => value - right,
            MathsArg::Op(Operator::Times) => value * right,
            MathsArg::Op(Operator::Divisor) => value / right,
            MathsArg::Int(_) => panic!("operator expected"),
        };
        at += 2;
    }
    value
}

/// Every expression of `operators` + 1 literals drawn from `literals`, with
/// operators drawn from `symbols`.
fn expressions(literals: &[i32], symbols: &[Operator], operators: usize) -> Vec<Vec<MathsArg>> {
    let mut all: Vec<Vec<MathsArg>> = literals.iter().map(|&value| vec![lit(value)]).collect();
    for _ in 0..operators {
        let mut longer = Vec::new();
        for tokens in all.iter() {
            for &symbol in symbols.iter() {
                for &value in literals.iter() {
                    let mut next = tokens.clone();
                    next.push(op(symbol));
                    next.push(lit(value));
                    longer.push(next);
                }
            }
        }
        all = longer;
    }
    all
}

const ALL: [Operator; 4] = [
    Operator::Plus,
    Operator::Minus,
    Operator::Times,
    Operator::Divisor,
];

#[test]
fn splits_at_every_space() {
    assert_eq!(split_words("2 + 8 - 4"), vec!["2", "+", "8", "-", "4"]);
    assert_eq!(split_words("  12   x  "), vec!["12", "x"]);
    assert_eq!(split_words("one"), vec!["one"]);
    assert_eq!(split_words("a\tb c"), vec!["a\tb", "c"]);
}

#[test]
fn splits_nothing_out_of_nothing() {
    assert_eq!(split_words(""), Vec::<&str>::new());
    assert_eq!(split_words(" "), Vec::<&str>::new());
    assert_eq!(split_words("     "), Vec::<&str>::new());
}

#[test]
fn splits_text_outside_of_ascii() {
    assert_eq!(
        split_words("\u{e9}t\u{e9} \u{1f600}  3 \u{d7}"),
        vec!["\u{e9}t\u{e9}", "\u{1f600}", "3", "\u{d7}"]
    );
    assert_eq!(split_words(" \u{3b1}"), vec!["\u{3b1}"]);
}

#[test]
fn classifies_the_operator_symbols() {
    assert_eq!(classify_word("+"), Some(op(Operator::Plus)));
    assert_eq!(classify_word("-"), Some(op(Operator::Minus)));
    assert_eq!(classify_word("*"), Some(op(Operator::Times)));
    assert_eq!(classify_word("x"), Some(op(Operator::Times)));
    assert_eq!(classify_word("/"), Some(op(Operator::Divisor)));
}

#[test]
fn classifies_integer_literals() {
    assert_eq!(classify_word("0"), Some(lit(0)));
    assert_eq!(classify_word("12"), Some(lit(12)));
    assert_eq!(classify_word("-2"), Some(lit(-2)));
    assert_eq!(classify_word("+2"), Some(lit(2)));
    assert_eq!(classify_word("0012"), Some(lit(12)));
    assert_eq!(classify_word("2147483647"), Some(lit(i32::MAX)));
    assert_eq!(classify_word("-2147483648"), Some(lit(i32::MIN)));
    assert_eq!(classify_word("1234567890"), Some(lit(1234567890)));
}

#[test]
fn classifies_nothing_else() {
    for word in [
        "", "--", "++", "+-1", "-+1", "--1", "1-", "1+", "xx", "X", "**", "//", "1x", "x1", "1 2",
        " 1", "1 ", "0x10", "1e3", "1.0", "1,000", "1_000", "2147483648", "-2147483649",
        "4294967296", "18446744073709551616", "\u{661}", "\u{ff11}", "\u{2212}1",
    ] {
        assert_eq!(classify_word(word), None, "{:?}", word);
    }
}

#[test]
fn classifies_as_the_standard_parser_does() {
    for word in [
        "0", "-0", "+0", "1", "-1", "+1", "10", "99", "100", "2147483647", "2147483648",
        "-2147483648", "-2147483649", "000", "-000", "00001", "a", "1a", "a1", "", "+", "-", "- 1",
    ] {
        let expected = match word {
            "+" => Some(op(Operator::Plus)),
            "-" => Some(op(Operator::Minus)),
            other => other.parse::<i32>().ok().map(lit),
        };
        assert_eq!(classify_word(word), expected, "{:?}", word);
    }
}

#[test]
fn tokenizes_word_by_word() {
    assert_eq!(
        parse_maths_vector(vec!["2", "+", "8", "-", "4", "*", "3", "/", "2"]),
        Ok(vec![
            lit(2),
            op(Operator::Plus),
            lit(8),
            op(Operator::Minus),
            lit(4),
            op(Operator::Times),
            lit(3),
            op(Operator::Divisor),
            lit(2)
        ])
    );
    assert_eq!(parse_maths_vector(vec![]), Ok(vec![]));
}

#[test]
fn tokenizing_does_not_judge_the_shape() {
    assert_eq!(
        parse_maths_vector(vec!["+", "3", "2"]),
        Ok(vec![op(Operator::Plus), lit(3), lit(2)])
    );
    assert_eq!(
        parse_maths_vector(vec!["x", "x"]),
        Ok(vec![op(Operator::Times), op(Operator::Times)])
    );
}

#[test]
fn tokenizing_stops_at_the_leftmost_malformed_word() {
    assert_eq!(
        parse_maths_vector(vec!["1", "+", "one", "+", "two"]),
        Err(EvaluationError::MalformedToken { index: 2 })
    );
    assert_eq!(
        parse_maths_vector(vec![""]),
        Err(EvaluationError::MalformedToken { index: 0 })
    );
}

#[test]
fn validation_hands_back_what_it_accepts() {
    let tokens = vec![lit(1), op(Operator::Plus), lit(5), op(Operator::Times), lit(2)];
    assert_eq!(validate_maths_vector(tokens.clone()), Ok(tokens));
    assert_eq!(validate_maths_vector(vec![lit(9)]), Ok(vec![lit(9)]));
}

#[test]
fn validating_twice_is_validating_once() {
    for tokens in expressions(&[-3, 0, 7], &ALL, 2) {
        let once = validate_maths_vector(tokens.clone()).unwrap();
        assert_eq!(once, tokens);
        assert_eq!(validate_maths_vector(once.clone()), Ok(once));
    }
}

#[test]
fn validation_rejects_the_empty_sequence() {
    assert_eq!(
        validate_maths_vector(vec![]),
        Err(EvaluationError::EmptyExpression)
    );
}

#[test]
fn validation_names_the_leftmost_misplaced_token() {
    assert_eq!(
        validate_maths_vector(vec![op(Operator::Plus), lit(3), lit(2)]),
        Err(EvaluationError::OutOfOrderTokens {
            index: 0,
            expected: TokenKind::Literal
        })
    );
    assert_eq!(
        validate_maths_vector(vec![lit(3), lit(2), lit(1)]),
        Err(EvaluationError::OutOfOrderTokens {
            index: 1,
            expected: TokenKind::Operator
        })
    );
    assert_eq!(
        validate_maths_vector(vec![
            lit(3),
            op(Operator::Minus),
            op(Operator::Minus),
            op(Operator::Minus)
        ]),
        Err(EvaluationError::OutOfOrderTokens {
            index: 2,
            expected: TokenKind::Literal
        })
    );
}

#[test]
fn validation_rejects_a_trailing_operator() {
    assert_eq!(
        validate_maths_vector(vec![lit(3), op(Operator::Plus)]),
        Err(EvaluationError::IncompleteExpression)
    );
    assert_eq!(
        validate_maths_vector(vec![lit(3), op(Operator::Plus), lit(1), op(Operator::Divisor)]),
        Err(EvaluationError::IncompleteExpression)
    );
}

#[test]
fn reduces_a_single_literal() {
    assert_eq!(reduce_maths_vector(vec![lit(-5)]), Ok(-5));
}

#[test]
fn reduces_by_precedence() {
    assert_eq!(
        reduce_maths_vector(vec![
            lit(2),
            op(Operator::Plus),
            lit(8),
            op(Operator::Minus),
            lit(4),
            op(Operator::Times),
            lit(3),
            op(Operator::Divisor),
            lit(2)
        ]),
        Ok(4)
    );
}

#[test]
fn the_multiplicative_pass_leaves_sums() {
    let mut tokens = vec![
        lit(2),
        op(Operator::Plus),
        lit(8),
        op(Operator::Minus),
        lit(4),
        op(Operator::Times),
        lit(3),
        op(Operator::Divisor),
        lit(2),
    ];
    assert_eq!(contract_products(&mut tokens), Ok(()));
    assert_eq!(
        tokens,
        vec![lit(2), op(Operator::Plus), lit(8), op(Operator::Minus), lit(6)]
    );
}

#[test]
fn the_multiplicative_pass_resolves_products_wherever_they_stand() {
    let mut tokens = vec![
        lit(6),
        op(Operator::Divisor),
        lit(4),
        op(Operator::Plus),
        lit(5),
        op(Operator::Minus),
        lit(3),
        op(Operator::Times),
        lit(3),
        op(Operator::Times),
        lit(-1),
        op(Operator::Plus),
        lit(9),
        op(Operator::Divisor),
        lit(9),
    ];
    assert_eq!(contract_products(&mut tokens), Ok(()));
    assert_eq!(
        tokens,
        vec![
            lit(1),
            op(Operator::Plus),
            lit(5),
            op(Operator::Minus),
            lit(-9),
            op(Operator::Plus),
            lit(1)
        ]
    );
}

#[test]
fn the_multiplicative_pass_leaves_sums_alone() {
    let sums = vec![lit(1), op(Operator::Minus), lit(2), op(Operator::Plus), lit(3)];
    let mut tokens = sums.clone();
    assert_eq!(contract_products(&mut tokens), Ok(()));
    assert_eq!(tokens, sums);

    let mut single = vec![lit(11)];
    assert_eq!(contract_products(&mut single), Ok(()));
    assert_eq!(single, vec![lit(11)]);
}

#[test]
fn the_multiplicative_pass_stops_at_its_first_failure() {
    let mut tokens = vec![
        lit(1),
        op(Operator::Plus),
        lit(65536),
        op(Operator::Times),
        lit(65536),
        op(Operator::Divisor),
        lit(0),
    ];
    assert_eq!(
        contract_products(&mut tokens),
        Err(EvaluationError::ArithmeticOverflow {
            operator: Operator::Times,
            left: 65536,
            right: 65536
        })
    );
}

#[test]
fn folding_knows_no_precedence() {
    assert_eq!(
        fold_left(&vec![lit(1), op(Operator::Plus), lit(5), op(Operator::Times), lit(2)]),
        Ok(12)
    );
    assert_eq!(fold_left(&vec![lit(3)]), Ok(3));
    assert_eq!(
        fold_left(&vec![lit(1), op(Operator::Plus), lit(1), op(Operator::Divisor), lit(0)]),
        Err(EvaluationError::DivisionByZero { position: 4 })
    );
}

#[test]
fn a_chain_of_one_tier_reduces_as_it_folds() {
    for symbols in [
        [Operator::Times, Operator::Divisor],
        [Operator::Plus, Operator::Minus],
    ] {
        for operators in 0..4 {
            for tokens in expressions(&[i32::MIN, -1, 0, 2, 46341], &symbols, operators) {
                assert_eq!(
                    reduce_maths_vector(tokens.clone()),
                    fold_left(&tokens),
                    "{:?}",
                    tokens
                );
            }
        }
    }
}

#[test]
fn reduction_agrees_with_recursive_descent() {
    for operators in 0..4 {
        for tokens in expressions(&[-7, 2, 3], &ALL, operators) {
            assert_eq!(
                reduce_maths_vector(tokens.clone()).map(|value| value as i64),
                Ok(descend(&tokens)),
                "{:?}",
                tokens
            );
        }
    }
}

#[test]
fn a_chain_of_one_tier_reduces_to_its_left_fold() {
    for symbols in [
        [Operator::Times, Operator::Divisor],
        [Operator::Plus, Operator::Minus],
    ] {
        for operators in 2..5 {
            for tokens in expressions(&[-5, 1, 4], &symbols, operators) {
                assert_eq!(
                    reduce_maths_vector(tokens.clone()).map(|value| value as i64),
                    Ok(left_fold(&tokens)),
                    "{:?}",
                    tokens
                );
            }
        }
    }
}

#[test]
fn reduction_fails_on_a_zero_divisor_whatever_surrounds_it() {
    for tokens in expressions(&[0, 6], &ALL, 3) {
        let zero = (1..tokens.len())
            .find(|&at| tokens[at] == lit(0) && tokens[at - 1] == op(Operator::Divisor));
        let outcome = reduce_maths_vector(tokens.clone());
        match zero {
            Some(position) => assert_eq!(
                outcome,
                Err(EvaluationError::DivisionByZero { position }),
                "{:?}",
                tokens
            ),
            None => assert_eq!(
                outcome.map(|value| value as i64),
                Ok(descend(&tokens)),
                "{:?}",
                tokens
            ),
        }
    }
}

#[test]
fn applies_each_operator() {
    assert_eq!(apply_operator(Operator::Plus, 10, 2, 2), Ok(12));
    assert_eq!(apply_operator(Operator::Minus, 2, 10, 2), Ok(-8));
    assert_eq!(apply_operator(Operator::Times, 10, -2, 2), Ok(-20));
    assert_eq!(apply_operator(Operator::Divisor, 21, 7, 2), Ok(3));
    assert_eq!(apply_operator(Operator::Divisor, -9, 2, 2), Ok(-4));
}

#[test]
fn applying_reports_a_zero_divisor_at_the_position_given() {
    assert_eq!(
        apply_operator(Operator::Divisor, 1, 0, 6),
        Err(EvaluationError::DivisionByZero { position: 6 })
    );
    assert_eq!(
        apply_operator(Operator::Divisor, i32::MIN, 0, 0),
        Err(EvaluationError::DivisionByZero { position: 0 })
    );
}

#[test]
fn applying_reports_every_overflow() {
    let overflow = |operator, left, right| {
        Err(EvaluationError::ArithmeticOverflow {
            operator,
            left,
            right,
        })
    };
    assert_eq!(
        apply_operator(Operator::Plus, i32::MAX, 1, 2),
        overflow(Operator::Plus, i32::MAX, 1)
    );
    assert_eq!(
        apply_operator(Operator::Plus, i32::MIN, -1, 2),
        overflow(Operator::Plus, i32::MIN, -1)
    );
    assert_eq!(
        apply_operator(Operator::Minus, i32::MIN, 1, 2),
        overflow(Operator::Minus, i32::MIN, 1)
    );
    assert_eq!(
        apply_operator(Operator::Minus, 0, i32::MIN, 2),
        overflow(Operator::Minus, 0, i32::MIN)
    );
    assert_eq!(
        apply_operator(Operator::Times, i32::MIN, -1, 2),
        overflow(Operator::Times, i32::MIN, -1)
    );
    assert_eq!(
        apply_operator(Operator::Divisor, i32::MIN, -1, 2),
        overflow(Operator::Divisor, i32::MIN, -1)
    );
    assert_eq!(apply_operator(Operator::Times, 46341, 46341, 2), overflow(Operator::Times, 46341, 46341));
    assert_eq!(apply_operator(Operator::Times, 46340, 46340, 2), Ok(2147395600));
}

#[test]
fn operators_know_their_tier() {
    assert_eq!(Operator::Times.precedence(), Tier::Multiplicative);
    assert_eq!(Operator::Divisor.precedence(), Tier::Multiplicative);
    assert_eq!(Operator::Plus.precedence(), Tier::Additive);
    assert_eq!(Operator::Minus.precedence(), Tier::Additive);
}

#[test]
fn an_operator_is_had_from_a_reference() {
    for operator in ALL {
        assert_eq!(Operator::from(&operator), operator);
    }
}

#[test]
fn tokens_give_up_what_they_hold() {
    assert_eq!(lit(5).literal(), 5);
    assert_eq!(op(Operator::Divisor).operator(), Operator::Divisor);
}
