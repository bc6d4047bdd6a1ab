//! The vocabulary of an expression: operators, tokens and the ways an
//! evaluation can fail.

use vstd::prelude::*;

verus! {

/// Precedence class of an operator.
#[derive(Clone, Copy, Debug, PartialEq, Eq, Structural)]
pub enum Tier {
    /// `*` and `/`, which bind tighter.
    Multiplicative,
    /// `+` and `-`.
    Additive,
}

/// A binary operator.
#[derive(Clone, Copy, Debug, PartialEq, Eq, Structural)]
pub enum Operator {
    /// Addition, written `+`.
    Plus,
    /// Subtraction, written `-`.
    Minus,
    /// Multiplication, written `*` or `x`.
    Times,
    /// Division that truncates toward zero, written `/`.
    Divisor,
}

impl Operator {
    /// The precedence class the operator belongs to.
    pub open spec fn tier(self) -> Tier {
        match self {
            Operator::Times | Operator::Divisor => Tier::Multiplicative,
            Operator::Plus | Operator::Minus => Tier::Additive,
        }
    }

    /// Computes the precedence class of the operator.
    pub fn precedence(self) -> (tier: Tier)
        ensures
            tier == self.tier(),
    {
        match self {
            Operator::Times | Operator::Divisor => Tier::Multiplicative,
            Operator::Plus | Operator::Minus => Tier::Additive,
        }
    }
}

impl<'a> From<&'a Operator> for Operator {
    /// The operator behind the reference.
    fn from(op: &'a Operator) -> (operator: Operator) {
        match op {
            Operator::Times => Operator::Times,
            Operator::Divisor => Operator::Divisor,
            Operator::Plus => Operator::Plus,
            Operator::Minus => Operator::Minus,
        }
    }
}

impl<'a> vstd::std_specs::convert::FromSpecImpl<&'a Operator> for Operator {
    open spec fn obeys_from_spec() -> bool {
        true
    }

    open spec fn from_spec(op: &'a Operator) -> Operator {
        *op
    }
}

/// One token of an expression.
#[derive(Clone, Copy, Debug, PartialEq, Eq, Structural)]
pub enum MathsArg {
    /// An operator symbol.
    Op(Operator),
    /// An integer literal.
    Int(i32),
}

impl MathsArg {
    /// The kind of the token.
    pub open spec fn kind(self) -> TokenKind {
        match self {
            MathsArg::Int(_) => TokenKind::Literal,
            MathsArg::Op(_) => TokenKind::Operator,
        }
    }

    /// Whether the token is an operator of the given tier.
    pub open spec fn is_operator_of(self, tier: Tier) -> bool {
        self matches MathsArg::Op(op) && op.tier() == tier
    }

    /// The operator that the token holds.
    pub fn operator(self) -> (operator: Operator)
        requires
            self is Op,
        ensures
            self == MathsArg::Op(operator),
    {
        match self {
            MathsArg::Op(operator) => operator,
            MathsArg::Int(_) => vstd::pervasive::unreached(),
        }
    }

    /// The integer that the token holds.
    pub fn literal(self) -> (value: i32)
        requires
            self is Int,
        ensures
            self == MathsArg::Int(value),
    {
        match self {
            MathsArg::Int(value) => value,
            MathsArg::Op(_) => vstd::pervasive::unreached(),
        }
    }
}

/// The shape of an expression: an odd number of tokens, with a literal at
/// every even index and an operator at every odd one.
pub open spec fn well_formed(tokens: Seq<MathsArg>) -> bool {
    &&& tokens.len() % 2 == 1
    &&& forall|i: int| 0 <= i < tokens.len() ==> ((#[trigger] tokens[i]) is Int <==> i % 2 == 0)
}

/// The two kinds of token, as named by a shape error.
#[derive(Clone, Copy, Debug, PartialEq, Eq, Structural)]
pub enum TokenKind {
    /// An integer literal.
    Literal,
    /// An operator symbol.
    Operator,
}

/// Why an equation has no value.
#[derive(Clone, Copy, Debug, PartialEq, Eq, Structural)]
pub enum EvaluationError {
    /// The input holds no word at all.
    EmptyExpression,
    /// The word at `index`, counting words from zero, is neither an operator
    /// symbol nor an integer literal that fits in 32 bits.
    MalformedToken { index: usize },
    /// The token at `index` is not of the kind its position calls for.
    OutOfOrderTokens { index: usize, expected: TokenKind },
    /// The tokens alternate properly but end on an operator.
    IncompleteExpression,
    /// The literal at `position` in the token sequence is zero and is
    /// divided by.
    DivisionByZero { position: usize },
    /// `left operator right` does not fit in 32 bits.
    ArithmeticOverflow { operator: Operator, left: i32, right: i32 },
}

} // verus!
