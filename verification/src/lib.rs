//! Evaluation of flat infix arithmetic over signed 32-bit integers.
//!
//! An equation such as `2 + 8 - 4 * 3 / 2` is cut into words at spaces, each
//! word is classified as an integer literal or one of the operators
//! `+ - * /`, the resulting tokens are checked to alternate between literals
//! and operators, and the sequence is reduced to one integer: first every
//! `*` and `/` from left to right, then every `+` and `-` from left to right.

pub mod arithmetic;
pub mod contraction;
pub mod descent;
pub mod division;
pub mod evaluate;
pub mod fold;
pub mod reducer;
pub mod sweep;
pub mod token;
pub mod tokenizer;
pub mod validator;
pub mod words;

pub use arithmetic::apply_operator;
pub use evaluate::parse_maths_equation;
pub use fold::fold_left;
pub use reducer::{contract_products, reduce_maths_vector};
pub use token::{EvaluationError, MathsArg, Operator, Tier, TokenKind};
pub use tokenizer::{classify_word, parse_maths_vector};
pub use validator::validate_maths_vector;
pub use words::split_words;
