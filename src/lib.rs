pub mod calculator;
pub mod evaluate;
pub mod laws;
pub mod lexer;
pub mod normalize;
pub mod postfix;
pub mod sanitize;
pub mod token;

pub use calculator::Calculator;
pub use evaluate::Expr;
pub use token::{Digit, Error, Literal, Operator, Token};
