use vstd::prelude::*;

use crate::evaluate::{evaluated, Expr, ExprV};
use crate::lexer::lexed;
use crate::normalize::normalized;
use crate::postfix::postfix;
use crate::sanitize::sanitized;
use crate::token::{toks, Error, Token, TokenV};

verus! {

/// The arithmetic evaluator: each stage is a function on its own.
pub struct Calculator {}

/// Tokens of `s` with exponent bases wrapped, or the tokenizer's error.
pub open spec fn parsed(s: Seq<char>) -> Result<Seq<TokenV>, Error> {
    match lexed(s) {
        Ok(ts) => Ok(normalized(ts)),
        Err(e) => Err(e),
    }
}

/// The whole pipeline on a line of text: sanitize, tokenize, wrap exponent
/// bases, reorder into postfix and build the expression.
pub open spec fn calculated(s: Seq<char>) -> Result<Option<ExprV>, Error> {
    match parsed(sanitized(s)) {
        Ok(ts) => Ok(evaluated(postfix(ts))),
        Err(e) => Err(e),
    }
}

impl Calculator {
    /// Tokenizes `expr` and wraps the bases of exponents; see `parsed`.
    pub fn parse(expr: &str) -> (r: Result<Vec<Token>, Error>)
        ensures
            r is Ok ==> parsed(expr@) == Ok::<Seq<TokenV>, Error>(toks(r->Ok_0@)),
            r is Err ==> parsed(expr@) == Err::<Seq<TokenV>, Error>(r->Err_0),
    {
        match Calculator::tokenize(expr) {
            Ok(tokens) => Ok(Calculator::fix_exponents(tokens)),
            Err(e) => Err(e),
        }
    }

    /// Runs the whole pipeline on `input`; see `calculated`. `Ok(None)` is
    /// an expression with too many or too few operands.
    pub fn calculate(input: &str) -> (r: Result<Option<Expr>, Error>)
        ensures
            r is Ok ==> calculated(input@) is Ok && (r->Ok_0 is None <==> calculated(input@)->Ok_0 is None),
            r is Ok && r->Ok_0 is Some ==> calculated(input@) == Ok::<Option<ExprV>, Error>(
                Some(r->Ok_0->Some_0@),
            ),
            r is Err ==> calculated(input@) == Err::<Option<ExprV>, Error>(r->Err_0),
    {
        let text = Calculator::sanitize_input(input);
        match Calculator::parse(text.as_str()) {
            Ok(tokens) => Ok(Calculator::evaluate(Calculator::expression(tokens))),
            Err(e) => Err(e),
        }
    }
}

} // verus!
