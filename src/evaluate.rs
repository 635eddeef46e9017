use vstd::prelude::*;

use crate::calculator::Calculator;
use crate::token::{toks, Literal, Num, Operator, Token, TokenV};

verus! {

/// An arithmetic expression: a literal, or an operator applied to two
/// operands.
#[derive(Debug, PartialEq)]
pub enum Expr {
    Number(Literal),
    Binary(Operator, Box<Expr>, Box<Expr>),
}

/// The mathematical form of an expression.
pub enum ExprV {
    Number(Num),
    Binary(Operator, Box<ExprV>, Box<ExprV>),
}

impl View for Expr {
    type V = ExprV;

    open spec fn view(&self) -> ExprV
        decreases self,
    {
        match self {
            Expr::Number(l) => ExprV::Number(l@),
            Expr::Binary(o, a, b) => ExprV::Binary(*o, Box::new((**a).view()), Box::new((**b).view())),
        }
    }
}

pub open spec fn exprs(v: Seq<Expr>) -> Seq<ExprV> {
    v.map_values(|e: Expr| e@)
}

/// One postfix token applied to the operand stack: a literal is pushed, an
/// operator takes the two topmost operands (the right one on top), and a
/// bracket is ignored. Too few operands leave nothing.
pub open spec fn eval_step(stack: Option<Seq<ExprV>>, t: TokenV) -> Option<Seq<ExprV>> {
    match stack {
        None => None,
        Some(st) => match t {
            TokenV::Number(n) => Some(st.push(ExprV::Number(n))),
            TokenV::Op(o) => if st.len() < 2 {
                None
            } else {
                let n = st.len();
                Some(
                    st.take(n - 2).push(
                        ExprV::Binary(o, Box::new(st[n - 2]), Box::new(st[n - 1])),
                    ),
                )
            },
            TokenV::Bracket(_) => Some(st),
        },
    }
}

/// The operand stack after the tokens of `ts`, from `stack`.
pub open spec fn eval_run(stack: Option<Seq<ExprV>>, ts: Seq<TokenV>) -> Option<Seq<ExprV>>
    decreases ts.len(),
{
    if ts.len() == 0 {
        stack
    } else {
        eval_run(eval_step(stack, ts[0]), ts.skip(1))
    }
}

/// The expression that postfix tokens `ts` denote: the single operand left
/// at the end, if exactly one is.
pub open spec fn evaluated(ts: Seq<TokenV>) -> Option<ExprV> {
    match eval_run(Some(Seq::empty()), ts) {
        Some(st) => if st.len() == 1 {
            Some(st[0])
        } else {
            None
        },
        None => None,
    }
}

proof fn lemma_eval_none(ts: Seq<TokenV>)
    ensures
        eval_run(None, ts) is None,
    decreases ts.len(),
{
    if ts.len() > 0 {
        lemma_eval_none(ts.skip(1));
    }
}

proof fn lemma_exprs_push(v: Seq<Expr>, e: Expr)
    ensures
        exprs(v.push(e)) == exprs(v).push(e@),
{
    assert(exprs(v.push(e)) =~= exprs(v).push(e@));
}

impl Calculator {
    /// The expression that postfix `tokens` denote; `None` where an operator
    /// lacks operands or more than one operand is left.
    pub fn evaluate(tokens: Vec<Token>) -> (r: Option<Expr>)
        ensures
            r is None <==> evaluated(toks(tokens@)) is None,
            r is Some ==> evaluated(toks(tokens@)) == Some(r->Some_0@),
    {
        let ghost ts = toks(tokens@);
        let mut stack: Vec<Expr> = Vec::new();
        let n = tokens.len();
        let mut j: usize = 0;
        proof {
            assert(exprs(stack@) =~= Seq::<ExprV>::empty());
            assert(ts.skip(0) =~= ts);
        }
        while j < n
            invariant
                n == tokens.len(),
                ts == toks(tokens@),
                j <= n,
                eval_run(Some(Seq::empty()), ts) == eval_run(Some(exprs(stack@)), ts.skip(j as int)),
            decreases n - j,
        {
            let t = &tokens[j];
            let ghost st0 = exprs(stack@);
            proof {
                assert(ts[j as int] == t@);
                assert(ts.skip(j as int).skip(1) =~= ts.skip(j + 1));
                assert(eval_run(Some(st0), ts.skip(j as int)) == eval_run(
                    eval_step(Some(st0), t@),
                    ts.skip(j + 1),
                ));
            }
            match t {
                Token::Number(l) => {
                    let e = Expr::Number(l.copy());
                    proof {
                        lemma_exprs_push(stack@, e);
                    }
                    stack.push(e);
                },
                Token::Op(o) => {
                    if stack.len() < 2 {
                        proof {
                            lemma_eval_none(ts.skip(j + 1));
                        }
                        return None;
                    }
                    let ghost s0 = stack@;
                    let right = stack.pop();
                    let left = stack.pop();
                    match (left, right) {
                        (Some(a), Some(b)) => {
                            proof {
                                assert(s0[s0.len() - 1] == b);
                                assert(s0[s0.len() - 2] == a);
                                assert(stack@ =~= s0.take(s0.len() - 2));
                                assert(exprs(stack@) =~= st0.take(st0.len() - 2));
                            }
                            let e = Expr::Binary(*o, Box::new(a), Box::new(b));
                            proof {
                                lemma_exprs_push(stack@, e);
                            }
                            stack.push(e);
                        },
                        _ => {
                            proof {
                                assert(false);
                            }
                        },
                    }
                },
                Token::Bracket(_) => {},
            }
            j += 1;
        }
        proof {
            assert(ts.skip(n as int) =~= Seq::<TokenV>::empty());
        }
        if stack.len() == 1 {
            stack.pop()
        } else {
            None
        }
    }
}

} // verus!
