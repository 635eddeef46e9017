use vstd::prelude::*;

use crate::calculator::Calculator;
use crate::token::{below_zero, tokens_fit, push_token, toks, Digit, Literal, Num, Operator, Token, TokenV};

verus! {

/// The literal `-1`.
pub open spec fn minus_one() -> Num {
    Num { negative: true, lead: 1, digits: seq![Digit { value: 1, place: 0 }] }
}

/// Token `j` of `ts` is the base of an exponent that is not a bracketed group.
pub open spec fn bare_base(ts: Seq<TokenV>, j: int) -> bool {
    &&& 0 <= j
    &&& j + 1 < ts.len()
    &&& ts[j + 1] == TokenV::Op(Operator::Exp)
    &&& ts[j] != TokenV::Bracket(')')
}

/// A bare base in brackets; a base below zero is also multiplied by `-1`
/// ahead of the brackets, so that `-b^e` reads as `-1*(-b)^e`.
pub open spec fn wrap_base(t: TokenV) -> Seq<TokenV> {
    let core = seq![TokenV::Bracket('('), t, TokenV::Bracket(')')];
    if t is Number && below_zero(t->Number_0) {
        seq![TokenV::Number(minus_one()), TokenV::Op(Operator::Mul)] + core
    } else {
        core
    }
}

/// What token `j` of `ts` becomes.
pub open spec fn expansion(ts: Seq<TokenV>, j: int) -> Seq<TokenV> {
    if bare_base(ts, j) {
        wrap_base(ts[j])
    } else {
        seq![ts[j]]
    }
}

/// The expansions of the first `i` tokens of `ts`, in order.
pub open spec fn normalized_prefix(ts: Seq<TokenV>, i: nat) -> Seq<TokenV>
    decreases i,
{
    if i == 0 {
        Seq::empty()
    } else {
        normalized_prefix(ts, (i - 1) as nat) + expansion(ts, i - 1)
    }
}

/// `ts` with every bare base of an exponent wrapped.
pub open spec fn normalized(ts: Seq<TokenV>) -> Seq<TokenV> {
    normalized_prefix(ts, ts.len())
}

impl Calculator {
    /// Wraps each bare base of an exponent in brackets; see `normalized`.
    pub fn fix_exponents(tokens: Vec<Token>) -> (r: Vec<Token>)
        requires
            tokens_fit(toks(tokens@)),
        ensures
            toks(r@) == normalized(toks(tokens@)),
    {
        let ghost ts = toks(tokens@);
        let mut out: Vec<Token> = Vec::new();
        let n = tokens.len();
        let mut j: usize = 0;
        proof {
            assert(toks(out@) =~= Seq::<TokenV>::empty());
        }
        while j < n
            invariant
                n == tokens.len(),
                ts == toks(tokens@),
                tokens_fit(ts),
                j <= n,
                toks(out@) == normalized_prefix(ts, j as nat),
            decreases n - j,
        {
            let ghost before = toks(out@);
            let t = &tokens[j];
            assert(ts[j as int] == t@);
            let is_base = j + 1 < n && matches!(tokens[j + 1], Token::Op(Operator::Exp))
                && !matches!(t, Token::Bracket(')'));
            proof {
                if j + 1 < n {
                    assert(ts[j + 1] == tokens@[j + 1]@);
                }
                assert(is_base == bare_base(ts, j as int));
            }
            if is_base {
                let below = match t {
                    Token::Number(l) => l.is_below_zero(),
                    _ => false,
                };
                if below {
                    let mut one: Vec<Digit> = Vec::new();
                    one.push(Digit { value: 1, place: 0 });
                    proof {
                        assert(one@ =~= seq![Digit { value: 1, place: 0 }]);
                    }
                    push_token(&mut out, Token::Number(Literal { negative: true, lead: 1, digits: one }));
                    push_token(&mut out, Token::Op(Operator::Mul));
                }
                push_token(&mut out, Token::Bracket('('));
                push_token(&mut out, t.copy());
                push_token(&mut out, Token::Bracket(')'));
                proof {
                    assert(toks(out@) =~= before + expansion(ts, j as int));
                }
            } else {
                push_token(&mut out, t.copy());
                proof {
                    assert(toks(out@) =~= before + expansion(ts, j as int));
                }
            }
            j += 1;
        }
        out
    }
}

} // verus!
