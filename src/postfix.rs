use vstd::prelude::*;

use crate::calculator::Calculator;
use crate::token::{precedence, push_token, toks, Operator, Token, TokenV};

verus! {

/// Output queue and operator stack of the postfix conversion.
pub struct Shunt {
    pub out: Seq<TokenV>,
    pub stack: Seq<TokenV>,
}

/// The top of `stack` is an operator that binds at least as tightly as `o`.
pub open spec fn pops_for(stack: Seq<TokenV>, o: Operator) -> bool {
    &&& stack.len() > 0
    &&& stack.last() is Op
    &&& precedence(stack.last()->Op_0) >= precedence(o)
}

/// Moves operators from the stack to the output while they bind at least as
/// tightly as `o`.
pub open spec fn pop_ops(st: Shunt, o: Operator) -> Shunt
    decreases st.stack.len(),
{
    if pops_for(st.stack, o) {
        pop_ops(Shunt { out: st.out.push(st.stack.last()), stack: st.stack.drop_last() }, o)
    } else {
        st
    }
}

/// Moves tokens from the stack to the output down to the nearest `(`, which
/// is dropped.
pub open spec fn pop_group(st: Shunt) -> Shunt
    decreases st.stack.len(),
{
    if st.stack.len() == 0 {
        st
    } else if st.stack.last() == TokenV::Bracket('(') {
        Shunt { out: st.out, stack: st.stack.drop_last() }
    } else {
        pop_group(Shunt { out: st.out.push(st.stack.last()), stack: st.stack.drop_last() })
    }
}

/// One token of the conversion.
pub open spec fn shunt_step(st: Shunt, t: TokenV) -> Shunt {
    match t {
        TokenV::Number(_) => Shunt { out: st.out.push(t), stack: st.stack },
        TokenV::Op(o) => {
            let s2 = pop_ops(st, o);
            Shunt { out: s2.out, stack: s2.stack.push(t) }
        },
        TokenV::Bracket(c) => if c == '(' {
            Shunt { out: st.out, stack: st.stack.push(t) }
        } else if c == ')' {
            pop_group(st)
        } else {
            st
        },
    }
}

/// The conversion from state `st` over the tokens of `ts`.
pub open spec fn shunt_run(st: Shunt, ts: Seq<TokenV>) -> Shunt
    decreases ts.len(),
{
    if ts.len() == 0 {
        st
    } else {
        shunt_run(shunt_step(st, ts[0]), ts.skip(1))
    }
}

/// `ts` in postfix order: the output queue, then the stack from its top down.
pub open spec fn postfix(ts: Seq<TokenV>) -> Seq<TokenV> {
    let st = shunt_run(Shunt { out: Seq::empty(), stack: Seq::empty() }, ts);
    st.out + st.stack.reverse()
}

/// Whether the top of `stack` must move to the output before `o` is pushed.
fn top_pops(stack: &Vec<Token>, o: Operator) -> (r: bool)
    ensures
        r == pops_for(toks(stack@), o),
{
    let n = stack.len();
    if n == 0 {
        return false;
    }
    assert(toks(stack@).last() == stack@[n - 1]@);
    match &stack[n - 1] {
        Token::Op(p) => p.precedence() >= o.precedence(),
        _ => false,
    }
}

/// Moves the top of `stack` to the end of `out`.
fn move_top(out: &mut Vec<Token>, stack: &mut Vec<Token>)
    requires
        old(stack).len() > 0,
    ensures
        toks(final(out)@) == toks(old(out)@).push(toks(old(stack)@).last()),
        toks(final(stack)@) == toks(old(stack)@).drop_last(),
        final(stack)@.len() == old(stack)@.len() - 1,
{
    let ghost s0 = stack@;
    let t = stack.pop();
    proof {
        assert(toks(stack@) =~= toks(s0).drop_last());
    }
    match t {
        Some(t) => push_token(out, t),
        None => {},
    }
}

impl Calculator {
    /// Reorders infix tokens into postfix order; see `postfix`.
    pub fn expression(tokens: Vec<Token>) -> (r: Vec<Token>)
        ensures
            toks(r@) == postfix(toks(tokens@)),
    {
        let ghost ts = toks(tokens@);
        let mut out: Vec<Token> = Vec::new();
        let mut stack: Vec<Token> = Vec::new();
        let n = tokens.len();
        let mut j: usize = 0;
        let ghost start = Shunt { out: Seq::empty(), stack: Seq::empty() };
        proof {
            assert(toks(out@) =~= Seq::<TokenV>::empty());
            assert(toks(stack@) =~= Seq::<TokenV>::empty());
            assert(ts.skip(0) =~= ts);
        }
        while j < n
            invariant
                n == tokens.len(),
                ts == toks(tokens@),
                j <= n,
                shunt_run(start, ts) == shunt_run(
                    Shunt { out: toks(out@), stack: toks(stack@) },
                    ts.skip(j as int),
                ),
            decreases n - j,
        {
            let t = &tokens[j];
            assert(ts[j as int] == t@);
            proof {
                assert(ts.skip(j as int).skip(1) =~= ts.skip(j + 1));
            }
            match t {
                Token::Number(_) => {
                    push_token(&mut out, t.copy());
                },
                Token::Op(o) => {
                    let ghost target = pop_ops(Shunt { out: toks(out@), stack: toks(stack@) }, *o);
                    while top_pops(&stack, *o)
                        invariant
                            target == pop_ops(Shunt { out: toks(out@), stack: toks(stack@) }, *o),
                        decreases stack.len(),
                    {
                        move_top(&mut out, &mut stack);
                    }
                    push_token(&mut stack, Token::Op(*o));
                },
                Token::Bracket(c) => {
                    if *c == '(' {
                        push_token(&mut stack, Token::Bracket('('));
                    } else if *c == ')' {
                        let ghost target = pop_group(Shunt { out: toks(out@), stack: toks(stack@) });
                        while stack.len() > 0 && !matches!(stack[stack.len() - 1], Token::Bracket('('))
                            invariant
                                target == pop_group(Shunt { out: toks(out@), stack: toks(stack@) }),
                            decreases stack.len(),
                        {
                            move_top(&mut out, &mut stack);
                        }
                        if stack.len() > 0 {
                            let ghost s0 = stack@;
                            stack.pop();
                            proof {
                                assert(toks(stack@) =~= toks(s0).drop_last());
                            }
                        }
                    }
                },
            }
            j += 1;
        }
        let ghost fin = postfix(ts);
        proof {
            assert(ts.skip(n as int) =~= Seq::<TokenV>::empty());
            assert(fin =~= toks(out@) + toks(stack@).reverse());
        }
        while stack.len() > 0
            invariant
                fin == toks(out@) + toks(stack@).reverse(),
            decreases stack.len(),
        {
            let ghost o0 = toks(out@);
            let ghost s0 = toks(stack@);
            move_top(&mut out, &mut stack);
            proof {
                assert(s0 =~= toks(stack@).push(s0.last()));
                assert(s0.reverse() =~= seq![s0.last()] + toks(stack@).reverse());
                assert(fin =~= toks(out@) + toks(stack@).reverse());
            }
        }
        proof {
            assert(toks(out@) + toks(stack@).reverse() =~= toks(out@));
        }
        out
    }
}

} // verus!
