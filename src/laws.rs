use vstd::prelude::*;

use crate::calculator::parsed;
use crate::evaluate::{eval_run, eval_step, evaluated, ExprV};
use crate::lexer::{digit_of, is_digit, lex_prefix, lexed, next_digit, LexState};
use crate::normalize::{bare_base, expansion, minus_one, normalized, normalized_prefix};
use crate::postfix::{pop_group, pop_ops, pops_for, postfix, shunt_run, shunt_step, Shunt};
use crate::sanitize::{neg_open_rep, no_pair, open_neg_rep, replace_pair, sanitized};
use crate::token::{below_zero, op_of, precedence, Digit, Num, Operator, TokenV};

verus! {

proof fn lemma_no_pair_concat(x: Seq<char>, y: Seq<char>, a: char, b: char)
    requires
        no_pair(x, a, b),
        no_pair(y, a, b),
        x.len() > 0 && y.len() > 0 ==> !(x.last() == a && y[0] == b),
    ensures
        no_pair(x + y, a, b),
{
    let z = x + y;
    assert forall|i: int| 0 <= i && i + 1 < z.len() implies !(#[trigger] z[i] == a && z[i + 1] == b) by {
        if i + 1 < x.len() {
            assert(z[i] == x[i] && z[i + 1] == x[i + 1]);
        } else if i + 1 == x.len() {
            assert(z[i] == x.last() && z[i + 1] == y[0]);
        } else {
            assert(z[i] == y[i - x.len()] && z[i + 1] == y[i - x.len() + 1]);
        }
    }
}

proof fn lemma_replace_first(s: Seq<char>, a: char, b: char, rep: Seq<char>)
    requires
        s.len() > 0,
        rep.len() > 0 && rep[0] == a,
    ensures
        replace_pair(s, a, b, rep).len() > 0,
        replace_pair(s, a, b, rep)[0] == s[0],
{
}

proof fn lemma_replace_absent(s: Seq<char>, a: char, b: char, rep: Seq<char>)
    requires
        no_pair(s, a, b),
    ensures
        replace_pair(s, a, b, rep) == s,
    decreases s.len(),
{
    if s.len() >= 2 {
        assert(!(s[0] == a && s[1] == b));
        let t = s.skip(1);
        assert forall|i: int| 0 <= i && i + 1 < t.len() implies !(#[trigger] t[i] == a && t[i + 1] == b) by {
            assert(t[i] == s[i + 1] && t[i + 1] == s[i + 2]);
        }
        lemma_replace_absent(t, a, b, rep);
        assert(seq![s[0]] + t =~= s);
    }
}

/// The rewrite removes every occurrence, given that `rep` neither holds the
/// pair, nor ends in `a`, and starts with `a` where `a` differs from `b`.
proof fn lemma_replace_clears(s: Seq<char>, a: char, b: char, rep: Seq<char>)
    requires
        a != b,
        rep.len() > 0 && rep[0] == a && rep.last() != a,
        no_pair(rep, a, b),
    ensures
        no_pair(replace_pair(s, a, b, rep), a, b),
    decreases s.len(),
{
    if s.len() >= 2 {
        if s[0] == a && s[1] == b {
            let t = s.skip(2);
            lemma_replace_clears(t, a, b, rep);
            if t.len() > 0 {
                lemma_replace_first(t, a, b, rep);
            }
            lemma_no_pair_concat(rep, replace_pair(t, a, b, rep), a, b);
        } else {
            let t = s.skip(1);
            lemma_replace_clears(t, a, b, rep);
            lemma_replace_first(t, a, b, rep);
            assert(t[0] == s[1]);
            lemma_no_pair_concat(seq![s[0]], replace_pair(t, a, b, rep), a, b);
        }
    }
}

/// Replacing "(-" by "(0-" never creates a "-(".
proof fn lemma_open_neg_keeps(s: Seq<char>)
    requires
        no_pair(s, '-', '('),
    ensures
        no_pair(replace_pair(s, '(', '-', open_neg_rep()), '-', '('),
    decreases s.len(),
{
    let rep = open_neg_rep();
    if s.len() >= 2 {
        if s[0] == '(' && s[1] == '-' {
            let t = s.skip(2);
            assert forall|i: int| 0 <= i && i + 1 < t.len() implies !(#[trigger] t[i] == '-' && t[i + 1] == '(') by {
                assert(t[i] == s[i + 2] && t[i + 1] == s[i + 3]);
            }
            lemma_open_neg_keeps(t);
            if t.len() > 0 {
                lemma_replace_first(t, '(', '-', rep);
                assert(t[0] == s[2]);
                assert(!(s[1] == '-' && s[2] == '('));
            }
            assert(rep.last() == '-');
            assert(no_pair(rep, '-', '(')) by {
                assert(rep[0] == '(' && rep[1] == '0' && rep[2] == '-');
            }
            lemma_no_pair_concat(rep, replace_pair(t, '(', '-', rep), '-', '(');
        } else {
            let t = s.skip(1);
            assert forall|i: int| 0 <= i && i + 1 < t.len() implies !(#[trigger] t[i] == '-' && t[i + 1] == '(') by {
                assert(t[i] == s[i + 1] && t[i + 1] == s[i + 2]);
            }
            lemma_open_neg_keeps(t);
            lemma_replace_first(t, '(', '-', rep);
            assert(t[0] == s[1]);
            assert(!(s[0] == '-' && s[1] == '('));
            lemma_no_pair_concat(seq![s[0]], replace_pair(t, '(', '-', rep), '-', '(');
        }
    }
}

/// Sanitizing is idempotent: a second pass changes nothing.
pub proof fn lemma_sanitize_idempotent(s: Seq<char>)
    ensures
        sanitized(sanitized(s)) == sanitized(s),
{
    let r1 = neg_open_rep();
    let r2 = open_neg_rep();
    assert(no_pair(r1, '-', '(')) by {
        assert(r1[0] == '-' && r1[1] == '1' && r1[2] == '*' && r1[3] == '(');
    }
    assert(no_pair(r2, '(', '-')) by {
        assert(r2[0] == '(' && r2[1] == '0' && r2[2] == '-');
    }
    let once_neg = replace_pair(s, '-', '(', r1);
    lemma_replace_clears(s, '-', '(', r1);
    let both = replace_pair(once_neg, '(', '-', r2);
    lemma_replace_clears(once_neg, '(', '-', r2);
    lemma_open_neg_keeps(once_neg);
    lemma_replace_absent(both, '-', '(', r1);
    lemma_replace_absent(both, '(', '-', r2);
}

/// `e` written in postfix tokens.
pub open spec fn postfix_of(e: ExprV) -> Seq<TokenV>
    decreases e,
{
    match e {
        ExprV::Number(n) => seq![TokenV::Number(n)],
        ExprV::Binary(o, l, r) => postfix_of(*l) + postfix_of(*r) + seq![TokenV::Op(o)],
    }
}

proof fn lemma_shunt_concat(st: Shunt, a: Seq<TokenV>, b: Seq<TokenV>)
    ensures
        shunt_run(st, a + b) == shunt_run(shunt_run(st, a), b),
    decreases a.len(),
{
    if a.len() == 0 {
        assert(a + b =~= b);
    } else {
        assert((a + b)[0] == a[0]);
        assert((a + b).skip(1) =~= a.skip(1) + b);
        lemma_shunt_concat(shunt_step(st, a[0]), a.skip(1), b);
    }
}

proof fn lemma_shunt_one(st: Shunt, t: TokenV)
    ensures
        shunt_run(st, seq![t]) == shunt_step(st, t),
{
    assert(seq![t].skip(1) =~= Seq::<TokenV>::empty());
    assert(shunt_run(shunt_step(st, t), Seq::<TokenV>::empty()) == shunt_step(st, t));
}

proof fn lemma_eval_concat(st: Option<Seq<ExprV>>, a: Seq<TokenV>, b: Seq<TokenV>)
    ensures
        eval_run(st, a + b) == eval_run(eval_run(st, a), b),
    decreases a.len(),
{
    if a.len() == 0 {
        assert(a + b =~= b);
    } else {
        assert((a + b)[0] == a[0]);
        assert((a + b).skip(1) =~= a.skip(1) + b);
        lemma_eval_concat(eval_step(st, a[0]), a.skip(1), b);
    }
}

proof fn lemma_eval_one(st: Option<Seq<ExprV>>, t: TokenV)
    ensures
        eval_run(st, seq![t]) == eval_step(st, t),
{
    assert(seq![t].skip(1) =~= Seq::<TokenV>::empty());
    assert(eval_run(eval_step(st, t), Seq::<TokenV>::empty()) == eval_step(st, t));
}

/// The postfix form of `e` pushes `e` onto any operand stack.
proof fn lemma_eval_postfix(st: Seq<ExprV>, e: ExprV)
    ensures
        eval_run(Some(st), postfix_of(e)) == Some(st.push(e)),
    decreases e,
{
    match e {
        ExprV::Number(n) => {
            lemma_eval_one(Some(st), TokenV::Number(n));
        },
        ExprV::Binary(o, l, r) => {
            let pl = postfix_of(*l);
            let pr = postfix_of(*r);
            let op = seq![TokenV::Op(o)];
            lemma_eval_concat(Some(st), pl + pr, op);
            lemma_eval_concat(Some(st), pl, pr);
            lemma_eval_postfix(st, *l);
            lemma_eval_postfix(st.push(*l), *r);
            let s2 = st.push(*l).push(*r);
            lemma_eval_one(Some(s2), TokenV::Op(o));
            assert(s2.take(s2.len() - 2) =~= st);
            assert(s2[s2.len() - 2] == *l);
            assert(s2[s2.len() - 1] == *r);
        },
    }
}

/// Every item of `p` is an operator binding at least `k`.
pub open spec fn ops_at_least(p: Seq<TokenV>, k: nat) -> bool {
    forall|i: int| 0 <= i < p.len() ==> (#[trigger] p[i]) is Op && precedence(p[i]->Op_0) >= k
}

/// No operator on top of `stack` binds `k` or more.
pub open spec fn below(stack: Seq<TokenV>, k: nat) -> bool {
    stack.len() == 0 || !(stack.last() is Op) || precedence(stack.last()->Op_0) < k
}

/// Operators that bind at least as tightly as `o` all leave the stack for it.
proof fn lemma_pop_all(out: Seq<TokenV>, s: Seq<TokenV>, p: Seq<TokenV>, o: Operator)
    requires
        ops_at_least(p, precedence(o)),
        !pops_for(s, o),
    ensures
        pop_ops(Shunt { out, stack: s + p }, o) == (Shunt { out: out + p.reverse(), stack: s }),
    decreases p.len(),
{
    if p.len() == 0 {
        assert(s + p =~= s);
        assert(out + p.reverse() =~= out);
    } else {
        let q = p.drop_last();
        assert((s + p).last() == p.last());
        assert((s + p).drop_last() =~= s + q);
        assert(p[p.len() - 1] == p.last());
        assert(ops_at_least(q, precedence(o))) by {
            assert forall|i: int| 0 <= i < q.len() implies (#[trigger] q[i]) is Op
                && precedence(q[i]->Op_0) >= precedence(o) by {
                assert(q[i] == p[i]);
            }
        }
        lemma_pop_all(out.push(p.last()), s, q, o);
        assert(out.push(p.last()) + q.reverse() =~= out + p.reverse());
    }
}

/// Closing a group moves its operators out and drops its bracket.
proof fn lemma_close_all(out: Seq<TokenV>, s: Seq<TokenV>, p: Seq<TokenV>)
    requires
        ops_at_least(p, 0),
    ensures
        pop_group(Shunt { out, stack: s.push(TokenV::Bracket('(')) + p }) == (Shunt {
            out: out + p.reverse(),
            stack: s,
        }),
    decreases p.len(),
{
    let t = s.push(TokenV::Bracket('('));
    if p.len() == 0 {
        assert(t + p =~= t);
        assert(t.drop_last() =~= s);
        assert(out + p.reverse() =~= out);
    } else {
        let q = p.drop_last();
        assert((t + p).last() == p.last());
        assert(p[p.len() - 1] == p.last());
        assert((t + p).drop_last() =~= t + q);
        assert(ops_at_least(q, 0)) by {
            assert forall|i: int| 0 <= i < q.len() implies (#[trigger] q[i]) is Op
                && precedence(q[i]->Op_0) >= 0 by {
                assert(q[i] == p[i]);
            }
        }
        lemma_close_all(out.push(p.last()), s, q);
        assert(out.push(p.last()) + q.reverse() =~= out + p.reverse());
    }
}

/// An expression as written in infix: a literal, an operation, or a bracketed
/// group. Brackets may stand anywhere, needed or not.
pub enum Written {
    Lit(Num),
    Apply(Operator, Box<Written>, Box<Written>),
    Group(Box<Written>),
}

/// The expression that `w` writes.
pub open spec fn meaning(w: Written) -> ExprV
    decreases w,
{
    match w {
        Written::Lit(n) => ExprV::Number(n),
        Written::Apply(o, l, r) => ExprV::Binary(o, Box::new(meaning(*l)), Box::new(meaning(*r))),
        Written::Group(x) => meaning(*x),
    }
}

/// How tightly `w` binds where it stands: a literal or a group binds above
/// every operator.
pub open spec fn written_binding(w: Written) -> nat {
    match w {
        Written::Apply(o, _, _) => precedence(o),
        _ => 4,
    }
}

/// The infix tokens of `w`.
pub open spec fn written_tokens(w: Written) -> Seq<TokenV>
    decreases w,
{
    match w {
        Written::Lit(n) => seq![TokenV::Number(n)],
        Written::Apply(o, l, r) => written_tokens(*l) + seq![TokenV::Op(o)] + written_tokens(*r),
        Written::Group(x) => seq![TokenV::Bracket('(')] + written_tokens(*x) + seq![TokenV::Bracket(')')],
    }
}

/// `w` reads back as itself: an unbracketed left operand binds at least as
/// tightly as its operator, and an unbracketed right operand more tightly.
pub open spec fn well_written(w: Written) -> bool
    decreases w,
{
    match w {
        Written::Lit(_) => true,
        Written::Apply(o, l, r) => written_binding(*l) >= precedence(o) && written_binding(*r) > precedence(o)
            && well_written(*l) && well_written(*r),
        Written::Group(x) => well_written(*x),
    }
}

pub open spec fn written_emitted(w: Written) -> Seq<TokenV>
    decreases w,
{
    match w {
        Written::Lit(n) => seq![TokenV::Number(n)],
        Written::Apply(o, l, r) => postfix_of(meaning(*l)) + written_emitted(*r),
        Written::Group(x) => postfix_of(meaning(*x)),
    }
}

pub open spec fn written_pending(w: Written) -> Seq<TokenV>
    decreases w,
{
    match w {
        Written::Apply(o, l, r) => seq![TokenV::Op(o)] + written_pending(*r),
        _ => Seq::empty(),
    }
}

proof fn lemma_written_pending(w: Written)
    requires
        well_written(w),
    ensures
        written_emitted(w) + written_pending(w).reverse() == postfix_of(meaning(w)),
        ops_at_least(written_pending(w), written_binding(w)),
    decreases w,
{
    match w {
        Written::Apply(o, l, r) => {
            lemma_written_pending(*r);
            let pr = written_pending(*r);
            assert(written_pending(w) == seq![TokenV::Op(o)] + pr);
            assert((seq![TokenV::Op(o)] + pr).reverse() =~= pr.reverse() + seq![TokenV::Op(o)]);
            assert(postfix_of(meaning(w)) == postfix_of(meaning(*l)) + postfix_of(meaning(*r)) + seq![TokenV::Op(o)]);
            assert(written_emitted(w) + written_pending(w).reverse() =~= postfix_of(meaning(*l)) + (written_emitted(*r)
                + pr.reverse()) + seq![TokenV::Op(o)]);
            let pe = written_pending(w);
            assert forall|i: int| 0 <= i < pe.len() implies (#[trigger] pe[i]) is Op
                && precedence(pe[i]->Op_0) >= written_binding(w) by {
                if i > 0 {
                    assert(pe[i] == pr[i - 1]);
                }
            }
        },
        Written::Lit(n) => {
            assert(written_emitted(w) + written_pending(w).reverse() =~= postfix_of(meaning(w)));
        },
        Written::Group(x) => {
            assert(written_emitted(w) + written_pending(w).reverse() =~= postfix_of(meaning(w)));
        },
    }
}

proof fn lemma_shunt_written(out: Seq<TokenV>, s: Seq<TokenV>, w: Written)
    requires
        well_written(w),
        below(s, written_binding(w)),
    ensures
        shunt_run(Shunt { out, stack: s }, written_tokens(w)) == (Shunt {
            out: out + written_emitted(w),
            stack: s + written_pending(w),
        }),
    decreases w,
{
    lemma_written_pending(w);
    let st = Shunt { out, stack: s };
    match w {
        Written::Lit(n) => {
            lemma_shunt_one(st, TokenV::Number(n));
            assert(out.push(TokenV::Number(n)) =~= out + written_emitted(w));
            assert(s + written_pending(w) =~= s);
        },
        Written::Group(x) => {
            let open = seq![TokenV::Bracket('(')];
            let close = seq![TokenV::Bracket(')')];
            let inner = written_tokens(*x);
            assert(written_tokens(w) == open + inner + close);
            lemma_shunt_concat(st, open + inner, close);
            lemma_shunt_concat(st, open, inner);
            lemma_shunt_one(st, TokenV::Bracket('('));
            let t = s.push(TokenV::Bracket('('));
            lemma_shunt_written(out, t, *x);
            lemma_written_pending(*x);
            let s2 = Shunt { out: out + written_emitted(*x), stack: t + written_pending(*x) };
            lemma_shunt_one(s2, TokenV::Bracket(')'));
            let px = written_pending(*x);
            assert(ops_at_least(px, 0)) by {
                assert forall|i: int| 0 <= i < px.len() implies (#[trigger] px[i]) is Op
                    && precedence(px[i]->Op_0) >= 0 by {}
            }
            lemma_close_all(out + written_emitted(*x), s, px);
            assert(out + written_emitted(*x) + px.reverse() =~= out + written_emitted(w));
            assert(s + written_pending(w) =~= s);
        },
        Written::Apply(o, l, r) => {
            let tl = written_tokens(*l);
            let op = seq![TokenV::Op(o)];
            let tr = written_tokens(*r);
            assert(written_tokens(w) == tl + op + tr);
            lemma_shunt_concat(st, tl + op, tr);
            lemma_shunt_concat(st, tl, op);
            lemma_written_pending(*l);
            lemma_shunt_written(out, s, *l);
            let pl = written_pending(*l);
            let s1 = Shunt { out: out + written_emitted(*l), stack: s + pl };
            lemma_shunt_one(s1, TokenV::Op(o));
            assert(!pops_for(s, o));
            assert(ops_at_least(pl, precedence(o))) by {
                assert forall|i: int| 0 <= i < pl.len() implies (#[trigger] pl[i]) is Op
                    && precedence(pl[i]->Op_0) >= precedence(o) by {}
            }
            lemma_pop_all(out + written_emitted(*l), s, pl, o);
            assert(out + written_emitted(*l) + pl.reverse() =~= out + postfix_of(meaning(*l)));
            let s2 = Shunt { out: out + postfix_of(meaning(*l)), stack: s.push(TokenV::Op(o)) };
            assert(shunt_run(st, tl + op) == s2);
            assert(s.push(TokenV::Op(o)).last() == TokenV::Op(o));
            lemma_shunt_written(out + postfix_of(meaning(*l)), s.push(TokenV::Op(o)), *r);
            assert(out + postfix_of(meaning(*l)) + written_emitted(*r) =~= out + written_emitted(w));
            assert(s.push(TokenV::Op(o)) + written_pending(*r) =~= s + written_pending(w));
        },
    }
}

/// Any infix expression that reads back as written, with brackets wherever
/// the writer put them, is reordered into the postfix form of what it means,
/// and evaluating that gives the meaning: brackets first, then `+ -` below
/// `%` below `* /` below `^`, each operator grouping to the left.
pub proof fn lemma_written_round_trip(w: Written)
    requires
        well_written(w),
    ensures
        postfix(written_tokens(w)) == postfix_of(meaning(w)),
        evaluated(postfix(written_tokens(w))) == Some(meaning(w)),
{
    lemma_shunt_written(Seq::empty(), Seq::empty(), w);
    lemma_written_pending(w);
    assert(Seq::<TokenV>::empty() + written_emitted(w) =~= written_emitted(w));
    assert(Seq::<TokenV>::empty() + written_pending(w) =~= written_pending(w));
    lemma_eval_postfix(Seq::empty(), meaning(w));
    assert(Seq::<ExprV>::empty().push(meaning(w))[0] == meaning(w));
}

/// The bracket depth after `ts`, from depth `d`; `None` where a bracket
/// closes that is not open.
pub open spec fn depth_run(d: nat, ts: Seq<TokenV>) -> Option<nat>
    decreases ts.len(),
{
    if ts.len() == 0 {
        Some(d)
    } else if ts[0] == TokenV::Bracket('(') {
        depth_run(d + 1, ts.skip(1))
    } else if ts[0] == TokenV::Bracket(')') {
        if d == 0 {
            None
        } else {
            depth_run((d - 1) as nat, ts.skip(1))
        }
    } else {
        depth_run(d, ts.skip(1))
    }
}

/// Every `)` of `ts` closes an earlier `(`, and every `(` is closed.
pub open spec fn balanced(ts: Seq<TokenV>) -> bool {
    depth_run(0, ts) == Some(0nat)
}

/// The number of `(` in `s`.
pub open spec fn opens(s: Seq<TokenV>) -> nat
    decreases s.len(),
{
    if s.len() == 0 {
        0
    } else {
        opens(s.drop_last()) + if s.last() == TokenV::Bracket('(') {
            1nat
        } else {
            0nat
        }
    }
}

/// `s` holds operators and `(` only.
pub open spec fn stack_shape(s: Seq<TokenV>) -> bool {
    forall|i: int| 0 <= i < s.len() ==> (#[trigger] s[i]) is Op || s[i] == TokenV::Bracket('(')
}

/// `s` holds literals and operators only.
pub open spec fn bracket_free(s: Seq<TokenV>) -> bool {
    forall|i: int| 0 <= i < s.len() ==> (#[trigger] s[i]) is Number || s[i] is Op
}

proof fn lemma_bracket_free_push(s: Seq<TokenV>, t: TokenV)
    requires
        bracket_free(s),
        t is Number || t is Op,
    ensures
        bracket_free(s.push(t)),
{
    assert forall|i: int| 0 <= i < s.push(t).len() implies (#[trigger] s.push(t)[i]) is Number
        || s.push(t)[i] is Op by {
        if i < s.len() {
            assert(s.push(t)[i] == s[i]);
        }
    }
}

proof fn lemma_stack_shape_push(s: Seq<TokenV>, t: TokenV)
    requires
        stack_shape(s),
        t is Op || t == TokenV::Bracket('('),
    ensures
        stack_shape(s.push(t)),
        opens(s.push(t)) == opens(s) + if t == TokenV::Bracket('(') {
            1nat
        } else {
            0nat
        },
{
    assert(s.push(t).drop_last() =~= s);
    assert forall|i: int| 0 <= i < s.push(t).len() implies (#[trigger] s.push(t)[i]) is Op
        || s.push(t)[i] == TokenV::Bracket('(') by {
        if i < s.len() {
            assert(s.push(t)[i] == s[i]);
        }
    }
}

proof fn lemma_stack_shape_pop(s: Seq<TokenV>)
    requires
        stack_shape(s),
        s.len() > 0,
    ensures
        stack_shape(s.drop_last()),
        s.last() is Op || s.last() == TokenV::Bracket('('),
{
    assert(s.last() == s[s.len() - 1]);
    assert forall|i: int| 0 <= i < s.drop_last().len() implies (#[trigger] s.drop_last()[i]) is Op
        || s.drop_last()[i] == TokenV::Bracket('(') by {
        assert(s.drop_last()[i] == s[i]);
    }
}

proof fn lemma_pop_ops_shape(st: Shunt, o: Operator)
    requires
        stack_shape(st.stack),
        bracket_free(st.out),
    ensures
        stack_shape(pop_ops(st, o).stack),
        bracket_free(pop_ops(st, o).out),
        opens(pop_ops(st, o).stack) == opens(st.stack),
    decreases st.stack.len(),
{
    if pops_for(st.stack, o) {
        lemma_stack_shape_pop(st.stack);
        lemma_bracket_free_push(st.out, st.stack.last());
        lemma_pop_ops_shape(Shunt { out: st.out.push(st.stack.last()), stack: st.stack.drop_last() }, o);
    }
}

proof fn lemma_pop_group_shape(st: Shunt)
    requires
        stack_shape(st.stack),
        bracket_free(st.out),
        opens(st.stack) > 0,
    ensures
        stack_shape(pop_group(st).stack),
        bracket_free(pop_group(st).out),
        opens(pop_group(st).stack) == opens(st.stack) - 1,
    decreases st.stack.len(),
{
    lemma_stack_shape_pop(st.stack);
    if st.stack.last() != TokenV::Bracket('(') {
        lemma_bracket_free_push(st.out, st.stack.last());
        lemma_pop_group_shape(Shunt { out: st.out.push(st.stack.last()), stack: st.stack.drop_last() });
    }
}

/// From a well-shaped state holding `d` open brackets, the conversion over
/// tokens that take depth `d` to `d2` keeps the shape and ends holding `d2`.
proof fn lemma_shunt_shape(st: Shunt, d: nat, ts: Seq<TokenV>, d2: nat)
    requires
        stack_shape(st.stack),
        bracket_free(st.out),
        opens(st.stack) == d,
        depth_run(d, ts) == Some(d2),
    ensures
        stack_shape(shunt_run(st, ts).stack),
        bracket_free(shunt_run(st, ts).out),
        opens(shunt_run(st, ts).stack) == d2,
    decreases ts.len(),
{
    if ts.len() > 0 {
        let t = ts[0];
        let next = shunt_step(st, t);
        let dn: nat = if t == TokenV::Bracket('(') {
            d + 1
        } else if t == TokenV::Bracket(')') {
            (d - 1) as nat
        } else {
            d
        };
        match t {
            TokenV::Number(_) => {
                lemma_bracket_free_push(st.out, t);
            },
            TokenV::Op(o) => {
                lemma_pop_ops_shape(st, o);
                lemma_stack_shape_push(pop_ops(st, o).stack, t);
            },
            TokenV::Bracket(c) => {
                if c == '(' {
                    lemma_stack_shape_push(st.stack, t);
                } else if c == ')' {
                    lemma_pop_group_shape(st);
                }
            },
        }
        lemma_shunt_shape(next, dn, ts.skip(1), d2);
    }
}

proof fn lemma_no_opens(s: Seq<TokenV>)
    requires
        stack_shape(s),
        opens(s) == 0,
    ensures
        forall|i: int| 0 <= i < s.len() ==> (#[trigger] s[i]) is Op,
    decreases s.len(),
{
    if s.len() > 0 {
        lemma_stack_shape_pop(s);
        lemma_no_opens(s.drop_last());
        assert forall|i: int| 0 <= i < s.len() implies (#[trigger] s[i]) is Op by {
            if i < s.len() - 1 {
                assert(s[i] == s.drop_last()[i]);
            }
        }
    }
}

/// Where the brackets of `ts` are balanced, its postfix form holds literals
/// and operators only.
pub proof fn lemma_postfix_bracket_free(ts: Seq<TokenV>)
    requires
        balanced(ts),
    ensures
        bracket_free(postfix(ts)),
{
    let start = Shunt { out: Seq::empty(), stack: Seq::empty() };
    assert(stack_shape(start.stack));
    assert(bracket_free(start.out));
    lemma_shunt_shape(start, 0, ts, 0);
    let fin = shunt_run(start, ts);
    lemma_no_opens(fin.stack);
    let r = fin.out + fin.stack.reverse();
    assert forall|i: int| 0 <= i < r.len() implies (#[trigger] r[i]) is Number || r[i] is Op by {
        if i < fin.out.len() {
            assert(r[i] == fin.out[i]);
        } else {
            assert(r[i] == fin.stack[fin.stack.len() - 1 - (i - fin.out.len())]);
        }
    }
}

/// The bracket depth after one token, from depth `d`.
pub open spec fn depth_step(d: nat, t: TokenV) -> Option<nat> {
    if t == TokenV::Bracket('(') {
        Some(d + 1)
    } else if t == TokenV::Bracket(')') {
        if d == 0 {
            None
        } else {
            Some((d - 1) as nat)
        }
    } else {
        Some(d)
    }
}

proof fn lemma_depth_concat(d: nat, a: Seq<TokenV>, b: Seq<TokenV>)
    ensures
        depth_run(d, a + b) == match depth_run(d, a) {
            Some(d1) => depth_run(d1, b),
            None => None,
        },
    decreases a.len(),
{
    if a.len() == 0 {
        assert(a + b =~= b);
    } else {
        assert((a + b)[0] == a[0]);
        assert((a + b).skip(1) =~= a.skip(1) + b);
        let dn: nat = if a[0] == TokenV::Bracket('(') {
            d + 1
        } else if a[0] == TokenV::Bracket(')') {
            (d - 1) as nat
        } else {
            d
        };
        if !(a[0] == TokenV::Bracket(')') && d == 0) {
            lemma_depth_concat(dn, a.skip(1), b);
        }
    }
}

proof fn lemma_depth_one(d: nat, t: TokenV)
    ensures
        depth_run(d, seq![t]) == depth_step(d, t),
{
    assert(seq![t].skip(1) =~= Seq::<TokenV>::empty());
    let dn: nat = if t == TokenV::Bracket('(') {
        d + 1
    } else if t == TokenV::Bracket(')') {
        (d - 1) as nat
    } else {
        d
    };
    assert(depth_run(dn, Seq::<TokenV>::empty()) == Some(dn));
}

proof fn lemma_depth_push(a: Seq<TokenV>, t: TokenV, d: nat)
    requires
        depth_run(0, a) == Some(d),
    ensures
        depth_run(0, a.push(t)) == depth_step(d, t),
{
    assert(a.push(t) =~= a + seq![t]);
    lemma_depth_concat(0, a, seq![t]);
    lemma_depth_one(d, t);
}

/// After each character the tokens read so far have the tokenizer's count of
/// open brackets as their depth.
proof fn lemma_lex_depth(s: Seq<char>, i: nat)
    requires
        i <= s.len(),
        lex_prefix(s, i) is Ok,
    ensures
        depth_run(0, lex_prefix(s, i)->Ok_0.tokens) == Some(lex_prefix(s, i)->Ok_0.open),
    decreases i,
{
    if i == 0 {
        assert(depth_run(0, Seq::<TokenV>::empty()) == Some(0nat));
    } else {
        let p = (i - 1) as nat;
        lemma_lex_depth(s, p);
        let st0 = lex_prefix(s, p)->Ok_0;
        let c = s[i - 1];
        let t = st0.tokens;
        let d = st0.open;
        if !(st0.first && c == '-') {
            let st = LexState { first: false, ..st0 };
            match st.lead {
                Some(ds) => {
                    if c != '.' && !is_digit(c) {
                        let t1 = t.push(TokenV::Number(Num { negative: true, lead: ds.len(), digits: ds }));
                        lemma_depth_push(t, TokenV::Number(Num { negative: true, lead: ds.len(), digits: ds }), d);
                        if op_of(c) is Some {
                            lemma_depth_push(t1, TokenV::Op(op_of(c)->Some_0), d);
                        }
                    }
                },
                None => {
                    if is_digit(c) {
                        let n = t.len();
                        if n > 0 && t[n - 1] is Number {
                            let lit = t[n - 1]->Number_0;
                            let lit2 = Num {
                                negative: lit.negative,
                                lead: lit.lead,
                                digits: lit.digits.push(next_digit(st, c)),
                            };
                            let base = t.drop_last();
                            assert(t =~= base.push(t[n - 1]));
                            assert(t.update(n - 1, TokenV::Number(lit2)) =~= base.push(TokenV::Number(lit2)));
                            lemma_depth_concat(0, base, seq![t[n - 1]]);
                            assert(base + seq![t[n - 1]] =~= t);
                            lemma_depth_one((depth_run(0, base)->Some_0), t[n - 1]);
                            lemma_depth_concat(0, base, seq![TokenV::Number(lit2)]);
                            assert(base + seq![TokenV::Number(lit2)] =~= base.push(TokenV::Number(lit2)));
                            lemma_depth_one((depth_run(0, base)->Some_0), TokenV::Number(lit2));
                        } else {
                            let lit = Num { negative: false, lead: 0, digits: seq![Digit { value: digit_of(c), place: 0 }] };
                            lemma_depth_push(t, TokenV::Number(lit), d);
                        }
                    } else if op_of(c) is Some {
                        lemma_depth_push(t, TokenV::Op(op_of(c)->Some_0), d);
                    } else if c == '(' {
                        lemma_depth_push(t, TokenV::Bracket('('), d);
                    } else if c == ')' {
                        lemma_depth_push(t, TokenV::Bracket(')'), d);
                    }
                },
            }
        }
    }
}

/// Wrapping an exponent base adds brackets that match.
proof fn lemma_expansion_depth(ts: Seq<TokenV>, j: int, d: nat)
    requires
        0 <= j < ts.len(),
    ensures
        depth_run(d, expansion(ts, j)) == depth_step(d, ts[j]),
{
    let t = ts[j];
    if bare_base(ts, j) {
        let open = TokenV::Bracket('(');
        let close = TokenV::Bracket(')');
        let core = seq![open, t, close];
        lemma_depth_concat(d, seq![open], seq![t, close]);
        assert(seq![open] + seq![t, close] =~= core);
        lemma_depth_one(d, open);
        lemma_depth_concat(d + 1, seq![t], seq![close]);
        assert(seq![t] + seq![close] =~= seq![t, close]);
        lemma_depth_one(d + 1, t);
        let d2 = depth_step(d + 1, t)->Some_0;
        lemma_depth_one(d2, close);
        if t is Number && below_zero(t->Number_0) {
            let pre = seq![TokenV::Number(minus_one()), TokenV::Op(Operator::Mul)];
            lemma_depth_concat(d, pre, core);
            lemma_depth_concat(d, seq![pre[0]], seq![pre[1]]);
            assert(seq![pre[0]] + seq![pre[1]] =~= pre);
            lemma_depth_one(d, pre[0]);
            lemma_depth_one(d, pre[1]);
        }
    } else {
        lemma_depth_one(d, t);
    }
}

proof fn lemma_normalized_depth(ts: Seq<TokenV>, i: nat)
    requires
        i <= ts.len(),
    ensures
        depth_run(0, normalized_prefix(ts, i)) == depth_run(0, ts.take(i as int)),
    decreases i,
{
    if i == 0 {
        assert(ts.take(0) =~= Seq::<TokenV>::empty());
    } else {
        let p = (i - 1) as nat;
        lemma_normalized_depth(ts, p);
        lemma_depth_concat(0, normalized_prefix(ts, p), expansion(ts, p as int));
        assert(ts.take(i as int) =~= ts.take(p as int) + seq![ts[p as int]]);
        lemma_depth_concat(0, ts.take(p as int), seq![ts[p as int]]);
        match depth_run(0, ts.take(p as int)) {
            Some(d) => {
                lemma_expansion_depth(ts, p as int, d);
                lemma_depth_one(d, ts[p as int]);
            },
            None => {},
        }
    }
}

/// The tokens of a text that tokenizes are balanced, and so are they after
/// exponent bases are wrapped; their postfix form then holds literals and
/// operators only.
pub proof fn lemma_parsed_balanced(s: Seq<char>)
    requires
        lexed(s) is Ok,
    ensures
        balanced(lexed(s)->Ok_0),
        parsed(s) is Ok,
        balanced(parsed(s)->Ok_0),
        bracket_free(postfix(parsed(s)->Ok_0)),
{
    lemma_lex_depth(s, s.len());
    let ts = lexed(s)->Ok_0;
    lemma_normalized_depth(ts, ts.len());
    assert(ts.take(ts.len() as int) =~= ts);
    lemma_postfix_bracket_free(normalized(ts));
}

/// Operators of equal binding power group to the left: an operator on top of
/// the stack leaves it for an incoming one of the same precedence, `^`
/// included. `*` and `/` leave it for an incoming `%`, which does not leave
/// it for them, and `%` leaves it for an incoming `+` or `-`.
pub proof fn lemma_precedence_pops(stack: Seq<TokenV>, o: Operator, p: Operator)
    ensures
        precedence(p) == precedence(o) ==> pops_for(stack.push(TokenV::Op(p)), o),
        pops_for(stack.push(TokenV::Op(Operator::Exp)), Operator::Exp),
        pops_for(stack.push(TokenV::Op(Operator::Mul)), Operator::Mod),
        pops_for(stack.push(TokenV::Op(Operator::Div)), Operator::Mod),
        !pops_for(stack.push(TokenV::Op(Operator::Mod)), Operator::Mul),
        !pops_for(stack.push(TokenV::Op(Operator::Mod)), Operator::Div),
        pops_for(stack.push(TokenV::Op(Operator::Mod)), Operator::Add),
        pops_for(stack.push(TokenV::Op(Operator::Mod)), Operator::Sub),
        pops_for(stack.push(TokenV::Op(Operator::Exp)), o),
{
}

} // verus!
