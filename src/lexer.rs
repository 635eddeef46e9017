use vstd::prelude::*;

use crate::calculator::Calculator;
use crate::sanitize::chars_of;
use crate::token::{lemma_fit_digits, lemma_fit_push, lemma_fit_update, lemma_toks_push, places_fit, tokens_fit, op_of, operator_of, push_token, toks, Digit, Error, Literal, Num, Token, TokenV};

verus! {

/// What the tokenizer knows after reading a prefix of the text.
pub struct LexState {
    /// The tokens emitted so far.
    pub tokens: Seq<TokenV>,
    /// Brackets opened and not yet closed.
    pub open: nat,
    /// Nothing has been read yet.
    pub first: bool,
    /// The digits of the negative literal that opens the text, while it is read.
    pub lead: Option<Seq<Digit>>,
    /// A decimal point was read for the current literal.
    pub after_point: bool,
    /// Digits read after the decimal point.
    pub places: nat,
}

pub open spec fn lex_start() -> LexState {
    LexState {
        tokens: Seq::empty(),
        open: 0,
        first: true,
        lead: None,
        after_point: false,
        places: 0,
    }
}

pub open spec fn is_digit(c: char) -> bool {
    '0' <= c && c <= '9'
}

pub open spec fn digit_of(c: char) -> u8 {
    (c as u32 - '0' as u32) as u8
}

/// The digit `c` read in state `st`: a fractional one after a point.
pub open spec fn next_digit(st: LexState, c: char) -> Digit {
    if st.after_point {
        Digit { value: digit_of(c), place: (st.places + 1) as usize }
    } else {
        Digit { value: digit_of(c), place: 0 }
    }
}

/// The places count after reading digit `c` into a literal.
pub open spec fn next_places(st: LexState) -> nat {
    if st.after_point {
        st.places + 1
    } else {
        st.places
    }
}

pub open spec fn reset(st: LexState, tokens: Seq<TokenV>) -> LexState {
    LexState { tokens, after_point: false, places: 0, ..st }
}

/// One character read while the leading negative literal is open.
pub open spec fn lead_step(st: LexState, ds: Seq<Digit>, c: char) -> LexState {
    if c == '.' {
        LexState { after_point: true, ..st }
    } else if is_digit(c) {
        LexState { lead: Some(ds.push(next_digit(st, c))), places: next_places(st), ..st }
    } else {
        let t = st.tokens.push(TokenV::Number(Num { negative: true, lead: ds.len(), digits: ds }));
        let t = match op_of(c) {
            Some(o) => t.push(TokenV::Op(o)),
            None => t,
        };
        LexState { lead: None, ..reset(st, t) }
    }
}

/// One digit read outside the leading literal: it extends a literal that
/// ends the tokens, or starts a new one.
pub open spec fn digit_step(st: LexState, c: char) -> LexState {
    let n = st.tokens.len();
    if n > 0 && st.tokens[n - 1] is Number {
        let lit = st.tokens[n - 1]->Number_0;
        let lit2 = Num { negative: lit.negative, lead: lit.lead, digits: lit.digits.push(next_digit(st, c)) };
        LexState { tokens: st.tokens.update(n - 1, TokenV::Number(lit2)), places: next_places(st), ..st }
    } else {
        let lit = Num { negative: false, lead: 0, digits: seq![Digit { value: digit_of(c), place: 0 }] };
        LexState { tokens: st.tokens.push(TokenV::Number(lit)), ..st }
    }
}

/// One character read.
pub open spec fn lex_step(st0: LexState, c: char) -> Result<LexState, Error> {
    if st0.first && c == '-' {
        Ok(LexState { first: false, lead: Some(Seq::empty()), ..st0 })
    } else {
        let st = LexState { first: false, ..st0 };
        match st.lead {
            Some(ds) => Ok(lead_step(st, ds, c)),
            None => {
                if is_digit(c) {
                    Ok(digit_step(st, c))
                } else if op_of(c) is Some {
                    Ok(reset(st, st.tokens.push(TokenV::Op(op_of(c)->Some_0))))
                } else if c == '.' {
                    Ok(LexState { after_point: true, ..st })
                } else if c == '(' {
                    Ok(LexState { open: st.open + 1, ..reset(st, st.tokens.push(TokenV::Bracket('('))) })
                } else if c == ')' {
                    if st.open == 0 {
                        Err(Error::MismatchedParenthesies)
                    } else {
                        Ok(LexState { open: (st.open - 1) as nat, ..reset(st, st.tokens.push(TokenV::Bracket(')'))) })
                    }
                } else if c == ' ' {
                    Ok(reset(st, st.tokens))
                } else if c == '\n' {
                    Ok(st)
                } else {
                    Err(Error::BadToken(c))
                }
            }
        }
    }
}

/// The state after reading the first `i` characters of `s`, or the first error.
pub open spec fn lex_prefix(s: Seq<char>, i: nat) -> Result<LexState, Error>
    decreases i,
{
    if i == 0 {
        Ok(lex_start())
    } else {
        match lex_prefix(s, (i - 1) as nat) {
            Ok(st) => lex_step(st, s[i - 1]),
            Err(e) => Err(e),
        }
    }
}

/// The tokens of `s`: an error where a character is refused, a bracket is
/// closed that was never opened, or one is left open at the end.
pub open spec fn lexed(s: Seq<char>) -> Result<Seq<TokenV>, Error> {
    match lex_prefix(s, s.len()) {
        Err(e) => Err(e),
        Ok(st) => if st.open > 0 {
            Err(Error::MismatchedParenthesies)
        } else {
            Ok(st.tokens)
        },
    }
}

proof fn lemma_lex_error_stays(s: Seq<char>, i: nat, j: nat, e: Error)
    requires
        i <= j <= s.len(),
        lex_prefix(s, i) == Err::<LexState, Error>(e),
    ensures
        lex_prefix(s, j) == Err::<LexState, Error>(e),
    decreases j - i,
{
    if i < j {
        lemma_lex_error_stays(s, i + 1, j, e);
    }
}

/// Reads one digit outside the leading literal: extends the literal that ends
/// `tokens` (returning true), or starts a new one.
fn read_digit(tokens: &mut Vec<Token>, value: u8, place: usize) -> (extended: bool)
    ensures
        ({
            let t = toks(old(tokens)@);
            let n = t.len();
            if n > 0 && t[n - 1] is Number {
                let lit = t[n - 1]->Number_0;
                &&& extended
                &&& toks(final(tokens)@) == t.update(
                    n - 1,
                    TokenV::Number(
                        Num { negative: lit.negative, lead: lit.lead, digits: lit.digits.push(Digit { value, place }) },
                    ),
                )
            } else {
                &&& !extended
                &&& toks(final(tokens)@) == t.push(
                    TokenV::Number(Num { negative: false, lead: 0, digits: seq![Digit { value, place: 0 }] }),
                )
            }
        }),
{
    let n = tokens.len();
    if n > 0 && matches!(tokens[n - 1], Token::Number(_)) {
        let ghost before = tokens@;
        let last = tokens.pop();
        proof {
            assert(before =~= tokens@.push(before[n - 1]));
        }
        match last {
            Some(Token::Number(mut lit)) => {
                lit.digits.push(Digit { value, place });
                proof {
                    lemma_toks_push(tokens@, Token::Number(lit));
                    assert(toks(tokens@).push(Token::Number(lit)@) =~= toks(before).update(
                        n - 1,
                        Token::Number(lit)@,
                    ));
                }
                tokens.push(Token::Number(lit));
                true
            },
            _ => {
                proof {
                    assert(false);
                }
                false
            },
        }
    } else {
        let mut digits: Vec<Digit> = Vec::new();
        digits.push(Digit { value, place: 0 });
        proof {
            assert(digits@ =~= seq![Digit { value, place: 0 }]);
        }
        push_token(tokens, Token::Number(Literal { negative: false, lead: 0, digits }));
        false
    }
}

/// The tokenizer's abstract state from its executable parts.
pub open spec fn lex_state(
    tokens: Seq<Token>,
    open: usize,
    first: bool,
    in_lead: bool,
    lead: Seq<Digit>,
    after_point: bool,
    places: usize,
) -> LexState {
    LexState {
        tokens: toks(tokens),
        open: open as nat,
        first,
        lead: if in_lead {
            Some(lead)
        } else {
            None
        },
        after_point,
        places: places as nat,
    }
}

impl Calculator {
    /// Splits `expr` into tokens; see `lexed`.
    pub fn tokenize(expr: &str) -> (r: Result<Vec<Token>, Error>)
        ensures
            r is Ok ==> lexed(expr@) == Ok::<Seq<TokenV>, Error>(toks(r->Ok_0@)),
            r is Err ==> lexed(expr@) == Err::<Seq<TokenV>, Error>(r->Err_0),
            r is Ok ==> tokens_fit(toks(r->Ok_0@)),
    {
        let chars = chars_of(expr);
        let ghost s = expr@;
        let mut tokens: Vec<Token> = Vec::new();
        let mut open: usize = 0;
        let mut first: bool = true;
        let mut in_lead: bool = false;
        let mut lead: Vec<Digit> = Vec::new();
        let mut after_point: bool = false;
        let mut places: usize = 0;
        let mut i: usize = 0;
        proof {
            assert(toks(tokens@) =~= Seq::<TokenV>::empty());
        }
        while i < chars.len()
            invariant
                chars@ == s,
                s == expr@,
                !in_lead ==> lead@ == Seq::<Digit>::empty(),
                i <= chars.len(),
                open <= i,
                places <= i,
                !after_point ==> places == 0,
                after_point ==> places < i,
                tokens_fit(toks(tokens@)),
                forall|k: int| 0 <= k < lead@.len() ==> (#[trigger] lead@[k]).place < usize::MAX,
                lex_prefix(s, i as nat) == Ok::<LexState, Error>(
                    lex_state(tokens@, open, first, in_lead, lead@, after_point, places),
                ),
            decreases chars.len() - i,
        {
            let c = chars[i];
            let ghost st0 = lex_state(tokens@, open, first, in_lead, lead@, after_point, places);
            proof {
                assert(lex_prefix(s, (i + 1) as nat) == lex_step(st0, c));
            }
            if first && c == '-' {
                first = false;
                in_lead = true;
            } else {
                first = false;
                if in_lead {
                    if c == '.' {
                        after_point = true;
                    } else if '0' <= c && c <= '9' {
                        let value = (c as u32 - '0' as u32) as u8;
                        if after_point {
                            places = places + 1;
                            lead.push(Digit { value, place: places });
                        } else {
                            lead.push(Digit { value, place: 0 });
                        }
                        assert forall|k: int| 0 <= k < lead@.len() implies (#[trigger] lead@[k]).place < usize::MAX by {
                            if k < lead@.len() - 1 {
                                assert(lead@[k] == lead@.drop_last()[k]);
                            }
                        }
                    } else {
                        let covered = lead.len();
                        let lit = Literal { negative: true, lead: covered, digits: lead };
                        proof {
                            lemma_fit_push(toks(tokens@), Token::Number(lit)@);
                        }
                        push_token(&mut tokens, Token::Number(lit));
                        lead = Vec::new();
                        match operator_of(c) {
                            Some(o) => {
                                proof {
                                    lemma_fit_push(toks(tokens@), TokenV::Op(o));
                                }
                                proof {
                                lemma_fit_push(toks(tokens@), Token::Op(o)@);
                            }
                            push_token(&mut tokens, Token::Op(o));
                            },
                            None => {},
                        }
                        in_lead = false;
                        after_point = false;
                        places = 0;
                    }
                } else if '0' <= c && c <= '9' {
                    let value = (c as u32 - '0' as u32) as u8;
                    let place = if after_point {
                        places + 1
                    } else {
                        0
                    };
                    let ghost t0 = toks(tokens@);
                    let extended = read_digit(&mut tokens, value, place);
                    proof {
                        let n = t0.len();
                        if n > 0 && t0[n - 1] is Number {
                            let lit = t0[n - 1]->Number_0;
                            lemma_fit_digits(lit, Digit { value, place });
                            lemma_fit_update(
                                t0,
                                n - 1,
                                TokenV::Number(
                                    Num { negative: lit.negative, lead: lit.lead, digits: lit.digits.push(Digit { value, place }) },
                                ),
                            );
                        } else {
                            let d0 = Num { negative: false, lead: 0, digits: seq![Digit { value, place: 0 }] };
                            assert(places_fit(d0)) by {
                                assert forall|j: int| 0 <= j < d0.digits.len() implies (#[trigger] d0.digits[j]).place < usize::MAX by {
                                    assert(d0.digits[j] == Digit { value, place: 0 });
                                }
                            }
                            lemma_fit_push(t0, TokenV::Number(d0));
                        }
                    }
                    if extended && after_point {
                        places = places + 1;
                    }
                } else {
                    match operator_of(c) {
                        Some(o) => {
                            proof {
                                lemma_fit_push(toks(tokens@), Token::Op(o)@);
                            }
                            push_token(&mut tokens, Token::Op(o));
                            after_point = false;
                            places = 0;
                        },
                        None => {
                            if c == '.' {
                                after_point = true;
                            } else if c == '(' {
                                proof {
                                    lemma_fit_push(toks(tokens@), Token::Bracket('(')@);
                                }
                                push_token(&mut tokens, Token::Bracket('('));
                                open = open + 1;
                                after_point = false;
                                places = 0;
                            } else if c == ')' {
                                if open == 0 {
                                    proof {
                                        assert(lex_step(st0, c) == Err::<LexState, Error>(Error::MismatchedParenthesies));
                                        lemma_lex_error_stays(s, (i + 1) as nat, s.len(), Error::MismatchedParenthesies);
                                    }
                                    return Err(Error::MismatchedParenthesies);
                                }
                                proof {
                                    lemma_fit_push(toks(tokens@), Token::Bracket(')')@);
                                }
                                push_token(&mut tokens, Token::Bracket(')'));
                                open = open - 1;
                                after_point = false;
                                places = 0;
                            } else if c == ' ' {
                                after_point = false;
                                places = 0;
                            } else if c == '\n' {
                            } else {
                                proof {
                                    assert(lex_step(st0, c) == Err::<LexState, Error>(Error::BadToken(c)));
                                    lemma_lex_error_stays(s, (i + 1) as nat, s.len(), Error::BadToken(c));
                                }
                                return Err(Error::BadToken(c));
                            }
                        },
                    }
                }
            }
            i += 1;
            proof {
                assert(lex_prefix(s, i as nat) == Ok::<LexState, Error>(
                    lex_state(tokens@, open, first, in_lead, lead@, after_point, places),
                ));
            }
        }
        if open > 0 {
            return Err(Error::MismatchedParenthesies);
        }
        Ok(tokens)
    }
}

} // verus!
