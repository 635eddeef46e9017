use calculator::{Calculator, Digit, Error, Expr, Literal, Operator, Token};

fn literal_value(l: &Literal) -> f64 {
    let mut v: f64 = 0.0;
    for (i, d) in l.digits.iter().enumerate() {
        if l.negative && i == l.lead {
            v = -v;
        }
        if d.place == 0 {
            v = v * 10.0 + d.value as f64;
        } else {
            let mut x: f64 = d.value as f64;
            for _ in 0..d.place {
                x /= 10.0;
            }
            v += x;
        }
    }
    if l.negative && l.lead >= l.digits.len() {
        v = -v;
    }
    v
}

fn value(e: &Expr) -> f64 {
    match e {
        Expr::Number(l) => literal_value(l),
        Expr::Binary(op, a, b) => {
            let x = value(a);
            let y = value(b);
            match op {
                Operator::Add => x + y,
                Operator::Sub => x - y,
                Operator::Mul => x * y,
                Operator::Div => x / y,
                Operator::Exp => x.powf(y),
                Operator::Mod => x.rem_euclid(y),
            }
        }
    }
}

fn run(input: &str) -> Option<f64> {
    match Calculator::calculate(input) {
        Ok(Some(e)) => Some(value(&e)),
        Ok(None) => None,
        Err(e) => panic!("unexpected error {:?}", e),
    }
}

fn test_template(input: &str, assertion: f64) -> Result<(), Error> {
    let input = Calculator::sanitize_input(input);
    let tokens = Calculator::parse(&input)?;
    let expr = Calculator::expression(tokens);
    let v = Calculator::evaluate(expr).map(|e| value(&e));
    assert_eq!(v, Some(assertion));
    Ok(())
}

#[test]
fn basic() -> Result<(), Error> {
    test_template("1 +1-4     +54444", 54442.0)
}

#[test]
fn negative_exp() -> Result<(), Error> {
    test_template("(-2)^2", 4.0)
}

#[test]
fn negative_exp2() -> Result<(), Error> {
    test_template("-2^2", -4.0)
}

#[test]
fn negative_exp3() -> Result<(), Error> {
    test_template("(-2*2)^2", 16.0)
}

#[test]
fn modulo() -> Result<(), Error> {
    test_template("-4%23", 19.0)
}

#[test]
fn tokenize_empty_is_empty() {
    assert_eq!(Calculator::tokenize(""), Ok(Vec::new()));
    assert_eq!(Calculator::parse(""), Ok(Vec::new()));
}

#[test]
fn tokenize_unclosed_bracket() {
    assert_eq!(Calculator::tokenize("(1+2"), Err(Error::MismatchedParenthesies));
    assert_eq!(Calculator::parse("(1+2"), Err(Error::MismatchedParenthesies));
}

#[test]
fn tokenize_unopened_bracket() {
    assert_eq!(Calculator::tokenize("1+2)"), Err(Error::MismatchedParenthesies));
    assert_eq!(Calculator::parse("1+2)"), Err(Error::MismatchedParenthesies));
}

#[test]
fn tokenize_bad_token() {
    assert_eq!(Calculator::tokenize("1+2a"), Err(Error::BadToken('a')));
    assert_eq!(Calculator::calculate("1+2a"), Err(Error::BadToken('a')));
}

#[test]
fn exponent_is_left_associative() {
    assert_eq!(run("2^2^3"), Some(64.0));
}

#[test]
fn mul_and_div_pop_against_mod() {
    assert_eq!(run("2*5%3"), Some(1.0));
    assert_eq!(run("9/3%2"), Some(1.0));
    assert_eq!(run("8%3*2"), Some(2.0));
}

#[test]
fn precedence_orders() {
    assert_eq!(run("1+2*3"), Some(7.0));
    assert_eq!(run("3*2+1"), Some(7.0));
    assert_eq!(run("1+5%3"), Some(3.0));
    assert_eq!(run("10-4-3"), Some(3.0));
    assert_eq!(run("2*(3+4)"), Some(14.0));
    assert_eq!(run("2^3*2"), Some(16.0));
}

#[test]
fn decimals() {
    assert_eq!(run("1.5+2.25"), Some(3.75));
    assert_eq!(run("10/4"), Some(2.5));
    assert_eq!(run("-1.5*2"), Some(-3.0));
}

#[test]
fn space_ends_decimal_but_not_literal() {
    assert_eq!(run("1 2"), Some(12.0));
    assert_eq!(run("1.5 2"), Some(17.0));
}

#[test]
fn newline_is_ignored() {
    assert_eq!(run("1+\n2"), Some(3.0));
}

#[test]
fn euclidean_modulo_with_negative_left() {
    assert_eq!(run("-7%3"), Some(2.0));
    assert_eq!(run("7%3"), Some(1.0));
}

#[test]
fn division_by_zero_is_infinite() {
    assert_eq!(run("1/0"), Some(f64::INFINITY));
    assert!(run("0/0").unwrap().is_nan());
}

#[test]
fn malformed_gives_no_result() {
    assert_eq!(run(""), None);
    assert_eq!(run("1+"), None);
    assert_eq!(run("*"), None);
}

#[test]
fn leading_minus_alone_gives_nothing() {
    assert_eq!(Calculator::tokenize("-2"), Ok(Vec::new()));
}

#[test]
fn sanitize_rewrites_unary_minus() {
    assert_eq!(Calculator::sanitize_input("-(1)"), "-1*(1)");
    assert_eq!(Calculator::sanitize_input("(-2)"), "(0-2)");
    assert_eq!(Calculator::sanitize_input("(-(2))"), "(0-1*(2))");
    assert_eq!(Calculator::sanitize_input("1+2"), "1+2");
    assert_eq!(Calculator::sanitize_input(""), "");
}

#[test]
fn sanitize_twice_is_sanitize_once() {
    for s in ["-(1)", "(-(2))", "(-(-(3)))", "-(-(", "((--((", "1+2"] {
        let once = Calculator::sanitize_input(s);
        let twice = Calculator::sanitize_input(&once);
        assert_eq!(once, twice);
    }
}

#[test]
fn nested_negative_groups() {
    assert_eq!(run("-(2+3)"), Some(-5.0));
    assert_eq!(run("2*(-3)"), Some(-6.0));
}

#[test]
fn postfix_round_trip() {
    let tokens = Calculator::parse("1+2*3").unwrap();
    let post = Calculator::expression(tokens);
    let ops: Vec<String> = post
        .iter()
        .map(|t| match t {
            Token::Number(l) => format!("{}", literal_value(l)),
            Token::Op(o) => o.symbol().to_string(),
            Token::Bracket(c) => c.to_string(),
        })
        .collect();
    assert_eq!(ops, vec!["1", "2", "3", "*", "+"]);
}

#[test]
fn exponent_base_wrapping() {
    let tokens = Calculator::tokenize("2^3").unwrap();
    let fixed = Calculator::fix_exponents(tokens);
    assert_eq!(fixed.len(), 5);
    assert_eq!(fixed[0], Token::Bracket('('));
    assert_eq!(fixed[2], Token::Bracket(')'));
    assert_eq!(fixed[3], Token::Op(Operator::Exp));
    let tokens = Calculator::tokenize("-2^3").unwrap();
    let fixed = Calculator::fix_exponents(tokens);
    assert_eq!(fixed.len(), 7);
    assert_eq!(fixed[1], Token::Op(Operator::Mul));
    assert_eq!(run("-2^3"), Some(8.0));
}

#[test]
fn operator_precedence_values() {
    assert_eq!(Operator::Add.precedence(), Operator::Sub.precedence());
    assert!(Operator::Sub.precedence() < Operator::Mod.precedence());
    assert!(Operator::Mod.precedence() < Operator::Mul.precedence());
    assert_eq!(Operator::Mul.precedence(), Operator::Div.precedence());
    assert!(Operator::Div.precedence() < Operator::Exp.precedence());
}

#[test]
fn postfix_holds_no_brackets() {
    for s in ["(1+2)*3", "((4))", "2^(1+1)", "-2^2", "(2)^(3)"] {
        let post = Calculator::expression(Calculator::parse(s).unwrap());
        assert!(post.iter().all(|t| !matches!(t, Token::Bracket(_))));
    }
    assert_eq!(run("2^(1+1)"), Some(4.0));
    assert_eq!(run("(2)^(3)"), Some(8.0));
}

#[test]
fn minimal_brackets_round_trip() {
    assert_eq!(run("2-(3-4)"), Some(3.0));
    assert_eq!(run("(2-3)-4"), Some(-5.0));
    assert_eq!(run("2^(3*2)"), Some(64.0));
    assert_eq!(run("(1+2)%2"), Some(1.0));
}

#[test]
fn digits_after_leading_literal_extend_negated_value() {
    assert_eq!(run("-3 4"), Some(-26.0));
    assert_eq!(run("-2 3"), Some(-17.0));
}

#[test]
fn exponent_base_sign_is_exact() {
    assert_eq!(run("-0 5^2"), Some(25.0));
    assert_eq!(run("-3 4^2"), Some(-676.0));
    assert_eq!(run("-.1 3^2"), Some(4.0));
}

#[test]
fn literal_sign() {
    let d = |value: u8, place: usize| Digit { value, place };
    let lit = Literal { negative: true, lead: 1, digits: vec![d(3, 0), d(4, 0)] };
    assert!(lit.is_below_zero());
    let lit = Literal { negative: true, lead: 1, digits: vec![d(0, 0), d(5, 0)] };
    assert!(!lit.is_below_zero());
    let lit = Literal { negative: true, lead: 1, digits: vec![d(1, 1), d(3, 0)] };
    assert!(!lit.is_below_zero());
    let lit = Literal { negative: true, lead: 2, digits: vec![d(0, 0), d(0, 1)] };
    assert!(!lit.is_below_zero());
    let lit = Literal { negative: true, lead: 2, digits: vec![d(0, 0), d(1, 3)] };
    assert!(lit.is_below_zero());
    let lit = Literal { negative: false, lead: 0, digits: vec![d(7, 0)] };
    assert!(!lit.is_below_zero());
}
