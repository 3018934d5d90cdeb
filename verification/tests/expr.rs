//! Expressions.

use dsline::eval::eval_with;
use dsline::expr::{BinOp, Expr, ParseError, UnaryOp};
use std::collections::HashMap;

fn rec(pairs: &[(&str, f64)]) -> HashMap<String, f64> {
    pairs.iter().map(|(k, v)| (k.to_string(), *v)).collect()
}

fn truth(value: bool) -> Option<f64> {
    Some(if value { 1.0 } else { 0.0 })
}

fn binary(op: BinOp, l: f64, r: f64) -> Option<f64> {
    match op {
        BinOp::Add => Some(l + r),
        BinOp::Sub => Some(l - r),
        BinOp::Mul => Some(l * r),
        BinOp::Div => {
            if r == 0.0 {
                None
            } else {
                Some(l / r)
            }
        }
        BinOp::Eq => truth((l - r).abs() < f64::EPSILON),
        BinOp::Neq => truth((l - r).abs() >= f64::EPSILON),
        BinOp::Lt => truth(l < r),
        BinOp::Le => truth(l <= r),
        BinOp::Gt => truth(l > r),
        BinOp::Ge => truth(l >= r),
        BinOp::And => truth(l != 0.0 && r != 0.0),
        BinOp::Or => truth(l != 0.0 || r != 0.0),
    }
}

fn unary(op: UnaryOp, value: f64) -> Option<f64> {
    match op {
        UnaryOp::Neg => Some(-value),
        UnaryOp::Not => truth(value == 0.0),
    }
}

fn number(text: &String) -> f64 {
    text.parse().expect("number")
}

fn show(value: &f64) -> String {
    if *value == value.trunc() && value.is_finite() {
        format!("{value:.0}")
    } else {
        format!("{value}")
    }
}

fn parse_expr(source: &str) -> Result<Expr<f64>, ParseError> {
    dsline::expr::parse_expr(source, &number)
}

fn eval(expr: &Expr<f64>, record: &HashMap<String, f64>) -> Option<f64> {
    eval_with(
        expr,
        &|name: &String| record.get(name).copied(),
        &binary,
        &unary,
    )
}

fn eval_bool(expr: &Expr<f64>, record: &HashMap<String, f64>) -> Option<bool> {
    eval(expr, record).map(|value| value != 0.0)
}

#[test]
fn parse_literal() {
    assert_eq!(parse_expr("42").unwrap(), Expr::Literal(42.0));
    assert_eq!(parse_expr("3.14").unwrap(), Expr::Literal(3.14));
}

#[test]
fn parse_column() {
    assert_eq!(
        parse_expr("temperature").unwrap(),
        Expr::Column("temperature".into())
    );
}

#[test]
fn parse_arithmetic() {
    assert_eq!(
        parse_expr("a + b * 2").unwrap(),
        Expr::Binary(
            Box::new(Expr::Column("a".into())),
            BinOp::Add,
            Box::new(Expr::Binary(
                Box::new(Expr::Column("b".into())),
                BinOp::Mul,
                Box::new(Expr::Literal(2.0)),
            )),
        )
    );
}

#[test]
fn parse_comparison() {
    assert_eq!(
        parse_expr("x > 10").unwrap(),
        Expr::Binary(
            Box::new(Expr::Column("x".into())),
            BinOp::Gt,
            Box::new(Expr::Literal(10.0)),
        )
    );
}

#[test]
fn parse_logic() {
    let ast = parse_expr("a > 0 and b < 10").unwrap();
    assert_eq!(
        ast,
        Expr::Binary(
            Box::new(Expr::Binary(
                Box::new(Expr::Column("a".into())),
                BinOp::Gt,
                Box::new(Expr::Literal(0.0)),
            )),
            BinOp::And,
            Box::new(Expr::Binary(
                Box::new(Expr::Column("b".into())),
                BinOp::Lt,
                Box::new(Expr::Literal(10.0)),
            )),
        )
    );
}

#[test]
fn parse_not_unary() {
    assert_eq!(
        parse_expr("not flag").unwrap(),
        Expr::Unary(UnaryOp::Not, Box::new(Expr::Column("flag".into())))
    );
}

#[test]
fn parse_neg_unary() {
    assert_eq!(
        parse_expr("-x").unwrap(),
        Expr::Unary(UnaryOp::Neg, Box::new(Expr::Column("x".into())))
    );
}

#[test]
fn parse_precedence() {
    // "a + b * c" → a + (b * c), not (a + b) * c
    let ast = parse_expr("a + b * c").unwrap();
    assert_eq!(
        ast,
        Expr::Binary(
            Box::new(Expr::Column("a".into())),
            BinOp::Add,
            Box::new(Expr::Binary(
                Box::new(Expr::Column("b".into())),
                BinOp::Mul,
                Box::new(Expr::Column("c".into())),
            )),
        )
    );
}

#[test]
fn parse_parentheses_override_precedence() {
    let ast = parse_expr("(a + b) * c").unwrap();
    assert_eq!(
        ast,
        Expr::Binary(
            Box::new(Expr::Binary(
                Box::new(Expr::Column("a".into())),
                BinOp::Add,
                Box::new(Expr::Column("b".into())),
            )),
            BinOp::Mul,
            Box::new(Expr::Column("c".into())),
        )
    );
}

#[test]
fn parse_rejects_empty() {
    assert_eq!(parse_expr("").unwrap_err(), ParseError::UnexpectedEnd);
}

#[test]
fn parse_rejects_unexpected_tokens() {
    assert!(matches!(
        parse_expr("a +").unwrap_err(),
        ParseError::UnexpectedEnd
    ));
}

#[test]
fn eval_literal() {
    assert_eq!(eval(&parse_expr("3.14").unwrap(), &rec(&[])), Some(3.14));
}

#[test]
fn eval_column_lookup() {
    let r = rec(&[("x", 5.0)]);
    assert_eq!(eval(&parse_expr("x").unwrap(), &r), Some(5.0));
}

#[test]
fn eval_missing_column() {
    assert_eq!(eval(&parse_expr("y").unwrap(), &rec(&[])), None);
}

#[test]
fn eval_arithmetic() {
    let r = rec(&[("a", 10.0), ("b", 3.0)]);
    assert_eq!(eval(&parse_expr("a + b").unwrap(), &r), Some(13.0));
    assert_eq!(eval(&parse_expr("a - b").unwrap(), &r), Some(7.0));
    assert_eq!(eval(&parse_expr("a * b").unwrap(), &r), Some(30.0));
    assert_eq!(eval(&parse_expr("a / b").unwrap(), &r), Some(10.0 / 3.0));
}

#[test]
fn eval_division_by_zero() {
    let r = rec(&[("x", 1.0)]);
    assert_eq!(eval(&parse_expr("x / 0").unwrap(), &r), None);
}

#[test]
fn eval_comparison() {
    let r = rec(&[("a", 5.0), ("b", 10.0)]);
    assert_eq!(eval_bool(&parse_expr("a < b").unwrap(), &r), Some(true));
    assert_eq!(eval_bool(&parse_expr("a == b").unwrap(), &r), Some(false));
    assert_eq!(eval_bool(&parse_expr("a != b").unwrap(), &r), Some(true));
    assert_eq!(eval_bool(&parse_expr("a >= 5").unwrap(), &r), Some(true));
    assert_eq!(eval_bool(&parse_expr("a <= 3").unwrap(), &r), Some(false));
}

#[test]
fn eval_logic() {
    let r = rec(&[("a", 1.0), ("b", 0.0)]);
    // a and not b → true
    assert_eq!(
        eval_bool(&parse_expr("a and not b").unwrap(), &r),
        Some(true)
    );
    // a and b → false
    assert_eq!(eval_bool(&parse_expr("a and b").unwrap(), &r), Some(false));
    // a or b → true
    assert_eq!(eval_bool(&parse_expr("a or b").unwrap(), &r), Some(true));
}

#[test]
fn eval_complex() {
    let r = rec(&[("temperature", 25.0), ("humidity", 60.0)]);
    let expr = parse_expr("temperature > 20 and humidity < 80").unwrap();
    assert_eq!(eval_bool(&expr, &r), Some(true));

    let r2 = rec(&[("temperature", 30.0), ("humidity", 90.0)]);
    assert_eq!(eval_bool(&expr, &r2), Some(false));
}

#[test]
fn display_round_trips_for_parsing() {
    for input in [
        "42",
        "x",
        "a + b",
        "x > 10",
        "a > 0 and b < 10",
        "not flag",
        "(a + b) * c",
    ] {
        let ast = parse_expr(input).unwrap();
        let rendered = ast.render(&show);
        let parsed_again = parse_expr(&rendered).unwrap();
        assert_eq!(ast, parsed_again, "failed round-trip for: {input}");
    }
}

fn column(name: &str) -> Box<Expr<f64>> {
    Box::new(Expr::Column(name.into()))
}

#[test]
fn numbers_are_read_and_shown_by_the_caller() {
    for (text, value, shown) in [
        ("007.50", 7.5, "7.5"),
        ("1.", 1.0, "1"),
        (".5", 0.5, "0.5"),
        ("00", 0.0, "0"),
        ("0.0", 0.0, "0"),
        ("10", 10.0, "10"),
        ("9007199254740993", 9007199254740992.0, "9007199254740992"),
        ("0.1000000000000000055511151231257827", 0.1, "0.1"),
        ("inf", f64::INFINITY, "inf"),
        ("Infinity", f64::INFINITY, "inf"),
    ] {
        assert_eq!(parse_expr(text).unwrap(), Expr::Literal(value), "{text}");
        let rendered = parse_expr(text).unwrap().render(&show);
        assert_eq!(rendered, shown);
        assert_eq!(parse_expr(&rendered).unwrap(), parse_expr(text).unwrap());
    }
    assert_eq!(
        parse_expr(&"9".repeat(400)).unwrap(),
        Expr::Literal(f64::INFINITY)
    );
    let none = parse_expr("NaN").unwrap();
    assert_eq!(none.render(&show), "NaN");
    assert!(none != none.clone());
    for bad in [".", "1.2.3", ".."] {
        assert_eq!(
            parse_expr(bad).unwrap_err(),
            ParseError::UnexpectedToken(bad.into())
        );
    }
}

#[test]
fn tokens_behind_an_expression_are_rejected() {
    for (text, token) in [
        ("a b", "b"),
        ("1e5", "e5"),
        ("a < b < c", "<"),
        ("(a) )", ")"),
        ("a = b", "="),
        ("a == b == c", "=="),
    ] {
        assert_eq!(
            parse_expr(text).unwrap_err(),
            ParseError::UnexpectedToken(token.into()),
            "{text}"
        );
    }
}

#[test]
fn operands_have_one_prefix_at_most() {
    assert_eq!(
        parse_expr("--x").unwrap_err(),
        ParseError::UnexpectedToken("-".into())
    );
    for text in ["not not x", "not not", "- not"] {
        assert_eq!(
            parse_expr(text).unwrap_err(),
            ParseError::UnexpectedToken("not".into()),
            "{text}"
        );
    }
    assert_eq!(
        parse_expr("-(-x)").unwrap(),
        Expr::Unary(
            UnaryOp::Neg,
            Box::new(Expr::Unary(UnaryOp::Neg, column("x")))
        )
    );
    assert_eq!(parse_expr("-(-x)").unwrap().render(&show), "(-(-x))");
}

#[test]
fn operators_of_one_level_group_to_the_left() {
    assert_eq!(parse_expr("a - b - c").unwrap().render(&show), "((a - b) - c)");
    assert_eq!(parse_expr("a / b * c").unwrap().render(&show), "((a / b) * c)");
    assert_eq!(
        parse_expr("a or b and not c or d").unwrap().render(&show),
        "((a or (b and (not c))) or d)"
    );
    assert_eq!(
        parse_expr("a+1<=b*2").unwrap().render(&show),
        "((a + 1) <= (b * 2))"
    );
    for (sign, op) in [
        ("==", BinOp::Eq),
        ("!=", BinOp::Neq),
        ("<", BinOp::Lt),
        ("<=", BinOp::Le),
        (">", BinOp::Gt),
        (">=", BinOp::Ge),
    ] {
        assert_eq!(
            parse_expr(&format!("x{sign}y")).unwrap(),
            Expr::Binary(column("x"), op, column("y"))
        );
        assert_eq!(op.as_str(), sign);
    }
}

#[test]
fn names_are_read_in_lower_case() {
    assert_eq!(
        parse_expr("Not FLAG_1").unwrap(),
        Expr::Unary(UnaryOp::Not, column("flag_1"))
    );
    assert_eq!(parse_expr("ÄPFEL").unwrap(), *column("äpfel"));
    assert_eq!(parse_expr("äpfel").unwrap().render(&show), "äpfel");
    assert_eq!(parse_expr("_x9").unwrap(), *column("_x9"));
    assert_eq!(
        parse_expr("a AND b").unwrap(),
        Expr::Binary(column("a"), BinOp::And, column("b"))
    );
}

#[test]
fn what_is_missing_or_odd_is_reported() {
    assert_eq!(
        parse_expr("(a").unwrap_err(),
        ParseError::UnexpectedEnd
    );
    assert_eq!(
        parse_expr("(a b").unwrap_err(),
        ParseError::UnexpectedToken("b".into())
    );
    assert_eq!(
        parse_expr("a + $").unwrap_err(),
        ParseError::UnexpectedToken("$".into())
    );
    assert_eq!(
        parse_expr("not").unwrap_err(),
        ParseError::UnexpectedEnd
    );
    assert_eq!(
        ParseError::UnexpectedToken("$".into()).message(),
        "unexpected token: $"
    );
    assert_eq!(
        ParseError::UnexpectedEnd.message(),
        "unexpected end of expression"
    );
    assert_eq!(
        ParseError::ExpectedExpression.message(),
        "expected an expression"
    );
}

#[test]
fn expressions_can_be_copied() {
    let expr = parse_expr("-(a + 2.5) / b").unwrap();
    assert_eq!(expr.clone(), expr);
    assert_eq!(expr.render(&show), "((-(a + 2.5)) / b)");
}

#[test]
fn operands_are_evaluated_from_left_to_right() {
    let asked = std::cell::RefCell::new(Vec::new());
    let value = eval_with(
        &dsline::expr::parse_expr("a + missing * b", &|_: &String| 0i64).unwrap(),
        &|name: &String| {
            asked.borrow_mut().push(name.clone());
            if name == "missing" {
                None
            } else {
                Some(1)
            }
        },
        &|_: BinOp, x: i64, y: i64| Some(x + y),
        &|_: UnaryOp, x: i64| Some(x),
    );
    assert_eq!(value, None);
    assert_eq!(*asked.borrow(), vec!["a", "missing"]);
}

#[test]
fn numbers_are_handed_over_as_they_are_written() {
    let expr = dsline::expr::parse_expr("x + 1.50 * .5", &|text: &String| text.len()).unwrap();
    assert_eq!(expr.render(&|n: &usize| n.to_string()), "(x + (4 * 2))");
    assert_eq!(expr.render(&|_: &usize| "7".to_string()), "(x + (7 * 7))");
}

#[test]
fn parsed_ascii_text_survives_being_written() {
    for source in [
        "Not_A + nothing * 0.10",
        "-(X9 - _y) / inf",
        "not (a or B) and 1. < .25",
        "- not_ == 00123456789012345678901234567890",
    ] {
        let expr = parse_expr(source).unwrap();
        assert_eq!(parse_expr(&expr.render(&show)).unwrap(), expr, "{source}");
    }
}
