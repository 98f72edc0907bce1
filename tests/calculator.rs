use calculator::ast::{number_text, Expr};
use calculator::grammar::{CalculatorParser, SyntaxError};
use calculator::pratt::{parse, parse_expr};
use calculator::syntax::{Expect, Op, Token};

fn value(e: &Expr) -> f64 {
    match e {
        Expr::Number(lit) => lit.parse::<f64>().unwrap(),
        Expr::UnaryMinus(x) => -value(x),
        Expr::Grouped(x) => value(x),
        Expr::BinOp { lhs, op, rhs } => {
            let l = value(lhs);
            let r = value(rhs);
            match op {
                Op::Add => l + r,
                Op::Subtract => l - r,
                Op::Multiply => l * r,
                Op::Divide => l / r,
                Op::Modulo => l % r,
                Op::Pow => l.powf(r),
            }
        }
    }
}

fn eval_line(line: &str) -> f64 {
    value(&parse(line).unwrap())
}

fn num(s: &str) -> Box<Expr> {
    Box::new(Expr::Number(s.to_string()))
}

#[test]
fn literal_alone_is_a_number() {
    for lit in ["3", "3.5", "0.0", "42", "007.250"] {
        let e = parse(lit).unwrap();
        assert_eq!(e, Expr::Number(lit.to_string()));
        assert_eq!(value(&e), lit.parse::<f64>().unwrap());
    }
}

#[test]
fn subtraction_groups_to_the_left() {
    let e = parse("1 - 2 - 3").unwrap();
    let expected = Expr::BinOp {
        lhs: Box::new(Expr::BinOp { lhs: num("1"), op: Op::Subtract, rhs: num("2") }),
        op: Op::Subtract,
        rhs: num("3"),
    };
    assert_eq!(e, expected);
    assert_eq!(value(&e), -4.0);
}

#[test]
fn multiplication_binds_tighter_than_addition() {
    assert_eq!(eval_line("1 + 2 * 3"), 7.0);
    assert_eq!(eval_line("(1 + 2) * 3"), 9.0);
    let e = parse("1 + 2 * 3").unwrap();
    let expected = Expr::BinOp {
        lhs: num("1"),
        op: Op::Add,
        rhs: Box::new(Expr::BinOp { lhs: num("2"), op: Op::Multiply, rhs: num("3") }),
    };
    assert_eq!(e, expected);
}

#[test]
fn unary_and_binary_minus() {
    assert_eq!(eval_line("-3 + 4"), 1.0);
    assert_eq!(eval_line("3 - -4"), 7.0);
    let e = parse("-3 + 4").unwrap();
    let expected = Expr::BinOp {
        lhs: Box::new(Expr::UnaryMinus(num("3"))),
        op: Op::Add,
        rhs: num("4"),
    };
    assert_eq!(e, expected);
}

#[test]
fn power_shares_the_multiplication_tier() {
    assert_eq!(eval_line("2 ^ 3 * 2"), 16.0);
    let e = parse("2 ^ 3 * 2").unwrap();
    let expected = Expr::BinOp {
        lhs: Box::new(Expr::BinOp { lhs: num("2"), op: Op::Pow, rhs: num("3") }),
        op: Op::Multiply,
        rhs: num("2"),
    };
    assert_eq!(e, expected);
}

#[test]
fn division_by_zero_is_infinite() {
    let v = eval_line("1 / 0");
    assert!(v.is_infinite());
    assert!(v > 0.0);
}

#[test]
fn negative_base_with_fraction_is_nan() {
    assert!(eval_line("-8 ^ 0.5").is_nan());
    assert_eq!(eval_line("7 % 4"), 3.0);
}

#[test]
fn incomplete_lines_are_rejected() {
    assert_eq!(
        parse("1 + ").unwrap_err(),
        SyntaxError { position: 4, expected: Expect::Operand }
    );
    assert_eq!(
        parse("(1 + 2").unwrap_err(),
        SyntaxError { position: 6, expected: Expect::Operator }
    );
    assert_eq!(
        parse("1 ++ 2").unwrap_err(),
        SyntaxError { position: 3, expected: Expect::Operand }
    );
}

#[test]
fn other_malformed_lines_are_rejected() {
    assert_eq!(parse("").unwrap_err(), SyntaxError { position: 0, expected: Expect::Operand });
    assert_eq!(
        parse("1 & 2").unwrap_err(),
        SyntaxError { position: 2, expected: Expect::Operator }
    );
    assert_eq!(parse("1 2").unwrap_err().position, 2);
    assert_eq!(parse("1.").unwrap_err().position, 1);
    assert_eq!(parse(".5").unwrap_err().position, 0);
    assert_eq!(parse("1 + 2)").unwrap_err().position, 5);
    assert_eq!(
        parse("--3").unwrap_err(),
        SyntaxError { position: 1, expected: Expect::Primary }
    );
}

#[test]
fn rendering_keeps_parentheses() {
    let e = parse("1 + (2 * 3)").unwrap();
    assert_eq!(e.to_string(), "1 + (2 × 3)");
    assert_eq!(value(&e), 7.0);
}

#[test]
fn rendering_of_each_node() {
    assert_eq!(parse("6/3").unwrap().to_string(), "6 ÷ 3");
    assert_eq!(parse("-(2)").unwrap().to_string(), "-(2)");
    assert_eq!(parse("  -5\t% 2 ^1 ").unwrap().to_string(), "-5 % 2 ^ 1");
    assert_eq!(parse("-(-3)").unwrap().to_string(), "-(-3)");
    assert_eq!(eval_line("-(-3)"), 3.0);
}

#[test]
fn numbers_render_as_decimals() {
    assert_eq!(number_text("007.50"), "7.5");
    assert_eq!(number_text("0.0"), "0");
    assert_eq!(number_text("3.0"), "3");
    assert_eq!(number_text("10"), "10");
    assert_eq!(number_text("100.000"), "100");
    assert_eq!(number_text("0.25"), "0.25");
    assert_eq!(parse("1.50 + 02").unwrap().to_string(), "1.5 + 2");
}

#[test]
fn evaluating_twice_gives_the_same_value() {
    let e = parse("2 ^ 0.5 / 3 - 1").unwrap();
    let first = value(&e);
    let second = value(&e);
    assert_eq!(first.to_bits(), second.to_bits());
    assert_eq!(e.to_string(), e.to_string());
}

#[test]
fn operator_glyphs_and_tiers() {
    assert_eq!(Op::Add.symbol(), "+");
    assert_eq!(Op::Subtract.symbol(), "-");
    assert_eq!(Op::Multiply.symbol(), "×");
    assert_eq!(Op::Divide.symbol(), "÷");
    assert_eq!(Op::Modulo.symbol(), "%");
    assert_eq!(Op::Pow.symbol(), "^");
    assert_eq!(Op::Add.tier(), 1);
    assert_eq!(Op::Subtract.tier(), 1);
    assert_eq!(Op::Pow.tier(), 2);
    assert_eq!(Op::Modulo.tier(), 2);
}

#[test]
fn tokens_tell_unary_from_binary_minus() {
    let ts = CalculatorParser::parse("3 - -4").unwrap();
    assert_eq!(
        ts,
        vec![
            Token::Number("3".to_string()),
            Token::Infix(Op::Subtract),
            Token::UnaryMinus,
            Token::Number("4".to_string()),
        ]
    );
    let e = parse_expr(&ts);
    assert_eq!(value(&e), 7.0);
}

#[test]
fn nested_groups() {
    let ts = CalculatorParser::parse("((1 + 2) * (3 - 1)) ^ 2").unwrap();
    assert_eq!(ts.len(), 15);
    let e = parse_expr(&ts);
    assert_eq!(e.to_string(), "((1 + 2) × (3 - 1)) ^ 2");
    assert_eq!(value(&e), 36.0);
}
