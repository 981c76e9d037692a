use truthtable::ast::Expr;
use truthtable::parser::{
    expression, identifier, operator_and, operator_not, operator_or, parse,
};

fn chars(s: &str) -> Vec<char> {
    s.chars().collect()
}

fn var(name: &str) -> Expr {
    Expr::Var(name.to_string())
}

#[test]
fn test_parser_identifier() {
    let input = chars("abc");
    assert_eq!(identifier(&input, 0), Some((3, var("abc"))));
}

#[test]
fn test_parser_operator_not() {
    let input = chars("!abc");
    assert_eq!(
        operator_not(&input, 0),
        Some((4, Expr::Not(Box::new(var("abc")))))
    );
}

#[test]
fn test_parser_operator_and() {
    let input = chars("a&b");
    assert_eq!(
        operator_and(&input, 0),
        Some((3, Expr::And(Box::new(var("a")), Box::new(var("b")))))
    );
}

#[test]
fn test_parser_operator_or() {
    let input = chars("a|b");
    assert_eq!(
        operator_or(&input, 0),
        Some((3, Expr::Or(Box::new(var("a")), Box::new(var("b")))))
    );
}

#[test]
fn test_parser_expression() {
    let input = chars("a&(!b)");
    assert_eq!(
        expression(&input, 0),
        Some((
            6,
            Expr::And(
                Box::new(var("a")),
                Box::new(Expr::Not(Box::new(var("b"))))
            )
        ))
    );
}

#[test]
fn test_parse_identifier() {
    assert_eq!(parse("abc"), Some(var("abc")));
}

#[test]
fn test_parse_not() {
    assert_eq!(parse("!abc"), Some(Expr::Not(Box::new(var("abc")))));
}

#[test]
fn test_parse_and() {
    assert_eq!(
        parse("a&b"),
        Some(Expr::And(Box::new(var("a")), Box::new(var("b"))))
    );
}

#[test]
fn test_parse_or() {
    assert_eq!(
        parse("a|b"),
        Some(Expr::Or(Box::new(var("a")), Box::new(var("b"))))
    );
}

#[test]
fn test_parse_and_not() {
    assert_eq!(
        parse("a&(!b)"),
        Some(Expr::And(
            Box::new(var("a")),
            Box::new(Expr::Not(Box::new(var("b"))))
        ))
    );
}

#[test]
fn test_parse_chain_folds_left() {
    assert_eq!(
        parse("a&b&c"),
        Some(Expr::And(
            Box::new(Expr::And(Box::new(var("a")), Box::new(var("b")))),
            Box::new(var("c"))
        ))
    );
}

#[test]
fn test_parse_trailing_operator_fails() {
    assert_eq!(parse("a&"), None);
}

#[test]
fn test_parse_empty_fails() {
    assert_eq!(parse(""), None);
}

#[test]
fn test_parse_whitespace_insensitive() {
    assert_eq!(parse("a & b"), parse("a&b"));
    assert!(parse("a & b").is_some());
    assert_eq!(parse("a &\nb"), parse("a&b"));
}

#[test]
fn test_parse_implication_biconditional_xor() {
    assert_eq!(
        parse("a=>b"),
        Some(Expr::Implication(Box::new(var("a")), Box::new(var("b"))))
    );
    assert_eq!(
        parse("a<=>b"),
        Some(Expr::Biconditional(Box::new(var("a")), Box::new(var("b"))))
    );
    assert_eq!(
        parse("a<!=>b"),
        Some(Expr::XOR(Box::new(var("a")), Box::new(var("b"))))
    );
}

#[test]
fn test_parse_parenthesized() {
    assert_eq!(parse("(a)"), Some(var("a")));
    assert_eq!(
        parse("(a&b)|c"),
        Some(Expr::Or(
            Box::new(Expr::And(Box::new(var("a")), Box::new(var("b")))),
            Box::new(var("c"))
        ))
    );
}

#[test]
fn test_parse_mixed_operators_need_parentheses() {
    // The grammar's greedy and-chain consumes `a&b` and leaves `|c` behind,
    // so the full parse fails: mixing operators needs parentheses.
    assert_eq!(parse("a&b|c"), None);
}

#[test]
fn test_parse_digits_in_identifier() {
    assert_eq!(parse("ab1"), Some(var("ab1")));
}

#[test]
fn test_parse_round_trip_through_text() {
    let expr = parse("(a&b)|((!a)&(!b))").unwrap();
    assert_eq!(parse(&expr.to_text()), Some(expr));
}
