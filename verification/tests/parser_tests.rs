use parsemath::ast::Node;
use parsemath::parser::{parse_expression, ParseError, Parser};
use parsemath::render::render;

fn num(v: u64) -> Node {
    Node::Number(v)
}

fn add(l: Node, r: Node) -> Node {
    Node::Add(Box::new(l), Box::new(r))
}

fn sub(l: Node, r: Node) -> Node {
    Node::Subtract(Box::new(l), Box::new(r))
}

fn mul(l: Node, r: Node) -> Node {
    Node::Multiply(Box::new(l), Box::new(r))
}

fn div(l: Node, r: Node) -> Node {
    Node::Divide(Box::new(l), Box::new(r))
}

fn pow(l: Node, r: Node) -> Node {
    Node::Power(Box::new(l), Box::new(r))
}

fn neg(e: Node) -> Node {
    Node::Negative(Box::new(e))
}

#[test]
fn single_literal() {
    assert_eq!(parse_expression("5").unwrap(), num(5));
    assert_eq!(parse_expression("42").unwrap(), num(42));
    assert_eq!(parse_expression(" 7 ").unwrap(), num(7));
    assert_eq!(parse_expression("0").unwrap(), num(0));
}

#[test]
fn largest_literal() {
    assert_eq!(
        parse_expression("18446744073709551615").unwrap(),
        num(u64::MAX)
    );
}

#[test]
fn literal_too_large_fails() {
    let r = parse_expression("18446744073709551616");
    assert!(matches!(r, Err(ParseError::InvalidOperator(_))));
}

#[test]
fn each_binary_operator() {
    assert_eq!(parse_expression("1+2").unwrap(), add(num(1), num(2)));
    assert_eq!(parse_expression("5-3").unwrap(), sub(num(5), num(3)));
    assert_eq!(parse_expression("2*3").unwrap(), mul(num(2), num(3)));
    assert_eq!(parse_expression("8/2").unwrap(), div(num(8), num(2)));
    assert_eq!(parse_expression("2^3").unwrap(), pow(num(2), num(3)));
}

#[test]
fn subtraction_is_left_associative() {
    assert_eq!(
        parse_expression("1 - 2 - 3").unwrap(),
        sub(sub(num(1), num(2)), num(3))
    );
}

#[test]
fn division_is_left_associative() {
    assert_eq!(
        parse_expression("8 / 2 / 2").unwrap(),
        div(div(num(8), num(2)), num(2))
    );
}

#[test]
fn power_is_right_associative() {
    assert_eq!(
        parse_expression("2 ^ 3 ^ 2").unwrap(),
        pow(num(2), pow(num(3), num(2)))
    );
}

#[test]
fn multiplication_binds_tighter_than_addition() {
    assert_eq!(
        parse_expression("1 + 2 * 3").unwrap(),
        add(num(1), mul(num(2), num(3)))
    );
}

#[test]
fn grouping_overrides_precedence() {
    assert_eq!(
        parse_expression("(1 + 2) * 3").unwrap(),
        mul(add(num(1), num(2)), num(3))
    );
}

#[test]
fn nested_groups() {
    assert_eq!(parse_expression("((5))").unwrap(), num(5));
}

#[test]
fn unclosed_group_fails() {
    let r = parse_expression("(1 + 2");
    assert!(matches!(r, Err(ParseError::UnableToParse(_))));
}

#[test]
fn adjacent_groups_multiply() {
    assert_eq!(parse_expression("(2)(3)").unwrap(), mul(num(2), num(3)));
}

#[test]
fn unary_minus_binds_tightest() {
    assert_eq!(
        parse_expression("-1 + 2").unwrap(),
        add(neg(num(1)), num(2))
    );
}

#[test]
fn unary_minus_under_power() {
    assert_eq!(
        parse_expression("-2 ^ 3").unwrap(),
        pow(neg(num(2)), num(3))
    );
}

#[test]
fn simple_negation() {
    assert_eq!(parse_expression("-5").unwrap(), neg(num(5)));
}

#[test]
fn empty_input_fails_invalid_operator() {
    let r = parse_expression("");
    assert!(matches!(r, Err(ParseError::InvalidOperator(_))));
}

#[test]
fn blank_input_fails_invalid_operator() {
    let r = parse_expression("   ");
    assert!(matches!(r, Err(ParseError::InvalidOperator(_))));
}

#[test]
fn lone_invalid_character_fails_invalid_operator() {
    let r = parse_expression("$");
    assert!(matches!(r, Err(ParseError::InvalidOperator(_))));
}

#[test]
fn invalid_character_after_operator_fails() {
    let r = parse_expression("1+$");
    assert!(matches!(r, Err(ParseError::InvalidOperator(_))));
}

#[test]
fn leading_operator_fails_unable_to_parse() {
    let r = parse_expression("* 3");
    assert!(matches!(r, Err(ParseError::UnableToParse(_))));
    let r2 = parse_expression(")");
    assert!(matches!(r2, Err(ParseError::UnableToParse(_))));
    let r3 = parse_expression("+ 1");
    assert!(matches!(r3, Err(ParseError::UnableToParse(_))));
}

#[test]
fn dangling_operator_fails() {
    let r = parse_expression("1+");
    assert!(matches!(r, Err(ParseError::UnableToParse(_))));
}

#[test]
fn trailing_tokens_are_ignored() {
    assert_eq!(parse_expression("1)2").unwrap(), num(1));
    assert_eq!(parse_expression("1 2").unwrap(), num(1));
}

#[test]
fn parser_object_single_use() {
    let mut p = Parser::new("2 * (3 + 4)").unwrap();
    assert_eq!(p.parse().unwrap(), mul(num(2), add(num(3), num(4))));
}

#[test]
fn parser_new_fails_on_empty() {
    assert!(matches!(
        Parser::new(""),
        Err(ParseError::InvalidOperator(_))
    ));
}

#[test]
fn render_of_literal() {
    let s: String = render(&num(42)).into_iter().collect();
    assert_eq!(s, "42");
}

#[test]
fn render_is_fully_parenthesized() {
    let t = add(num(1), mul(num(2), num(3)));
    let s: String = render(&t).into_iter().collect();
    assert_eq!(s, "(1+(2*3))");
}

#[test]
fn round_trip_simple() {
    let t = add(neg(num(1)), num(2));
    let s: String = render(&t).into_iter().collect();
    assert_eq!(parse_expression(&s).unwrap(), t);
}

#[test]
fn round_trip_deep() {
    let t = pow(
        sub(num(10), div(num(4), num(2))),
        neg(mul(num(3), add(num(1), num(0)))),
    );
    let s: String = render(&t).into_iter().collect();
    assert_eq!(parse_expression(&s).unwrap(), t);
}
