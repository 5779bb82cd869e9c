use ninecc::ast::{expr, BinOp, Expected, Node, ParseError, TokenStream, UnaryOp};
use ninecc::token::tokenize;

fn parse(s: &str) -> Result<Box<Node>, ParseError> {
    let mut tokens = TokenStream::new(tokenize(s).unwrap());
    expr(s, &mut tokens)
}

fn num(v: u32) -> Box<Node> {
    Box::new(Node::Num(v))
}

fn bin(op: BinOp, l: Box<Node>, r: Box<Node>) -> Box<Node> {
    Box::new(Node::Binary(op, l, r))
}

#[test]
fn test_expr1() {
    let s = "1+2-3";
    let mut tokens = TokenStream::new(tokenize(s).unwrap());
    assert_eq!(
        expr(s, &mut tokens),
        Ok(Box::new(Node::Binary(
            BinOp::Sub,
            Box::new(Node::Binary(BinOp::Add, Box::new(Node::Num(1)), Box::new(Node::Num(2)))),
            Box::new(Node::Num(3))
        )))
    );
}

#[test]
fn test_expr2() {
    let s = "1+2*3-4";
    let mut tokens = TokenStream::new(tokenize(s).unwrap());
    assert_eq!(
        expr(s, &mut tokens),
        Ok(Box::new(Node::Binary(
            BinOp::Sub,
            Box::new(Node::Binary(
                BinOp::Add,
                Box::new(Node::Num(1)),
                Box::new(Node::Binary(BinOp::Mul, Box::new(Node::Num(2)), Box::new(Node::Num(3))))
            )),
            Box::new(Node::Num(4))
        )))
    );
}

#[test]
fn test_expr3() {
    let s = "1+(2+3)-4";
    let mut tokens = TokenStream::new(tokenize(s).unwrap());
    assert_eq!(
        expr(s, &mut tokens),
        Ok(Box::new(Node::Binary(
            BinOp::Sub,
            Box::new(Node::Binary(
                BinOp::Add,
                Box::new(Node::Num(1)),
                Box::new(Node::Binary(BinOp::Add, Box::new(Node::Num(2)), Box::new(Node::Num(3))))
            )),
            Box::new(Node::Num(4))
        )))
    );
}

#[test]
fn subtraction_groups_to_the_left() {
    assert_eq!(
        parse("1-2-3"),
        Ok(bin(BinOp::Sub, bin(BinOp::Sub, num(1), num(2)), num(3)))
    );
}

#[test]
fn division_groups_to_the_left() {
    assert_eq!(
        parse("8/4/2"),
        Ok(bin(BinOp::Div, bin(BinOp::Div, num(8), num(4)), num(2)))
    );
}

#[test]
fn multiplication_binds_tighter_than_addition() {
    assert_eq!(
        parse("1+2*3"),
        Ok(bin(BinOp::Add, num(1), bin(BinOp::Mul, num(2), num(3))))
    );
}

#[test]
fn parentheses_override_precedence() {
    assert_eq!(
        parse("(1+2)*3"),
        Ok(bin(BinOp::Mul, bin(BinOp::Add, num(1), num(2)), num(3)))
    );
}

#[test]
fn sign_applies_to_primary_only() {
    assert_eq!(
        parse("-3+4"),
        Ok(bin(
            BinOp::Add,
            Box::new(Node::Unary(UnaryOp::Negative, num(3))),
            num(4)
        ))
    );
    assert_eq!(
        parse("+(5)"),
        Ok(Box::new(Node::Unary(UnaryOp::Positive, num(5))))
    );
}

#[test]
fn missing_close_parenthesis_at_end_of_input() {
    assert_eq!(
        parse("(1+2"),
        Err(ParseError { offset: 4, expected: Expected::CloseParenthesis })
    );
}

#[test]
fn missing_close_parenthesis_at_token() {
    assert_eq!(
        parse("(1 2"),
        Err(ParseError { offset: 3, expected: Expected::CloseParenthesis })
    );
}

#[test]
fn sign_without_operand() {
    assert_eq!(
        parse("+"),
        Err(ParseError { offset: 1, expected: Expected::Primary })
    );
}

#[test]
fn missing_primary_at_token() {
    assert_eq!(
        parse("1*)"),
        Err(ParseError { offset: 2, expected: Expected::Primary })
    );
}

#[test]
fn empty_input_has_no_primary() {
    assert_eq!(
        parse(""),
        Err(ParseError { offset: 0, expected: Expected::Primary })
    );
}

#[test]
fn parse_stops_after_longest_expression() {
    let s = "1+2)3";
    let mut tokens = TokenStream::new(tokenize(s).unwrap());
    assert_eq!(expr(s, &mut tokens), Ok(bin(BinOp::Add, num(1), num(2))));
    assert_eq!(tokens.peek().map(|(i, _)| i), Some(3));
}
