use ninecc::ast::{expr, BinOp, Node, TokenStream, UnaryOp};
use ninecc::gen::{execute, gen, Instr, MachineError};
use ninecc::token::tokenize;

fn run(s: &str) -> Result<i32, MachineError> {
    let mut tokens = TokenStream::new(tokenize(s).unwrap());
    let node = expr(s, &mut tokens).unwrap();
    execute(&gen(&node))
}

#[test]
fn gen_emits_postorder() {
    let node = Node::Binary(
        BinOp::Sub,
        Box::new(Node::Num(5)),
        Box::new(Node::Unary(UnaryOp::Negative, Box::new(Node::Num(2)))),
    );
    assert_eq!(
        gen(&node),
        vec![
            Instr::Push(5),
            Instr::Push(2),
            Instr::Unary(UnaryOp::Negative),
            Instr::Binary(BinOp::Sub)
        ]
    );
}

#[test]
fn generated_program_computes_the_value() {
    assert_eq!(run("1+2*3"), Ok(7));
    assert_eq!(run("(1+2)*3"), Ok(9));
    assert_eq!(run("1-2-3"), Ok(-4));
    assert_eq!(run("-3+4"), Ok(1));
    assert_eq!(run("+5"), Ok(5));
}

#[test]
fn division_truncates_toward_zero() {
    assert_eq!(run("7/2"), Ok(3));
    assert_eq!(run("-7/2"), Ok(-3));
    assert_eq!(run("7/-(2)"), Ok(-3));
}

#[test]
fn arithmetic_wraps_at_32_bits() {
    assert_eq!(run("2147483647+1"), Ok(-2147483648));
    assert_eq!(run("65536*65536"), Ok(0));
    assert_eq!(run("4294967295"), Ok(-1));
    assert_eq!(run("-(0-2147483647-1)"), Ok(-2147483648));
    assert_eq!(run("(0-2147483647-1)/-1"), Ok(-2147483648));
}

#[test]
fn division_by_zero_is_reported() {
    assert_eq!(run("1/0"), Err(MachineError::DivisionByZero));
    assert_eq!(run("1/(2-2)+3"), Err(MachineError::DivisionByZero));
}

#[test]
fn malformed_programs_are_rejected() {
    assert_eq!(execute(&vec![Instr::Binary(BinOp::Add)]), Err(MachineError::StackUnderflow));
    assert_eq!(execute(&vec![Instr::Unary(UnaryOp::Negative)]), Err(MachineError::StackUnderflow));
    assert_eq!(execute(&vec![]), Err(MachineError::UnbalancedStack));
    assert_eq!(
        execute(&vec![Instr::Push(1), Instr::Push(2)]),
        Err(MachineError::UnbalancedStack)
    );
}
