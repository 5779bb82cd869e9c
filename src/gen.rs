//! Lowering of the abstract syntax tree to a stack-machine program, and the machine itself.
use vstd::prelude::*;

use crate::ast::{BinOp, Node, UnaryOp};

verus! {

/// An instruction of the stack machine.
#[derive(Debug, Clone, Copy, PartialEq, Eq, Structural)]
pub enum Instr {
    /// Pushes a value.
    Push(u32),
    /// Pops one value, applies the sign to it and pushes the result.
    Unary(UnaryOp),
    /// Pops the right operand, then the left one, combines them and pushes the result.
    Binary(BinOp),
}

/// Why the stack machine stopped without a result.
#[derive(Debug, Clone, Copy, PartialEq, Eq, Structural)]
pub enum MachineError {
    /// A division had a zero divisor.
    DivisionByZero,
    /// An instruction found fewer values on the stack than it pops.
    StackUnderflow,
    /// The program ended with other than exactly one value on the stack.
    UnbalancedStack,
}

/// `x` reduced modulo 2^32 into the range of `i32`.
pub open spec fn wrap32(x: int) -> int {
    let m = x % 0x1_0000_0000;
    if m > 0x7fff_ffff {
        m - 0x1_0000_0000
    } else {
        m
    }
}

pub open spec fn abs(x: int) -> int {
    if x < 0 {
        -x
    } else {
        x
    }
}

/// Integer division rounding toward zero.
pub open spec fn trunc_div(a: int, b: int) -> int {
    if (a < 0) != (b < 0) {
        -(abs(a) / abs(b))
    } else {
        abs(a) / abs(b)
    }
}

pub open spec fn apply_unary(op: UnaryOp, a: int) -> int {
    match op {
        UnaryOp::Positive => a,
        UnaryOp::Negative => wrap32(-a),
    }
}

/// `a op b` in 32-bit two's complement arithmetic; `None` on a division by zero.
pub open spec fn apply_binary(op: BinOp, a: int, b: int) -> Option<int> {
    match op {
        BinOp::Add => Some(wrap32(a + b)),
        BinOp::Sub => Some(wrap32(a - b)),
        BinOp::Mul => Some(wrap32(a * b)),
        BinOp::Div => if b == 0 {
            None
        } else {
            Some(wrap32(trunc_div(a, b)))
        },
    }
}

/// The value of the tree in 32-bit two's complement arithmetic, operands left to right;
/// `None` when a division by zero occurs.
pub open spec fn eval(n: Node) -> Option<int>
    decreases n,
{
    match n {
        Node::Num(v) => Some(wrap32(v as int)),
        Node::Unary(op, a) => match eval(*a) {
            Some(x) => Some(apply_unary(op, x)),
            None => None,
        },
        Node::Binary(op, l, r) => match eval(*l) {
            Some(x) => match eval(*r) {
                Some(y) => apply_binary(op, x, y),
                None => None,
            },
            None => None,
        },
    }
}

/// The program for a tree: the tree in postorder, one instruction per node.
pub open spec fn compile(n: Node) -> Seq<Instr>
    decreases n,
{
    match n {
        Node::Num(v) => seq![Instr::Push(v)],
        Node::Unary(op, a) => compile(*a).push(Instr::Unary(op)),
        Node::Binary(op, l, r) => compile(*l) + compile(*r) + seq![Instr::Binary(op)],
    }
}

/// One instruction executed on `stack`, whose top is its last element.
pub open spec fn step(stack: Seq<int>, i: Instr) -> Result<Seq<int>, MachineError> {
    match i {
        Instr::Push(v) => Ok(stack.push(wrap32(v as int))),
        Instr::Unary(op) => if stack.len() < 1 {
            Err(MachineError::StackUnderflow)
        } else {
            Ok(stack.drop_last().push(apply_unary(op, stack.last())))
        },
        Instr::Binary(op) => if stack.len() < 2 {
            Err(MachineError::StackUnderflow)
        } else {
            match apply_binary(op, stack[stack.len() - 2], stack.last()) {
                Some(v) => Ok(stack.subrange(0, stack.len() - 2).push(v)),
                None => Err(MachineError::DivisionByZero),
            }
        },
    }
}

/// The stack after executing `prog` from `stack`, or the error that stopped it.
pub open spec fn run(prog: Seq<Instr>, stack: Seq<int>) -> Result<Seq<int>, MachineError>
    decreases prog.len(),
{
    if prog.len() == 0 {
        Ok(stack)
    } else {
        match step(stack, prog[0]) {
            Ok(s) => run(prog.drop_first(), s),
            Err(e) => Err(e),
        }
    }
}

proof fn lemma_run_compile(n: Node, rest: Seq<Instr>, stack: Seq<int>)
    ensures
        run(compile(n) + rest, stack) == match eval(n) {
            Some(v) => run(rest, stack.push(v)),
            None => Err(MachineError::DivisionByZero),
        },
    decreases n,
{
    match n {
        Node::Num(v) => {
            assert((compile(n) + rest).drop_first() =~= rest);
        },
        Node::Unary(op, a) => {
            let tail = seq![Instr::Unary(op)] + rest;
            assert(compile(n) + rest =~= compile(*a) + tail);
            lemma_run_compile(*a, tail, stack);
            if let Some(x) = eval(*a) {
                assert(tail.drop_first() =~= rest);
                assert(stack.push(x).drop_last() =~= stack);
            }
        },
        Node::Binary(op, l, r) => {
            let tail = seq![Instr::Binary(op)] + rest;
            assert(compile(n) + rest =~= compile(*l) + (compile(*r) + tail));
            lemma_run_compile(*l, compile(*r) + tail, stack);
            if let Some(x) = eval(*l) {
                lemma_run_compile(*r, tail, stack.push(x));
                if let Some(y) = eval(*r) {
                    let s2 = stack.push(x).push(y);
                    assert(tail.drop_first() =~= rest);
                    assert(s2.subrange(0, s2.len() - 2) =~= stack);
                }
            }
        },
    }
}

/// Executing the program generated for a tree leaves exactly the tree's value on an empty
/// stack, and fails with a division by zero exactly when evaluating the tree divides by zero.
pub proof fn lemma_gen_round_trip(n: Node)
    ensures
        run(compile(n), Seq::empty()) == match eval(n) {
            Some(v) => Ok(seq![v]),
            None => Err(MachineError::DivisionByZero),
        },
{
    lemma_run_compile(n, Seq::empty(), Seq::empty());
    assert(compile(n) + Seq::<Instr>::empty() =~= compile(n));
    if let Some(v) = eval(n) {
        assert(Seq::<int>::empty().push(v) =~= seq![v]);
    }
}

fn gen_into(node: &Node, out: &mut Vec<Instr>)
    ensures
        final(out)@ == old(out)@ + compile(*node),
    decreases node,
{
    match node {
        Node::Num(v) => {
            out.push(Instr::Push(*v));
        },
        Node::Unary(op, operand) => {
            gen_into(operand, out);
            out.push(Instr::Unary(*op));
        },
        Node::Binary(op, lhs, rhs) => {
            let ghost before = out@;
            gen_into(lhs, out);
            gen_into(rhs, out);
            out.push(Instr::Binary(*op));
            assert(out@ =~= before + compile(*node));
        },
    }
}

/// The stack-machine program that evaluates `node`: its nodes in postorder, left operand
/// before right.
pub fn gen(node: &Node) -> (r: Vec<Instr>)
    ensures
        r@ == compile(*node),
{
    let mut out: Vec<Instr> = Vec::new();
    gen_into(node, &mut out);
    assert(out@ =~= compile(*node));
    out
}

/// The values of an `i32` stack as integers.
pub open spec fn ints(s: Seq<i32>) -> Seq<int> {
    s.map_values(|x: i32| x as int)
}

proof fn lemma_wrap32_id(x: int)
    requires
        i32::MIN <= x <= i32::MAX,
    ensures
        wrap32(x) == x,
{
}

proof fn lemma_wrap32_shift(x: int)
    requires
        i32::MAX < x < 0x1_0000_0000 + 0x8000_0000,
    ensures
        wrap32(x) == x - 0x1_0000_0000,
{
}

proof fn lemma_wrap32_shift_neg(x: int)
    requires
        -0x1_0000_0000 - 0x8000_0000 <= x < i32::MIN,
    ensures
        wrap32(x) == x + 0x1_0000_0000,
{
}

/// `v` as the two's complement `i32` with the same low 32 bits.
fn u32_to_i32(v: u32) -> (r: i32)
    ensures
        r as int == wrap32(v as int),
{
    proof {
        if v <= 0x7fff_ffff {
            lemma_wrap32_id(v as int);
        } else {
            lemma_wrap32_shift(v as int);
        }
    }
    if v <= 0x7fff_ffff {
        v as i32
    } else {
        (v - 0x8000_0000) as i32 + i32::MIN
    }
}

fn exec_unary(op: UnaryOp, a: i32) -> (r: i32)
    ensures
        r as int == apply_unary(op, a as int),
{
    match op {
        UnaryOp::Positive => a,
        UnaryOp::Negative => {
            proof {
                if a == i32::MIN {
                    lemma_wrap32_shift(-a);
                } else {
                    lemma_wrap32_id(-a);
                }
            }
            0i32.wrapping_sub(a)
        },
    }
}

fn exec_binary(op: BinOp, a: i32, b: i32) -> (r: Option<i32>)
    ensures
        match apply_binary(op, a as int, b as int) {
            Some(v) => r is Some && r->0 as int == v,
            None => r is None,
        },
{
    match op {
        BinOp::Add => {
            proof {
                let x = a + b;
                if x > i32::MAX {
                    lemma_wrap32_shift(x);
                } else if x < i32::MIN {
                    lemma_wrap32_shift_neg(x);
                } else {
                    lemma_wrap32_id(x);
                }
            }
            Some(a.wrapping_add(b))
        },
        BinOp::Sub => {
            proof {
                let x = a - b;
                if x > i32::MAX {
                    lemma_wrap32_shift(x);
                } else if x < i32::MIN {
                    lemma_wrap32_shift_neg(x);
                } else {
                    lemma_wrap32_id(x);
                }
            }
            Some(a.wrapping_sub(b))
        },
        BinOp::Mul => Some(a.wrapping_mul(b)),
        BinOp::Div => {
            if b == 0 {
                None
            } else if a == i32::MIN && b == -1 {
                proof {
                    assert(abs(a as int) / abs(b as int) == 0x8000_0000);
                    lemma_wrap32_shift(0x8000_0000);
                }
                Some(i32::MIN)
            } else {
                proof {
                    lemma_trunc_div_bound(a as int, b as int);
                }
                match a.checked_div(b) {
                    Some(q) => {
                        proof {
                            lemma_wrap32_id(q as int);
                        }
                        Some(q)
                    },
                    None => None,
                }
            }
        },
    }
}

proof fn lemma_trunc_div_bound(a: int, b: int)
    requires
        i32::MIN <= a <= i32::MAX,
        i32::MIN <= b <= i32::MAX,
        b != 0,
        !(a == i32::MIN && b == -1),
    ensures
        i32::MIN <= trunc_div(a, b) <= i32::MAX,
{
    let x = abs(a);
    let y = abs(b);
    let q = x / y;
    if y == 1 {
        assert(q == x) by (nonlinear_arith)
            requires
                q == x / y,
                y == 1,
        ;
    } else {
        assert(q <= 0x4000_0000) by (nonlinear_arith)
            requires
                q == x / y,
                0 <= x <= 0x8000_0000,
                y >= 2,
        ;
    }
}

/// Executes `prog` on an empty stack and returns the one value left on it.
pub fn execute(prog: &Vec<Instr>) -> (r: Result<i32, MachineError>)
    ensures
        match run(prog@, Seq::empty()) {
            Ok(s) => if s.len() == 1 {
                r is Ok && r->Ok_0 as int == s[0]
            } else {
                r == Err::<i32, MachineError>(MachineError::UnbalancedStack)
            },
            Err(e) => r == Err::<i32, MachineError>(e),
        },
{
    let mut stack: Vec<i32> = Vec::new();
    let mut i: usize = 0;
    assert(ints(stack@) =~= Seq::<int>::empty());
    assert(prog@.skip(0) =~= prog@);
    while i < prog.len()
        invariant
            i <= prog@.len(),
            run(prog@, Seq::empty()) == run(prog@.skip(i as int), ints(stack@)),
        decreases prog@.len() - i,
    {
        let ghost before = ints(stack@);
        let ghost rest = prog@.skip(i as int);
        assert(rest.drop_first() =~= prog@.skip(i + 1));
        match prog[i] {
            Instr::Push(v) => {
                let x = u32_to_i32(v);
                stack.push(x);
                assert(ints(stack@) =~= before.push(wrap32(v as int)));
            },
            Instr::Unary(op) => {
                let a = match stack.pop() {
                    Some(a) => a,
                    None => return Err(MachineError::StackUnderflow),
                };
                stack.push(exec_unary(op, a));
                assert(ints(stack@) =~= before.drop_last().push(apply_unary(op, before.last())));
            },
            Instr::Binary(op) => {
                if stack.len() < 2 {
                    return Err(MachineError::StackUnderflow);
                }
                let b = match stack.pop() {
                    Some(b) => b,
                    None => return Err(MachineError::StackUnderflow),
                };
                let a = match stack.pop() {
                    Some(a) => a,
                    None => return Err(MachineError::StackUnderflow),
                };
                match exec_binary(op, a, b) {
                    Some(v) => {
                        stack.push(v);
                        assert(ints(stack@) =~= before.subrange(0, before.len() - 2).push(v as int));
                    },
                    None => return Err(MachineError::DivisionByZero),
                }
            },
        }
        i = i + 1;
    }
    assert(prog@.skip(i as int) =~= Seq::<Instr>::empty());
    if stack.len() == 1 {
        Ok(stack[0])
    } else {
        Err(MachineError::UnbalancedStack)
    }
}

} // verus!
