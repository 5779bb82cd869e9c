//! The abstract syntax tree and the recursive-descent parser that builds it.
use vstd::prelude::*;

use crate::token::Token;

verus! {

/// A node of the abstract syntax tree.
#[derive(Debug, PartialEq, Eq)]
pub enum Node {
    /// A binary operation on two subtrees.
    Binary(BinOp, Box<Node>, Box<Node>),
    /// A sign applied to a subtree.
    Unary(UnaryOp, Box<Node>),
    /// A number literal.
    Num(u32),
}

/// The kind of a binary operation.
#[derive(Debug, Clone, Copy, PartialEq, Eq, Structural)]
pub enum BinOp {
    Add,
    Sub,
    Mul,
    Div,
}

/// The kind of a unary sign.
#[derive(Debug, Clone, Copy, PartialEq, Eq, Structural)]
pub enum UnaryOp {
    Positive,
    Negative,
}

/// What the parser required and did not find.
#[derive(Debug, Clone, Copy, PartialEq, Eq, Structural)]
pub enum Expected {
    /// A `)` closing a parenthesized group.
    CloseParenthesis,
    /// A number or a `(`.
    Primary,
}

/// Parsing failed at `offset`, where `expected` was required.
#[derive(Debug, Clone, Copy, PartialEq, Eq, Structural)]
pub struct ParseError {
    pub offset: usize,
    pub expected: Expected,
}

/// A cursor over a sequence of `(offset, Token)` items, with one item of lookahead.
pub struct TokenStream {
    items: Vec<(usize, Token)>,
    pos: usize,
}

impl TokenStream {
    /// All the items, consumed or not.
    pub closed spec fn tokens(&self) -> Seq<(usize, Token)> {
        self.items@
    }

    /// The index of the next item to consume.
    pub closed spec fn position(&self) -> int {
        self.pos as int
    }

    pub open spec fn wf(&self) -> bool {
        0 <= self.position() <= self.tokens().len()
    }

    /// A cursor at the first of `items`.
    pub fn new(items: Vec<(usize, Token)>) -> (r: TokenStream)
        ensures
            r.wf(),
            r.tokens() == items@,
            r.position() == 0,
    {
        TokenStream { items, pos: 0 }
    }

    /// Returns the next item without consuming it.
    pub fn peek(&self) -> (r: Option<(usize, Token)>)
        requires
            self.wf(),
        ensures
            self.position() < self.tokens().len() ==> r == Some(self.tokens()[self.position()]),
            self.position() == self.tokens().len() ==> r is None,
    {
        if self.pos < self.items.len() {
            Some(self.items[self.pos])
        } else {
            None
        }
    }

    /// Consumes and returns the next item.
    pub fn next(&mut self) -> (r: Option<(usize, Token)>)
        requires
            old(self).wf(),
        ensures
            final(self).wf(),
            final(self).tokens() == old(self).tokens(),
            old(self).position() < old(self).tokens().len() ==> r == Some(
                old(self).tokens()[old(self).position()],
            ) && final(self).position() == old(self).position() + 1,
            old(self).position() == old(self).tokens().len() ==> r is None && final(
                self
            ).position() == old(self).position(),
    {
        if self.pos < self.items.len() {
            let item = self.items[self.pos];
            self.pos = self.pos + 1;
            Some(item)
        } else {
            None
        }
    }
}

/// The error for a missing `what` at index `p` of `t`: at the offset of the item there, or
/// at `eoi` when `t` is exhausted.
pub open spec fn error_at(t: Seq<(usize, Token)>, eoi: usize, p: int, what: Expected) -> ParseError {
    ParseError { offset: if p < t.len() { t[p].0 } else { eoi }, expected: what }
}

/// The binary operator of `expr` level that the token stands for, if any.
pub open spec fn additive_op(tok: Token) -> Option<BinOp> {
    match tok {
        Token::Plus => Some(BinOp::Add),
        Token::Minus => Some(BinOp::Sub),
        _ => None,
    }
}

/// The binary operator of `mul` level that the token stands for, if any.
pub open spec fn multiplicative_op(tok: Token) -> Option<BinOp> {
    match tok {
        Token::Asterisk => Some(BinOp::Mul),
        Token::Slash => Some(BinOp::Div),
        _ => None,
    }
}

/// `expr := mul (("+" | "-") mul)*`, parsed from index `p` of `t`: the tree and the index
/// after it.
pub open spec fn parse_expr(t: Seq<(usize, Token)>, eoi: usize, p: int) -> Result<
    (Node, int),
    ParseError,
>
    decreases t.len() - p, 5nat,
{
    if 0 <= p <= t.len() {
        match parse_mul(t, eoi, p) {
            Ok((lhs, q)) => if p < q <= t.len() {
                expr_tail(t, eoi, lhs, q)
            } else {
                Ok((lhs, q))
            },
            Err(e) => Err(e),
        }
    } else {
        Err(error_at(t, eoi, p, Expected::Primary))
    }
}

/// The repetition `(("+" | "-") mul)*` from index `p`, folded to the left onto `lhs`.
pub open spec fn expr_tail(t: Seq<(usize, Token)>, eoi: usize, lhs: Node, p: int) -> Result<
    (Node, int),
    ParseError,
>
    decreases t.len() - p, 4nat,
{
    if 0 <= p < t.len() && additive_op(t[p].1) is Some {
        match parse_mul(t, eoi, p + 1) {
            Ok((rhs, q)) => {
                let node = Node::Binary(additive_op(t[p].1)->0, Box::new(lhs), Box::new(rhs));
                if p < q <= t.len() {
                    expr_tail(t, eoi, node, q)
                } else {
                    Ok((node, q))
                }
            },
            Err(e) => Err(e),
        }
    } else {
        Ok((lhs, p))
    }
}

/// `mul := unary (("*" | "/") unary)*`, parsed from index `p` of `t`.
pub open spec fn parse_mul(t: Seq<(usize, Token)>, eoi: usize, p: int) -> Result<
    (Node, int),
    ParseError,
>
    decreases t.len() - p, 3nat,
{
    if 0 <= p <= t.len() {
        match parse_unary(t, eoi, p) {
            Ok((lhs, q)) => if p < q <= t.len() {
                mul_tail(t, eoi, lhs, q)
            } else {
                Ok((lhs, q))
            },
            Err(e) => Err(e),
        }
    } else {
        Err(error_at(t, eoi, p, Expected::Primary))
    }
}

/// The repetition `(("*" | "/") unary)*` from index `p`, folded to the left onto `lhs`.
pub open spec fn mul_tail(t: Seq<(usize, Token)>, eoi: usize, lhs: Node, p: int) -> Result<
    (Node, int),
    ParseError,
>
    decreases t.len() - p, 2nat,
{
    if 0 <= p < t.len() && multiplicative_op(t[p].1) is Some {
        match parse_unary(t, eoi, p + 1) {
            Ok((rhs, q)) => {
                let node = Node::Binary(
                    multiplicative_op(t[p].1)->0,
                    Box::new(lhs),
                    Box::new(rhs),
                );
                if p < q <= t.len() {
                    mul_tail(t, eoi, node, q)
                } else {
                    Ok((node, q))
                }
            },
            Err(e) => Err(e),
        }
    } else {
        Ok((lhs, p))
    }
}

/// `unary := ("+" | "-")? primary`, parsed from index `p` of `t`.
pub open spec fn parse_unary(t: Seq<(usize, Token)>, eoi: usize, p: int) -> Result<
    (Node, int),
    ParseError,
>
    decreases t.len() - p, 1nat,
{
    if 0 <= p < t.len() && (t[p].1 is Plus || t[p].1 is Minus) {
        let op = if t[p].1 is Plus {
            UnaryOp::Positive
        } else {
            UnaryOp::Negative
        };
        match parse_primary(t, eoi, p + 1) {
            Ok((operand, q)) => Ok((Node::Unary(op, Box::new(operand)), q)),
            Err(e) => Err(e),
        }
    } else {
        parse_primary(t, eoi, p)
    }
}

/// `primary := Num | "(" expr ")"`, parsed from index `p` of `t`.
pub open spec fn parse_primary(t: Seq<(usize, Token)>, eoi: usize, p: int) -> Result<
    (Node, int),
    ParseError,
>
    decreases t.len() - p, 0nat,
{
    if 0 <= p < t.len() && t[p].1 is OpenParenthesis {
        match parse_expr(t, eoi, p + 1) {
            Ok((inner, q)) => if 0 <= q < t.len() && t[q].1 is CloseParenthesis {
                Ok((inner, q + 1))
            } else {
                Err(error_at(t, eoi, q, Expected::CloseParenthesis))
            },
            Err(e) => Err(e),
        }
    } else if 0 <= p < t.len() && t[p].1 is Num {
        Ok((Node::Num(t[p].1->Num_0), p + 1))
    } else {
        Err(error_at(t, eoi, p, Expected::Primary))
    }
}

/// A successful `expr` parse consumes at least one item and stays within `t`.
pub proof fn lemma_expr_advances(t: Seq<(usize, Token)>, eoi: usize, p: int)
    requires
        0 <= p <= t.len(),
    ensures
        parse_expr(t, eoi, p) matches Ok((_, q)) ==> p < q <= t.len(),
    decreases t.len() - p, 5nat,
{
    lemma_mul_advances(t, eoi, p);
    if let Ok((lhs, q)) = parse_mul(t, eoi, p) {
        lemma_expr_tail_advances(t, eoi, lhs, q);
    }
}

proof fn lemma_expr_tail_advances(t: Seq<(usize, Token)>, eoi: usize, lhs: Node, p: int)
    requires
        0 <= p <= t.len(),
    ensures
        expr_tail(t, eoi, lhs, p) matches Ok((_, q)) ==> p <= q <= t.len(),
    decreases t.len() - p, 4nat,
{
    if 0 <= p < t.len() && additive_op(t[p].1) is Some {
        lemma_mul_advances(t, eoi, p + 1);
        if let Ok((rhs, q)) = parse_mul(t, eoi, p + 1) {
            let node = Node::Binary(additive_op(t[p].1)->0, Box::new(lhs), Box::new(rhs));
            lemma_expr_tail_advances(t, eoi, node, q);
        }
    }
}

/// A successful `mul` parse consumes at least one item and stays within `t`.
pub proof fn lemma_mul_advances(t: Seq<(usize, Token)>, eoi: usize, p: int)
    requires
        0 <= p <= t.len(),
    ensures
        parse_mul(t, eoi, p) matches Ok((_, q)) ==> p < q <= t.len(),
    decreases t.len() - p, 3nat,
{
    lemma_unary_advances(t, eoi, p);
    if let Ok((lhs, q)) = parse_unary(t, eoi, p) {
        lemma_mul_tail_advances(t, eoi, lhs, q);
    }
}

proof fn lemma_mul_tail_advances(t: Seq<(usize, Token)>, eoi: usize, lhs: Node, p: int)
    requires
        0 <= p <= t.len(),
    ensures
        mul_tail(t, eoi, lhs, p) matches Ok((_, q)) ==> p <= q <= t.len(),
    decreases t.len() - p, 2nat,
{
    if 0 <= p < t.len() && multiplicative_op(t[p].1) is Some {
        lemma_unary_advances(t, eoi, p + 1);
        if let Ok((rhs, q)) = parse_unary(t, eoi, p + 1) {
            let node = Node::Binary(multiplicative_op(t[p].1)->0, Box::new(lhs), Box::new(rhs));
            lemma_mul_tail_advances(t, eoi, node, q);
        }
    }
}

/// A successful `unary` parse consumes at least one item and stays within `t`.
pub proof fn lemma_unary_advances(t: Seq<(usize, Token)>, eoi: usize, p: int)
    requires
        0 <= p <= t.len(),
    ensures
        parse_unary(t, eoi, p) matches Ok((_, q)) ==> p < q <= t.len(),
    decreases t.len() - p, 1nat,
{
    if 0 <= p < t.len() && (t[p].1 is Plus || t[p].1 is Minus) {
        lemma_primary_advances(t, eoi, p + 1);
    } else {
        lemma_primary_advances(t, eoi, p);
    }
}

/// A successful `primary` parse consumes at least one item and stays within `t`.
pub proof fn lemma_primary_advances(t: Seq<(usize, Token)>, eoi: usize, p: int)
    requires
        0 <= p <= t.len(),
    ensures
        parse_primary(t, eoi, p) matches Ok((_, q)) ==> p < q <= t.len(),
    decreases t.len() - p, 0nat,
{
    if 0 <= p < t.len() && t[p].1 is OpenParenthesis {
        lemma_expr_advances(t, eoi, p + 1);
    }
}

/// Parses an `expr := mul (("+" | "-") mul)*` from `tokens`: the longest such prefix,
/// with operators of equal precedence grouped to the left. `line` is the source line, whose
/// length is the offset reported when the tokens run out.
pub fn expr(line: &str, tokens: &mut TokenStream) -> (r: Result<Box<Node>, ParseError>)
    requires
        old(tokens).wf(),
    ensures
        final(tokens).wf(),
        final(tokens).tokens() == old(tokens).tokens(),
        match parse_expr(old(tokens).tokens(), line.len(), old(tokens).position()) {
            Ok((n, q)) => r is Ok && *r->Ok_0 == n && final(tokens).position() == q,
            Err(e) => r == Err::<Box<Node>, ParseError>(e),
        },
    decreases old(tokens).tokens().len() - old(tokens).position(), 5nat,
{
    let ghost t = tokens.tokens();
    let ghost start = tokens.position();
    let mut node = match crate::ast::mul(line, tokens) {
        Ok(n) => n,
        Err(e) => return Err(e),
    };
    proof {
        lemma_mul_advances(t, line.len(), start);
    }
    loop
        invariant
            tokens.wf(),
            tokens.tokens() == t,
            t == old(tokens).tokens(),
            start == old(tokens).position(),
            start < tokens.position(),
            parse_expr(t, line.len(), start) == expr_tail(t, line.len(), *node, tokens.position()),
        ensures
            parse_expr(t, line.len(), start) == Ok::<(Node, int), ParseError>(
                (*node, tokens.position()),
            ),
        decreases t.len() - tokens.position(),
    {
        let p = tokens.peek();
        let op = match p {
            Some((_, Token::Plus)) => BinOp::Add,
            Some((_, Token::Minus)) => BinOp::Sub,
            _ => break,
        };
        let ghost q = tokens.position();
        tokens.next();
        let rhs = match crate::ast::mul(line, tokens) {
            Ok(n) => n,
            Err(e) => return Err(e),
        };
        proof {
            lemma_mul_advances(t, line.len(), q + 1);
        }
        node = Box::new(Node::Binary(op, node, rhs));
    }
    Ok(node)
}

/// Parses a `mul := unary (("*" | "/") unary)*` from `tokens`, as `expr` does one level up.
pub fn mul(line: &str, tokens: &mut TokenStream) -> (r: Result<Box<Node>, ParseError>)
    requires
        old(tokens).wf(),
    ensures
        final(tokens).wf(),
        final(tokens).tokens() == old(tokens).tokens(),
        match parse_mul(old(tokens).tokens(), line.len(), old(tokens).position()) {
            Ok((n, q)) => r is Ok && *r->Ok_0 == n && final(tokens).position() == q,
            Err(e) => r == Err::<Box<Node>, ParseError>(e),
        },
    decreases old(tokens).tokens().len() - old(tokens).position(), 3nat,
{
    let ghost t = tokens.tokens();
    let ghost start = tokens.position();
    let mut node = match unary(line, tokens) {
        Ok(n) => n,
        Err(e) => return Err(e),
    };
    proof {
        lemma_unary_advances(t, line.len(), start);
    }
    loop
        invariant
            tokens.wf(),
            tokens.tokens() == t,
            t == old(tokens).tokens(),
            start == old(tokens).position(),
            start < tokens.position(),
            parse_mul(t, line.len(), start) == mul_tail(t, line.len(), *node, tokens.position()),
        ensures
            parse_mul(t, line.len(), start) == Ok::<(Node, int), ParseError>(
                (*node, tokens.position()),
            ),
        decreases t.len() - tokens.position(),
    {
        let p = tokens.peek();
        let op = match p {
            Some((_, Token::Asterisk)) => BinOp::Mul,
            Some((_, Token::Slash)) => BinOp::Div,
            _ => break,
        };
        let ghost q = tokens.position();
        tokens.next();
        let rhs = match unary(line, tokens) {
            Ok(n) => n,
            Err(e) => return Err(e),
        };
        proof {
            lemma_unary_advances(t, line.len(), q + 1);
        }
        node = Box::new(Node::Binary(op, node, rhs));
    }
    Ok(node)
}

/// Parses a `unary := ("+" | "-")? primary` from `tokens`: a leading sign wraps the
/// primary in a `Unary` node.
pub fn unary(line: &str, tokens: &mut TokenStream) -> (r: Result<Box<Node>, ParseError>)
    requires
        old(tokens).wf(),
    ensures
        final(tokens).wf(),
        final(tokens).tokens() == old(tokens).tokens(),
        match parse_unary(old(tokens).tokens(), line.len(), old(tokens).position()) {
            Ok((n, q)) => r is Ok && *r->Ok_0 == n && final(tokens).position() == q,
            Err(e) => r == Err::<Box<Node>, ParseError>(e),
        },
    decreases old(tokens).tokens().len() - old(tokens).position(), 1nat,
{
    let op = match tokens.peek() {
        Some((_, Token::Plus)) => UnaryOp::Positive,
        Some((_, Token::Minus)) => UnaryOp::Negative,
        _ => return primary(line, tokens),
    };
    tokens.next();
    match primary(line, tokens) {
        Ok(operand) => Ok(Box::new(Node::Unary(op, operand))),
        Err(e) => Err(e),
    }
}

/// Parses a `primary := Num | "(" expr ")"` from `tokens`. A missing `)` is reported at the
/// item found in its place; a missing number or `(` at the item found instead. Either is
/// reported at the end of `line` when the tokens run out.
pub fn primary(line: &str, tokens: &mut TokenStream) -> (r: Result<Box<Node>, ParseError>)
    requires
        old(tokens).wf(),
    ensures
        final(tokens).wf(),
        final(tokens).tokens() == old(tokens).tokens(),
        match parse_primary(old(tokens).tokens(), line.len(), old(tokens).position()) {
            Ok((n, q)) => r is Ok && *r->Ok_0 == n && final(tokens).position() == q,
            Err(e) => r == Err::<Box<Node>, ParseError>(e),
        },
    decreases old(tokens).tokens().len() - old(tokens).position(), 0nat,
{
    match tokens.peek() {
        Some((_, Token::OpenParenthesis)) => {
            tokens.next();
            let node = match expr(line, tokens) {
                Ok(n) => n,
                Err(e) => return Err(e),
            };
            if let Some((_, Token::CloseParenthesis)) = tokens.peek() {
                tokens.next();
                return Ok(node);
            }
            let offset = match tokens.next() {
                Some((i, _)) => i,
                None => line.len(),
            };
            Err(ParseError { offset, expected: Expected::CloseParenthesis })
        },
        Some((_, Token::Num(num))) => {
            tokens.next();
            Ok(Box::new(Node::Num(num)))
        },
        _ => {
            let offset = match tokens.next() {
                Some((i, _)) => i,
                None => line.len(),
            };
            Err(ParseError { offset, expected: Expected::Primary })
        },
    }
}

} // verus!
