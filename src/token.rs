use vstd::prelude::*;

use crate::chars::{
    digit_prefix, digit_value, enumerate, fold_digits, is_digit, is_white_space, lemma_digit_prefix_bound,
    lemma_white_prefix_bound, white_prefix, CharStream, CharsIterExt,
};

verus! {

/// A lexical token of an arithmetic expression.
#[derive(Debug, Clone, Copy, PartialEq, Eq, Structural)]
pub enum Token {
    Plus,
    Minus,
    Asterisk,
    Slash,
    OpenParenthesis,
    CloseParenthesis,
    Num(u32),
}

/// The token for a single-character operator or parenthesis, if `c` is one.
pub open spec fn symbol_token(c: char) -> Option<Token> {
    if c == '+' {
        Some(Token::Plus)
    } else if c == '-' {
        Some(Token::Minus)
    } else if c == '*' {
        Some(Token::Asterisk)
    } else if c == '/' {
        Some(Token::Slash)
    } else if c == '(' {
        Some(Token::OpenParenthesis)
    } else if c == ')' {
        Some(Token::CloseParenthesis)
    } else {
        None
    }
}

/// Lexing failed: the character at `offset` starts no token.
#[derive(Debug, Clone, Copy, PartialEq, Eq, Structural)]
pub struct LexError {
    pub offset: usize,
}

/// `head` followed by the tokens of `tail`, or the error of `tail`.
pub open spec fn prepend(
    head: Seq<(usize, Token)>,
    tail: Result<Seq<(usize, Token)>, LexError>,
) -> Result<Seq<(usize, Token)>, LexError> {
    match tail {
        Ok(t) => Ok(head + t),
        Err(e) => Err(e),
    }
}

/// The tokens of the items `s`, each with the offset of its first character: whitespace is
/// skipped, an operator or parenthesis is one token, a maximal run of digits is one number,
/// and any other character is an error at its offset.
pub open spec fn lex(s: Seq<(usize, char)>) -> Result<Seq<(usize, Token)>, LexError>
    decreases s.len()
    via lex_decreases
{
    if s.len() == 0 {
        Ok(Seq::empty())
    } else if is_white_space(s[0].1) {
        lex(s.drop_first())
    } else if symbol_token(s[0].1) is Some {
        prepend(seq![(s[0].0, symbol_token(s[0].1)->0)], lex(s.drop_first()))
    } else if is_digit(s[0].1) {
        prepend(
            seq![(s[0].0, Token::Num(fold_digits(s, digit_prefix(s))))],
            lex(s.skip(digit_prefix(s) as int)),
        )
    } else {
        Err(LexError { offset: s[0].0 })
    }
}

#[via_fn]
proof fn lex_decreases(s: Seq<(usize, char)>) {
    lemma_digit_prefix_bound(s);
}

proof fn lemma_prepend_push(
    pre: Seq<(usize, Token)>,
    x: (usize, Token),
    tail: Result<Seq<(usize, Token)>, LexError>,
)
    ensures
        prepend(pre, prepend(seq![x], tail)) == prepend(pre.push(x), tail),
{
    if let Ok(t) = tail {
        assert(pre + (seq![x] + t) =~= pre.push(x) + t);
    }
}

/// No operator, parenthesis or digit is whitespace.
proof fn lemma_not_white(c: char)
    requires
        symbol_token(c) is Some || is_digit(c),
    ensures
        !is_white_space(c),
{
}

/// Skipping leading whitespace does not change what lexing yields.
proof fn lemma_lex_skip_white(s: Seq<(usize, char)>)
    ensures
        lex(s) == lex(s.skip(white_prefix(s) as int)),
        s.skip(white_prefix(s) as int).len() > 0 ==> !is_white_space(
            s.skip(white_prefix(s) as int)[0].1,
        ),
    decreases s.len(),
{
    lemma_white_prefix_bound(s);
    if s.len() > 0 && is_white_space(s[0].1) {
        lemma_lex_skip_white(s.drop_first());
        assert(s.skip(white_prefix(s) as int) =~= s.drop_first().skip(
            white_prefix(s.drop_first()) as int,
        ));
    } else {
        assert(s.skip(0) =~= s);
    }
}

/// Splits `s` into tokens, each paired with the character offset at which it starts, or
/// reports the first character that starts no token. A number's digits are folded with `u32`
/// wrapping arithmetic, so a value past `u32::MAX` wraps modulo 2^32.
pub fn tokenize(s: &str) -> (r: Result<Vec<(usize, Token)>, LexError>)
    ensures
        match lex(enumerate(s@)) {
            Ok(t) => r is Ok && r->Ok_0@ == t,
            Err(e) => r == Err::<Vec<(usize, Token)>, LexError>(e),
        },
{
    let mut iter = CharStream::new(s);
    let mut tokens: Vec<(usize, Token)> = Vec::new();
    proof {
        if let Ok(t) = lex(iter.rest()) {
            assert(tokens@ + t =~= t);
        }
    }
    loop
        invariant
            iter.wf(),
            lex(enumerate(s@)) == prepend(tokens@, lex(iter.rest())),
        ensures
            lex(enumerate(s@)) == Ok::<Seq<(usize, Token)>, LexError>(tokens@),
        decreases iter.rest().len(),
    {
        let ghost r0 = iter.rest();
        proof {
            lemma_lex_skip_white(r0);
            lemma_white_prefix_bound(r0);
        }
        iter.skip_whitespaces();
        let ghost r1 = iter.rest();
        let ghost pre = tokens@;
        assert(r1.len() > 0 ==> r1[0] == r0[white_prefix(r0) as int]);
        proof {
            if r1.len() > 0 && (symbol_token(r1[0].1) is Some || is_digit(r1[0].1)) {
                lemma_not_white(r1[0].1);
            }
        }
        if let Some((i, _)) = iter.take_char('+') {
            tokens.push((i, Token::Plus));
            proof {
                lemma_prepend_push(pre, (i, Token::Plus), lex(iter.rest()));
            }
            continue;
        }
        if let Some((i, _)) = iter.take_char('-') {
            tokens.push((i, Token::Minus));
            proof {
                lemma_prepend_push(pre, (i, Token::Minus), lex(iter.rest()));
            }
            continue;
        }
        if let Some((i, _)) = iter.take_char('*') {
            tokens.push((i, Token::Asterisk));
            proof {
                lemma_prepend_push(pre, (i, Token::Asterisk), lex(iter.rest()));
            }
            continue;
        }
        if let Some((i, _)) = iter.take_char('/') {
            tokens.push((i, Token::Slash));
            proof {
                lemma_prepend_push(pre, (i, Token::Slash), lex(iter.rest()));
            }
            continue;
        }
        if let Some((i, _)) = iter.take_char('(') {
            tokens.push((i, Token::OpenParenthesis));
            proof {
                lemma_prepend_push(pre, (i, Token::OpenParenthesis), lex(iter.rest()));
            }
            continue;
        }
        if let Some((i, _)) = iter.take_char(')') {
            tokens.push((i, Token::CloseParenthesis));
            proof {
                lemma_prepend_push(pre, (i, Token::CloseParenthesis), lex(iter.rest()));
            }
            continue;
        }
        proof {
            lemma_digit_prefix_bound(r1);
        }
        if let Some((i, num)) = iter.take_num() {
            tokens.push((i, Token::Num(num)));
            proof {
                lemma_prepend_push(pre, (i, Token::Num(num)), lex(iter.rest()));
            }
            continue;
        }
        if let Some((i, _)) = iter.next() {
            return Err(LexError { offset: i });
        }
        assert(pre + Seq::<(usize, Token)>::empty() =~= pre);
        break;
    }
    Ok(tokens)
}

/// The value of the decimal digits `s`, most significant first.
pub open spec fn decimal(s: Seq<char>) -> nat
    decreases s.len(),
{
    if s.len() == 0 {
        0
    } else {
        decimal(s.drop_last()) * 10 + digit_value(s.last()) as nat
    }
}

pub open spec fn pow10(k: nat) -> nat
    decreases k,
{
    if k == 0 {
        1
    } else {
        10 * pow10((k - 1) as nat)
    }
}

proof fn lemma_pow10_mono(k: nat, m: nat)
    requires
        k <= m,
    ensures
        pow10(k) <= pow10(m),
    decreases m,
{
    if k < m {
        lemma_pow10_mono(k, (m - 1) as nat);
    }
}

proof fn lemma_digit_prefix_all(t: Seq<(usize, char)>)
    requires
        forall|i: int| 0 <= i < t.len() ==> is_digit(#[trigger] t[i].1),
    ensures
        digit_prefix(t) == t.len(),
    decreases t.len(),
{
    if t.len() > 0 {
        assert forall|i: int| 0 <= i < t.drop_first().len() implies is_digit(
            #[trigger] t.drop_first()[i].1,
        ) by {
            assert(t.drop_first()[i] == t[i + 1]);
        }
        lemma_digit_prefix_all(t.drop_first());
    }
}

proof fn lemma_fold_decimal(s: Seq<char>, k: nat)
    requires
        k <= s.len(),
        k <= 9,
        forall|i: int| 0 <= i < s.len() ==> is_digit(#[trigger] s[i]),
    ensures
        fold_digits(enumerate(s), k) as int == decimal(s.take(k as int)),
        decimal(s.take(k as int)) < pow10(k),
    decreases k,
{
    if k > 0 {
        let k1 = (k - 1) as nat;
        lemma_fold_decimal(s, k1);
        assert(s.take(k as int).drop_last() =~= s.take(k1 as int));
        let d = decimal(s.take(k1 as int));
        let v = digit_value(s[k1 as int]);
        assert(enumerate(s)[k1 as int].1 == s[k1 as int]);
        lemma_pow10_mono(k1, 8);
        reveal_with_fuel(pow10, 9);
        assert(pow10(8) == 100_000_000);
        assert(d * 10 + v < 10 * pow10(k1)) by (nonlinear_arith)
            requires
                d < pow10(k1),
                v <= 9,
        ;
        assert(d * 10 < 0x1_0000_0000) by (nonlinear_arith)
            requires
                d < 100_000_000,
        ;
        assert((d * 10) % 0x1_0000_0000 == d * 10);
    }
}

/// A string of one to nine decimal digits lexes to a single number token, at offset zero,
/// whose value is the string read in base ten.
pub proof fn lemma_lex_digits(s: Seq<char>)
    requires
        1 <= s.len() <= 9,
        forall|i: int| 0 <= i < s.len() ==> is_digit(#[trigger] s[i]),
    ensures
        lex(enumerate(s)) == Ok::<Seq<(usize, Token)>, LexError>(
            seq![(0usize, Token::Num(decimal(s) as u32))],
        ),
        decimal(s) < 1_000_000_000,
{
    let e = enumerate(s);
    assert forall|i: int| 0 <= i < e.len() implies is_digit(#[trigger] e[i].1) by {
        assert(e[i].1 == s[i]);
    }
    lemma_digit_prefix_all(e);
    lemma_fold_decimal(s, s.len());
    assert(s.take(s.len() as int) =~= s);
    lemma_pow10_mono(s.len(), 9);
    reveal_with_fuel(pow10, 10);
    assert(e[0] == (0usize, s[0]));
    lemma_not_white(s[0]);
    assert(symbol_token(s[0]) is None);
    assert(fold_digits(e, digit_prefix(e)) == decimal(s) as u32);
    assert(e.skip(s.len() as int) =~= Seq::<(usize, char)>::empty());
    assert(lex(e.skip(s.len() as int)) == Ok::<Seq<(usize, Token)>, LexError>(Seq::empty()));
    assert(is_digit(e[0].1));
    assert(lex(e) == prepend(
        seq![(0usize, Token::Num(decimal(s) as u32))],
        lex(e.skip(digit_prefix(e) as int)),
    ));
    assert(seq![(0usize, Token::Num(decimal(s) as u32))] + Seq::<(usize, Token)>::empty() =~= seq![
        (0usize, Token::Num(decimal(s) as u32)),
    ]);
}

/// Whether the offsets of `t` strictly increase.
pub open spec fn offsets_increase<T>(t: Seq<(usize, T)>) -> bool {
    forall|i: int, j: int| 0 <= i < j < t.len() ==> t[i].0 < t[j].0
}

proof fn lemma_lex_offsets(s: Seq<(usize, char)>)
    requires
        offsets_increase(s),
    ensures
        lex(s) matches Ok(t) ==> offsets_increase(t) && forall|k: int|
            0 <= k < t.len() ==> s[0].0 <= #[trigger] t[k].0,
    decreases s.len(),
{
    if s.len() > 0 && !is_white_space(s[0].1) && symbol_token(s[0].1) is None && is_digit(
        s[0].1,
    ) {
        lemma_digit_prefix_bound(s);
        let rest = s.skip(digit_prefix(s) as int);
        assert forall|i: int, j: int| 0 <= i < j < rest.len() implies rest[i].0 < rest[j].0 by {
            assert(rest[i] == s[i + digit_prefix(s)]);
            assert(rest[j] == s[j + digit_prefix(s)]);
        }
        lemma_lex_offsets(rest);
        if rest.len() > 0 {
            assert(rest[0] == s[digit_prefix(s) as int]);
        }
    } else if s.len() > 0 {
        let rest = s.drop_first();
        assert forall|i: int, j: int| 0 <= i < j < rest.len() implies rest[i].0 < rest[j].0 by {
            assert(rest[i] == s[i + 1]);
            assert(rest[j] == s[j + 1]);
        }
        lemma_lex_offsets(rest);
        if rest.len() > 0 {
            assert(rest[0] == s[1]);
        }
    }
}

/// The tokens of a line come in the order of their offsets, each offset strictly greater than
/// the one before.
pub proof fn lemma_tokenize_offsets_increase(s: Seq<char>)
    requires
        s.len() <= usize::MAX,
    ensures
        lex(enumerate(s)) matches Ok(t) ==> offsets_increase(t),
{
    lemma_lex_offsets(enumerate(s));
}

} // verus!
