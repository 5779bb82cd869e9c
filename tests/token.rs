use ninecc::token::{tokenize, LexError, Token};

#[test]
fn test_tokenize() {
    let expr = "12 + 34-45";
    let tokens = tokenize(&expr);
    assert_eq!(
        tokens,
        Ok(vec![
            (0, Token::Num(12)),
            (3, Token::Plus),
            (5, Token::Num(34)),
            (7, Token::Minus),
            (8, Token::Num(45))
        ])
    );
}

#[test]
fn test_tokenize2() {
    let expr = "(((123*456/)";
    let tokens = tokenize(&expr);
    assert_eq!(
        tokens,
        Ok(vec![
            (0, Token::OpenParenthesis),
            (1, Token::OpenParenthesis),
            (2, Token::OpenParenthesis),
            (3, Token::Num(123)),
            (6, Token::Asterisk),
            (7, Token::Num(456)),
            (10, Token::Slash),
            (11, Token::CloseParenthesis)
        ])
    );
}

#[test]
fn digits_lex_to_one_number() {
    assert_eq!(tokenize("123456789"), Ok(vec![(0, Token::Num(123456789))]));
    assert_eq!(tokenize("0"), Ok(vec![(0, Token::Num(0))]));
    assert_eq!(tokenize("007"), Ok(vec![(0, Token::Num(7))]));
}

#[test]
fn digit_run_is_taken_whole_before_failing() {
    assert_eq!(tokenize("12a"), Err(LexError { offset: 2 }));
}

#[test]
fn unrecognized_character_is_reported() {
    assert_eq!(tokenize("1+2;3"), Err(LexError { offset: 3 }));
}

#[test]
fn empty_and_blank_lines_have_no_tokens() {
    assert_eq!(tokenize(""), Ok(vec![]));
    assert_eq!(tokenize(" \t "), Ok(vec![]));
}

#[test]
fn unicode_whitespace_separates_tokens() {
    assert_eq!(
        tokenize("1\u{3000}2"),
        Ok(vec![(0, Token::Num(1)), (2, Token::Num(2))])
    );
}

#[test]
fn number_overflow_wraps() {
    assert_eq!(tokenize("4294967297"), Ok(vec![(0, Token::Num(1))]));
}
