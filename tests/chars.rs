use ninecc::chars::{strtol, CharStream, CharsIterExt};

#[test]
fn test_strtol1() {
    let s = "1234";
    assert_eq!(strtol(&mut CharStream::new(s)), Some((0, 1234)));
}

#[test]
fn test_strtol2() {
    let s = "abc";
    assert_eq!(strtol(&mut CharStream::new(s)), None);
}

#[test]
fn test_strtol3() {
    let s = "12+34";
    let mut iter = CharStream::new(s);
    assert_eq!(strtol(&mut iter), Some((0, 12)));
    iter.next(); // skip '+'
    assert_eq!(strtol(&mut iter), Some((3, 34)));
}

#[test]
fn test_skip_whitespaces() {
    let s = "    \t abc";
    let mut iter = CharStream::new(s);
    iter.skip_whitespaces();
    assert!(iter.take_char('a').is_some());
}

#[test]
fn test_take_char() {
    let s = "abcd";
    let mut iter = CharStream::new(s);
    assert_eq!(iter.take_char('a'), Some((0, 'a')));
    assert_eq!(iter.take_char('b'), Some((1, 'b')));
    assert_eq!(iter.take_char('z'), None);
}

#[test]
fn test_take_ascii_digit() {
    let s = "12a34";
    let mut iter = CharStream::new(s);
    assert_eq!(iter.take_ascii_digit(), Some((0, 1)));
    assert_eq!(iter.take_ascii_digit(), Some((1, 2)));
    assert_eq!(iter.take_ascii_digit(), None);
    assert_eq!(iter.take_ascii_digit(), None);
}

#[test]
fn test_take_num() {
    let s = "12a34";
    let mut iter = CharStream::new(s);
    assert_eq!(iter.take_num(), Some((0, 12)));
    assert_eq!(iter.take_num(), None);
}

#[test]
fn take_num_wraps_past_u32() {
    let mut iter = CharStream::new("4294967296");
    assert_eq!(iter.take_num(), Some((0, 0)));
    assert_eq!(iter.peek(), None);
}

#[test]
fn skip_whitespaces_stops_at_other_characters() {
    let mut iter = CharStream::new(" \u{3000}\n x");
    iter.skip_whitespaces();
    assert_eq!(iter.peek(), Some((4, 'x')));
    let mut plain = CharStream::new("x ");
    plain.skip_whitespaces();
    assert_eq!(plain.peek(), Some((0, 'x')));
}
