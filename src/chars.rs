//! A cursor over the characters of a source line, each paired with its offset.
use vstd::prelude::*;

verus! {

/// The characters of `s`, each paired with its index in `s`.
pub open spec fn enumerate(s: Seq<char>) -> Seq<(usize, char)> {
    Seq::new(s.len(), |i: int| (i as usize, s[i]))
}

/// Whether `c` has the Unicode `White_Space` property.
pub open spec fn is_white_space(c: char) -> bool {
    let u = c as u32;
    (0x09 <= u <= 0x0D) || u == 0x20 || u == 0x85 || u == 0xA0 || u == 0x1680 || (0x2000 <= u
        <= 0x200A) || u == 0x2028 || u == 0x2029 || u == 0x202F || u == 0x205F || u == 0x3000
}

pub open spec fn is_digit(c: char) -> bool {
    '0' <= c <= '9'
}

pub open spec fn digit_value(c: char) -> u32 {
    (c as u32 - '0' as u32) as u32
}

/// How many items at the front of `s` hold whitespace.
pub open spec fn white_prefix(s: Seq<(usize, char)>) -> nat
    decreases s.len(),
{
    if s.len() > 0 && is_white_space(s[0].1) {
        1 + white_prefix(s.drop_first())
    } else {
        0
    }
}

/// How many items at the front of `s` hold an ASCII decimal digit.
pub open spec fn digit_prefix(s: Seq<(usize, char)>) -> nat
    decreases s.len(),
{
    if s.len() > 0 && is_digit(s[0].1) {
        1 + digit_prefix(s.drop_first())
    } else {
        0
    }
}

/// The digits of the first `k` items of `s` read in base ten, with `u32` wrapping arithmetic.
pub open spec fn fold_digits(s: Seq<(usize, char)>, k: nat) -> u32
    decreases k,
{
    if k == 0 {
        0
    } else {
        fold_digits(s, (k - 1) as nat).wrapping_mul(10).wrapping_add(digit_value(s[k - 1].1))
    }
}

/// The number at the front of `s`: its first offset and its value, if `s` starts with a digit.
pub open spec fn leading_num(s: Seq<(usize, char)>) -> Option<(usize, u32)> {
    if digit_prefix(s) == 0 {
        None
    } else {
        Some((s[0].0, fold_digits(s, digit_prefix(s))))
    }
}

pub proof fn lemma_digit_prefix_bound(s: Seq<(usize, char)>)
    ensures
        digit_prefix(s) <= s.len(),
        forall|j: int| 0 <= j < digit_prefix(s) ==> is_digit(#[trigger] s[j].1),
        digit_prefix(s) < s.len() ==> !is_digit(s[digit_prefix(s) as int].1),
    decreases s.len(),
{
    if s.len() > 0 && is_digit(s[0].1) {
        lemma_digit_prefix_bound(s.drop_first());
        assert forall|j: int| 0 <= j < digit_prefix(s) implies is_digit(#[trigger] s[j].1) by {
            if j > 0 {
                assert(s[j] == s.drop_first()[j - 1]);
            }
        }
    }
}

pub proof fn lemma_white_prefix_bound(s: Seq<(usize, char)>)
    ensures
        white_prefix(s) <= s.len(),
    decreases s.len(),
{
    if s.len() > 0 && is_white_space(s[0].1) {
        lemma_white_prefix_bound(s.drop_first());
    }
}

/// Relies on `char::is_whitespace`: true exactly for the characters with the Unicode
/// `White_Space` property.
#[verifier::external_body]
fn char_is_whitespace(c: char) -> (r: bool)
    ensures
        r == is_white_space(c),
{
    c.is_whitespace()
}

/// Single-character lookahead operations on a stream of `(offset, char)` items.
pub trait CharsIterExt {
    /// Whether the stream is in a usable state.
    spec fn wf(&self) -> bool;

    /// The items not yet consumed.
    spec fn rest(&self) -> Seq<(usize, char)>;

    /// Consumes the leading whitespace.
    fn skip_whitespaces(&mut self)
        requires
            old(self).wf(),
        ensures
            final(self).wf(),
            final(self).rest() == old(self).rest().skip(white_prefix(old(self).rest()) as int),
    ;

    /// Consumes the next item if it holds `c`, and returns it.
    fn take_char(&mut self, c: char) -> (r: Option<(usize, char)>)
        requires
            old(self).wf(),
        ensures
            final(self).wf(),
            old(self).rest().len() > 0 && old(self).rest()[0].1 == c ==> r == Some(
                old(self).rest()[0],
            ) && final(self).rest() == old(self).rest().drop_first(),
            !(old(self).rest().len() > 0 && old(self).rest()[0].1 == c) ==> r is None
                && final(self).rest() == old(self).rest(),
    ;

    /// Consumes the next item if it holds an ASCII digit, and returns its offset and value.
    fn take_ascii_digit(&mut self) -> (r: Option<(usize, u32)>)
        requires
            old(self).wf(),
        ensures
            final(self).wf(),
            old(self).rest().len() > 0 && is_digit(old(self).rest()[0].1) ==> r == Some(
                (old(self).rest()[0].0, digit_value(old(self).rest()[0].1)),
            ) && final(self).rest() == old(self).rest().drop_first(),
            !(old(self).rest().len() > 0 && is_digit(old(self).rest()[0].1)) ==> r is None
                && final(self).rest() == old(self).rest(),
    ;

    /// Consumes the longest run of ASCII digits, and returns its first offset and its value.
    fn take_num(&mut self) -> (r: Option<(usize, u32)>)
        requires
            old(self).wf(),
        ensures
            final(self).wf(),
            r == leading_num(old(self).rest()),
            final(self).rest() == old(self).rest().skip(digit_prefix(old(self).rest()) as int),
    ;
}

/// A stream over a sequence of `(offset, char)` items.
pub struct CharStream {
    items: Vec<(usize, char)>,
    pos: usize,
}

impl CharStream {
    /// A stream over the characters of `s`, each paired with its index.
    pub fn new(s: &str) -> (r: CharStream)
        ensures
            r.wf(),
            r.rest() == enumerate(s@),
    {
        let n = s.unicode_len();
        let mut items: Vec<(usize, char)> = Vec::new();
        let mut i: usize = 0;
        while i < n
            invariant
                n == s@.len(),
                i <= n,
                items@ == enumerate(s@).take(i as int),
            decreases n - i,
        {
            let c = s.get_char(i);
            items.push((i, c));
            i = i + 1;
            assert(items@ =~= enumerate(s@).take(i as int));
        }
        assert(items@ =~= enumerate(s@));
        let r = CharStream { items, pos: 0 };
        assert(r.rest() =~= enumerate(s@));
        r
    }

    /// Returns the next item without consuming it.
    pub fn peek(&self) -> (r: Option<(usize, char)>)
        requires
            self.wf(),
        ensures
            self.rest().len() > 0 ==> r == Some(self.rest()[0]),
            self.rest().len() == 0 ==> r is None,
    {
        if self.pos < self.items.len() {
            Some(self.items[self.pos])
        } else {
            None
        }
    }

    /// Consumes and returns the next item.
    pub fn next(&mut self) -> (r: Option<(usize, char)>)
        requires
            old(self).wf(),
        ensures
            final(self).wf(),
            old(self).rest().len() > 0 ==> r == Some(old(self).rest()[0]) && final(self).rest()
                == old(self).rest().drop_first(),
            old(self).rest().len() == 0 ==> r is None && final(self).rest() == old(self).rest(),
    {
        if self.pos < self.items.len() {
            let item = self.items[self.pos];
            self.pos = self.pos + 1;
            assert(self.rest() =~= old(self).rest().drop_first());
            Some(item)
        } else {
            None
        }
    }
}

impl CharsIterExt for CharStream {
    closed spec fn wf(&self) -> bool {
        self.pos <= self.items@.len()
    }

    closed spec fn rest(&self) -> Seq<(usize, char)> {
        self.items@.skip(self.pos as int)
    }

    fn skip_whitespaces(&mut self) {
        let ghost start = self.rest();
        proof {
            lemma_white_prefix_bound(start);
        }
        while self.pos < self.items.len()
            invariant
                self.wf(),
                white_prefix(self.rest()) <= self.rest().len(),
                start.skip(white_prefix(start) as int) == self.rest().skip(
                    white_prefix(self.rest()) as int,
                ),
            ensures
                white_prefix(self.rest()) == 0,
            decreases self.items@.len() - self.pos,
        {
            if char_is_whitespace(self.items[self.pos].1) {
                let ghost before = self.rest();
                self.pos = self.pos + 1;
                assert(self.rest() =~= before.drop_first());
                assert(before.skip(white_prefix(before) as int) =~= self.rest().skip(
                    white_prefix(self.rest()) as int,
                ));
                proof {
                    lemma_white_prefix_bound(self.rest());
                }
            } else {
                assert(self.rest()[0] == self.items@[self.pos as int]);
                break;
            }
        }
        assert(self.rest().skip(white_prefix(self.rest()) as int) =~= self.rest());
    }

    fn take_char(&mut self, c: char) -> (r: Option<(usize, char)>) {
        match self.peek() {
            Some((_, d)) => {
                if d == c {
                    self.next()
                } else {
                    None
                }
            },
            None => None,
        }
    }

    fn take_ascii_digit(&mut self) -> (r: Option<(usize, u32)>) {
        match self.peek() {
            Some((_, c)) => {
                if '0' <= c && c <= '9' {
                    match self.next() {
                        Some((i, d)) => Some((i, d as u32 - '0' as u32)),
                        None => None,
                    }
                } else {
                    None
                }
            },
            None => None,
        }
    }

    fn take_num(&mut self) -> (r: Option<(usize, u32)>) {
        let ghost start = self.rest();
        let mut ret: Option<(usize, u32)> = None;
        let ghost mut k: nat = 0;
        proof {
            lemma_digit_prefix_bound(start);
        }
        loop
            invariant
                self.wf(),
                k <= digit_prefix(start),
                self.rest() == start.skip(k as int),
                k == 0 ==> ret is None,
                k > 0 ==> ret == Some((start[0].0, fold_digits(start, k))),
                digit_prefix(start) <= start.len(),
                forall|j: int| 0 <= j < digit_prefix(start) ==> is_digit(#[trigger] start[j].1),
                digit_prefix(start) < start.len() ==> !is_digit(
                    start[digit_prefix(start) as int].1,
                ),
            ensures
                k == digit_prefix(start),
            decreases start.len() - k,
        {
            let ghost before = self.rest();
            match self.take_ascii_digit() {
                Some((i, d)) => {
                    proof {
                        assert(before[0] == start[k as int]);
                        if k == digit_prefix(start) {
                            assert(false);
                        }
                    }
                    let r = match ret {
                        Some((first, acc)) => first,
                        None => i,
                    };
                    let acc = match ret {
                        Some((_, acc)) => acc,
                        None => 0,
                    };
                    ret = Some((r, acc.wrapping_mul(10).wrapping_add(d)));
                    proof {
                        k = k + 1;
                        assert(self.rest() =~= start.skip(k as int));
                    }
                },
                None => {
                    proof {
                        if k < digit_prefix(start) {
                            assert(before[0] == start[k as int]);
                        }
                    }
                    break;
                },
            }
        }
        ret
    }
}

/// Consumes the longest run of decimal digits at the front of `iter`, and returns the
/// offset of its first digit and its value in base ten (with `u32` wrapping arithmetic);
/// `None`, consuming nothing, when `iter` does not start with a digit.
pub fn strtol(iter: &mut CharStream) -> (r: Option<(usize, u32)>)
    requires
        old(iter).wf(),
    ensures
        final(iter).wf(),
        r == leading_num(old(iter).rest()),
        final(iter).rest() == old(iter).rest().skip(digit_prefix(old(iter).rest()) as int),
{
    iter.take_num()
}

} // verus!
