//! The scanner: a pull-based lexer from characters to tokens.
use vstd::prelude::*;
use crate::text::{chars_of, string_of};
use crate::aggregate::FloatArith;
use crate::data::Number;
use crate::token::{Token, Tok, is_space, is_letter, is_digit, is_word_char, word_token, space, letter, digit, keyword_or_identifier};

verus! {

/// Why the scanner could not produce a token.
#[derive(Clone, Copy, Debug, PartialEq, Eq, Structural)]
pub enum ScanError {
    /// The input ended inside a quoted literal.
    UnexpectedEOF,
    /// A character that starts no token.
    UnknownToken(char),
    /// An integer literal above `i64::MAX`.
    NumberTooLarge,
}

/// The first position at or after `i` that holds no whitespace.
pub open spec fn skip_spaces(s: Seq<char>, i: int) -> int
    decreases s.len() - i,
{
    if 0 <= i < s.len() && is_space(s[i]) {
        skip_spaces(s, i + 1)
    } else {
        i
    }
}

/// The end of the run of letters, digits and underscores that starts at `i`.
pub open spec fn word_end(s: Seq<char>, i: int) -> int
    decreases s.len() - i,
{
    if 0 <= i < s.len() && is_word_char(s[i]) {
        word_end(s, i + 1)
    } else {
        i
    }
}

/// The end of the numeric literal that continues at `i`: digits, and one
/// decimal point unless `dot` says that one was already seen.
pub open spec fn number_end(s: Seq<char>, i: int, dot: bool) -> int
    decreases s.len() - i,
{
    if 0 <= i < s.len() && (is_digit(s[i]) || (s[i] == '.' && !dot)) {
        number_end(s, i + 1, dot || s[i] == '.')
    } else {
        i
    }
}

/// The value of one decimal digit.
pub open spec fn digit_value(c: char) -> int {
    (c as u32) as int - 48
}

/// The value of a run of decimal digits.
pub open spec fn digits_value(w: Seq<char>) -> int
    decreases w.len(),
{
    if w.len() == 0 {
        0
    } else {
        digits_value(w.drop_last()) * 10 + digit_value(w.last())
    }
}

/// The token for a numeric literal: a float when it holds a decimal point,
/// else its integer value, which must fit in an `i64`.
pub open spec fn number_token(w: Seq<char>) -> Result<Tok, ScanError> {
    if w.contains('.') {
        Ok(Tok::Float)
    } else if digits_value(w) <= i64::MAX {
        Ok(Tok::Int(digits_value(w) as i64))
    } else {
        Err(ScanError::NumberTooLarge)
    }
}

/// The character that `\c` stands for inside a quoted literal.
pub open spec fn unescape(c: char) -> char {
    if c == 'n' {
        '\n'
    } else {
        c
    }
}

/// The contents of a quoted literal whose body starts at `i` and which ends
/// with `delim`, with the position after the closing delimiter; `None` when
/// the input ends first.
pub open spec fn quoted(s: Seq<char>, i: int, delim: char) -> Option<(Seq<char>, int)>
    decreases s.len() - i,
{
    if i < 0 || i >= s.len() {
        None
    } else if s[i] == delim {
        Some((Seq::empty(), i + 1))
    } else if s[i] == '\\' {
        if i + 1 >= s.len() {
            None
        } else {
            match quoted(s, i + 2, delim) {
                Some((rest, e)) => Some((seq![unescape(s[i + 1])] + rest, e)),
                None => None,
            }
        }
    } else {
        match quoted(s, i + 1, delim) {
            Some((rest, e)) => Some((seq![s[i]] + rest, e)),
            None => None,
        }
    }
}

/// What the scanner yields from position `p` of `s`, with the position it
/// stops at: `None` at the end of the input.
pub open spec fn next_token(s: Seq<char>, p: int) -> Option<(Result<Tok, ScanError>, int)> {
    let i = skip_spaces(s, p);
    if i < 0 || i >= s.len() {
        None
    } else {
        let c = s[i];
        if c == '(' {
            Some((Ok(Tok::OpenParen), i + 1))
        } else if c == ')' {
            Some((Ok(Tok::CloseParen), i + 1))
        } else if c == ',' {
            Some((Ok(Tok::Comma), i + 1))
        } else if c == '=' {
            Some((Ok(Tok::Eq), i + 1))
        } else if c == '\'' {
            match quoted(s, i + 1, '\'') {
                Some((body, e)) => Some((Ok(Tok::Str(body)), e)),
                None => Some((Err(ScanError::UnexpectedEOF), s.len() as int)),
            }
        } else if c == '"' {
            match quoted(s, i + 1, '"') {
                Some((body, e)) => Some((Ok(Tok::Identifier(body)), e)),
                None => Some((Err(ScanError::UnexpectedEOF), s.len() as int)),
            }
        } else if is_letter(c) {
            let e = word_end(s, i);
            Some((Ok(word_token(s.subrange(i, e))), e))
        } else if is_digit(c) {
            let e = number_end(s, i, false);
            Some((number_token(s.subrange(i, e)), e))
        } else {
            Some((Err(ScanError::UnknownToken(c)), i))
        }
    }
}

pub open spec fn scanned_view(r: Result<Token, ScanError>) -> Result<Tok, ScanError> {
    match r {
        Ok(t) => Ok(t@),
        Err(e) => Err(e),
    }
}

proof fn lemma_skip_spaces_bounds(s: Seq<char>, i: int)
    requires
        0 <= i <= s.len(),
    ensures
        i <= skip_spaces(s, i) <= s.len(),
        forall|j: int| i <= j < skip_spaces(s, i) ==> is_space(#[trigger] s[j]),
    decreases s.len() - i,
{
    if 0 <= i < s.len() && is_space(s[i]) {
        lemma_skip_spaces_bounds(s, i + 1);
    }
}

proof fn lemma_word_end_bounds(s: Seq<char>, i: int)
    requires
        0 <= i <= s.len(),
    ensures
        i <= word_end(s, i) <= s.len(),
    decreases s.len() - i,
{
    if 0 <= i < s.len() && is_word_char(s[i]) {
        lemma_word_end_bounds(s, i + 1);
    }
}

proof fn lemma_number_end_bounds(s: Seq<char>, i: int, dot: bool)
    requires
        0 <= i <= s.len(),
    ensures
        i <= number_end(s, i, dot) <= s.len(),
    decreases s.len() - i,
{
    if 0 <= i < s.len() && (is_digit(s[i]) || (s[i] == '.' && !dot)) {
        lemma_number_end_bounds(s, i + 1, dot || s[i] == '.');
    }
}

proof fn lemma_quoted_bounds(s: Seq<char>, i: int, delim: char)
    requires
        0 <= i,
    ensures
        quoted(s, i, delim) matches Some((_, e)) ==> i < e <= s.len(),
    decreases s.len() - i,
{
    if i < 0 || i >= s.len() {
    } else if s[i] == delim {
    } else if s[i] == '\\' {
        if i + 1 < s.len() {
            lemma_quoted_bounds(s, i + 2, delim);
        }
    } else {
        lemma_quoted_bounds(s, i + 1, delim);
    }
}

/// The position after a token is past the position where scanning began, and
/// within the input.
pub proof fn lemma_next_token_advances(s: Seq<char>, p: int)
    requires
        0 <= p <= s.len(),
    ensures
        next_token(s, p) matches Some((Ok(_), q)) ==> p < q <= s.len(),
        next_token(s, p) matches Some((Err(_), q)) ==> p <= q <= s.len(),
{
    lemma_skip_spaces_bounds(s, p);
    let i = skip_spaces(s, p);
    if 0 <= i < s.len() {
        lemma_quoted_bounds(s, i + 1, '\'');
        lemma_quoted_bounds(s, i + 1, '"');
        lemma_word_end_bounds(s, i);
        lemma_number_end_bounds(s, i, false);
        if is_letter(s[i]) {
            lemma_word_end_bounds(s, i + 1);
        }
        if is_digit(s[i]) {
            lemma_number_end_bounds(s, i + 1, false);
        }
    }
}

proof fn lemma_digits_value_grows(w: Seq<char>, k: int)
    requires
        0 <= k <= w.len(),
        forall|m: int| 0 <= m < w.len() ==> is_digit(#[trigger] w[m]),
    ensures
        0 <= digits_value(w.subrange(0, k)) <= digits_value(w),
    decreases w.len() - k,
{
    if k == w.len() {
        assert(w.subrange(0, k) =~= w);
        lemma_digits_value_nonnegative(w);
    } else {
        let d = w.drop_last();
        assert forall|m: int| 0 <= m < d.len() implies is_digit(#[trigger] d[m]) by {
            assert(d[m] == w[m]);
        }
        lemma_digits_value_grows(d, k);
        assert(d.subrange(0, k) =~= w.subrange(0, k));
        assert(is_digit(w[w.len() - 1]));
    }
}

proof fn lemma_digits_value_nonnegative(w: Seq<char>)
    requires
        forall|m: int| 0 <= m < w.len() ==> is_digit(#[trigger] w[m]),
    ensures
        digits_value(w) >= 0,
    decreases w.len(),
{
    if w.len() > 0 {
        let d = w.drop_last();
        assert forall|m: int| 0 <= m < d.len() implies is_digit(#[trigger] d[m]) by {
            assert(d[m] == w[m]);
        }
        lemma_digits_value_nonnegative(d);
        assert(is_digit(w[w.len() - 1]));
    }
}

/// The value of a run of digits, when it fits in an `i64`.
fn digits_to_int(w: &Vec<char>) -> (r: Option<i64>)
    requires
        forall|m: int| 0 <= m < w@.len() ==> is_digit(#[trigger] w@[m]),
    ensures
        match r {
            Some(v) => digits_value(w@) <= i64::MAX && v as int == digits_value(w@),
            None => digits_value(w@) > i64::MAX,
        },
{
    let mut v: u64 = 0;
    let mut k: usize = 0;
    while k < w.len()
        invariant
            k <= w@.len(),
            forall|m: int| 0 <= m < w@.len() ==> is_digit(#[trigger] w@[m]),
            v as int == digits_value(w@.subrange(0, k as int)),
            v <= i64::MAX,
        decreases w@.len() - k,
    {
        let c = w[k];
        assert(is_digit(w@[k as int]));
        let d: u64 = (c as u32 - 48) as u64;
        let ghost next = w@.subrange(0, k as int + 1);
        proof {
            assert(next.drop_last() =~= w@.subrange(0, k as int));
            assert(next.last() == c);
        }
        if v > 922_337_203_685_477_580 || (v == 922_337_203_685_477_580 && d > 7) {
            proof {
                assert(digits_value(next) > i64::MAX);
                lemma_digits_value_grows(w@, k as int + 1);
            }
            return None;
        }
        v = v * 10 + d;
        k = k + 1;
    }
    proof {
        assert(w@.subrange(0, w@.len() as int) =~= w@);
    }
    Some(v as i64)
}

/// A pull-based scanner over the characters of a query text.
pub struct Scanner {
    input: Vec<char>,
    pos: usize,
}

impl Scanner {
    pub closed spec fn text(&self) -> Seq<char> {
        self.input@
    }

    pub closed spec fn position(&self) -> int {
        self.pos as int
    }

    pub closed spec fn wf(&self) -> bool {
        self.pos <= self.input@.len()
    }

    /// A scanner at the start of `input`.
    pub fn new(input: &str) -> (r: Scanner)
        ensures
            r.wf(),
            r.text() == input@,
            r.position() == 0,
    {
        Scanner { input: chars_of(input), pos: 0 }
    }

    /// Yields the next token, or `None` at the end of the input.
    pub fn next<A: FloatArith>(&mut self, arith: &A) -> (r: Option<Result<Token, ScanError>>)
        requires
            old(self).wf(),
        ensures
            final(self).wf(),
            final(self).text() == old(self).text(),
            match next_token(old(self).text(), old(self).position()) {
                None => r is None && final(self).position() == old(self).position(),
                Some((t, q)) => r matches Some(x) && scanned_view(x) == t
                    && final(self).position() == q,
            },
    {
        let (r, q) = self.scan_at(self.pos, arith);
        match r {
            None => {},
            Some(_) => {
                self.pos = q;
            },
        }
        r
    }

    /// What the scanner yields from position `p`, with the position after it;
    /// the scanner itself does not move.
    pub fn scan_at<A: FloatArith>(&self, p: usize, arith: &A) -> (r: (Option<Result<Token, ScanError>>, usize))
        requires
            self.wf(),
            p <= self.text().len(),
        ensures
            r.1 <= self.text().len(),
            match next_token(self.text(), p as int) {
                None => r.0 is None && r.1 == p,
                Some((t, q)) => r.0 matches Some(x) && scanned_view(x) == t && r.1 == q,
            },
    {
        proof {
            lemma_next_token_advances(self.input@, p as int);
        }
        let i = self.skip_spaces(p);
        if i >= self.input.len() {
            return (None, p);
        }
        let c = self.input[i];
        if c == '(' {
            (Some(Ok(Token::OpenParen)), i + 1)
        } else if c == ')' {
            (Some(Ok(Token::CloseParen)), i + 1)
        } else if c == ',' {
            (Some(Ok(Token::Comma)), i + 1)
        } else if c == '=' {
            (Some(Ok(Token::Eq)), i + 1)
        } else if c == '\'' {
            match self.read_quoted(i + 1, '\'') {
                Some((body, e)) => (Some(Ok(Token::String(string_of(&body)))), e),
                None => (Some(Err(ScanError::UnexpectedEOF)), self.input.len()),
            }
        } else if c == '"' {
            match self.read_quoted(i + 1, '"') {
                Some((body, e)) => (Some(Ok(Token::Identifier(string_of(&body)))), e),
                None => (Some(Err(ScanError::UnexpectedEOF)), self.input.len()),
            }
        } else if letter(c) {
            let (w, e) = self.read_word(i);
            (Some(Ok(keyword_or_identifier(&w))), e)
        } else if digit(c) {
            let (w, e, dot) = self.read_number(i);
            if dot {
                let f = arith.from_decimal(string_of(&w).as_str());
                (Some(Ok(Token::Number(Number::Float(f)))), e)
            } else {
                match digits_to_int(&w) {
                    Some(v) => (Some(Ok(Token::Number(Number::Int(v)))), e),
                    None => (Some(Err(ScanError::NumberTooLarge)), e),
                }
            }
        } else {
            (Some(Err(ScanError::UnknownToken(c))), i)
        }
    }

    fn skip_spaces(&self, p: usize) -> (r: usize)
        requires
            p <= self.input@.len(),
        ensures
            r == skip_spaces(self.input@, p as int),
            r <= self.input@.len(),
    {
        let mut i = p;
        proof {
            lemma_skip_spaces_bounds(self.input@, p as int);
        }
        while i < self.input.len() && space(self.input[i])
            invariant
                p <= i <= self.input@.len(),
                skip_spaces(self.input@, i as int) == skip_spaces(self.input@, p as int),
            decreases self.input@.len() - i,
        {
            i = i + 1;
        }
        i
    }

    fn read_word(&self, start: usize) -> (r: (Vec<char>, usize))
        requires
            start <= self.input@.len(),
        ensures
            r.1 == word_end(self.input@, start as int),
            r.0@ == self.input@.subrange(start as int, r.1 as int),
    {
        let mut w: Vec<char> = Vec::new();
        let mut i = start;
        proof {
            lemma_word_end_bounds(self.input@, start as int);
        }
        while i < self.input.len() && (letter(self.input[i]) || digit(self.input[i]))
            invariant
                start <= i <= self.input@.len(),
                word_end(self.input@, i as int) == word_end(self.input@, start as int),
                w@ == self.input@.subrange(start as int, i as int),
            decreases self.input@.len() - i,
        {
            w.push(self.input[i]);
            i = i + 1;
            proof {
                assert(w@ =~= self.input@.subrange(start as int, i as int));
            }
        }
        (w, i)
    }

    fn read_number(&self, start: usize) -> (r: (Vec<char>, usize, bool))
        requires
            start <= self.input@.len(),
        ensures
            r.1 == number_end(self.input@, start as int, false),
            r.0@ == self.input@.subrange(start as int, r.1 as int),
            r.2 == r.0@.contains('.'),
            forall|k: int| 0 <= k < r.0@.len() ==> is_digit(#[trigger] r.0@[k]) || r.0@[k] == '.',
    {
        let mut w: Vec<char> = Vec::new();
        let mut i = start;
        let mut dot = false;
        while i < self.input.len() && (digit(self.input[i]) || (self.input[i] == '.' && !dot))
            invariant
                start <= i <= self.input@.len(),
                number_end(self.input@, i as int, dot) == number_end(self.input@, start as int, false),
                w@ == self.input@.subrange(start as int, i as int),
                dot == w@.contains('.'),
                forall|k: int| 0 <= k < w@.len() ==> is_digit(#[trigger] w@[k]) || w@[k] == '.',
            decreases self.input@.len() - i,
        {
            let c = self.input[i];
            let ghost before = w@;
            if c == '.' {
                dot = true;
            }
            w.push(c);
            i = i + 1;
            proof {
                assert(w@ =~= self.input@.subrange(start as int, i as int));
                assert(w@ == before.push(c));
                if c == '.' {
                    assert(w@[before.len() as int] == '.');
                } else if before.contains('.') {
                    let k = choose|k: int| 0 <= k < before.len() && before[k] == '.';
                    assert(w@[k] == '.');
                } else {
                    assert forall|k: int| 0 <= k < w@.len() implies w@[k] != '.' by {
                        if k < before.len() {
                            assert(w@[k] == before[k]);
                        }
                    }
                }
            }
        }
        (w, i, dot)
    }

    fn read_quoted(&self, start: usize, delim: char) -> (r: Option<(Vec<char>, usize)>)
        requires
            start <= self.input@.len(),
        ensures
            match quoted(self.input@, start as int, delim) {
                None => r is None,
                Some((body, e)) => r matches Some(x) && x.0@ == body && x.1 == e,
            },
    {
        let ghost s = self.input@;
        let mut buf: Vec<char> = Vec::new();
        let mut i = start;
        proof {
            lemma_quoted_bounds(s, start as int, delim);
        }
        loop
            invariant
                start <= i <= s.len(),
                s == self.input@,
                quoted(s, start as int, delim) == match quoted(s, i as int, delim) {
                    Some((rest, e)) => Some((buf@ + rest, e)),
                    None => None,
                },
            decreases s.len() - i,
        {
            if i >= self.input.len() {
                return None;
            }
            let c = self.input[i];
            if c == delim {
                proof {
                    assert(buf@ + Seq::<char>::empty() =~= buf@);
                }
                return Some((buf, i + 1));
            } else if c == '\\' {
                if i + 1 >= self.input.len() {
                    return None;
                }
                let d = self.input[i + 1];
                let u = if d == 'n' { '\n' } else { d };
                let ghost old_buf = buf@;
                buf.push(u);
                proof {
                    match quoted(s, i + 2, delim) {
                        Some((rest, e)) => {
                            assert(old_buf + (seq![u] + rest) =~= buf@ + rest);
                        },
                        None => {},
                    }
                }
                i = i + 2;
            } else {
                let ghost old_buf = buf@;
                buf.push(c);
                proof {
                    match quoted(s, i + 1, delim) {
                        Some((rest, e)) => {
                            assert(old_buf + (seq![c] + rest) =~= buf@ + rest);
                        },
                        None => {},
                    }
                }
                i = i + 1;
            }
        }
    }
}

} // verus!
