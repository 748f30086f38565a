//! Lexical tokens of the query language, the character classes of the
//! scanner, and the keywords.
use vstd::prelude::*;
use crate::text::string_of;
use crate::data::Number;

verus! {

/// A lexical token.
#[derive(Clone, Debug, PartialEq)]
pub enum Token {
    Select,
    From,
    Where,
    Group,
    Order,
    By,
    Asc,
    Desc,
    Identifier(String),
    String(String),
    /// A numeric literal: an integer without a decimal point, a float with
    /// one.
    Number(Number),
    OpenParen,
    CloseParen,
    Comma,
    Eq,
}

/// The mathematical model of a token: strings are character sequences.
pub enum Tok {
    Select,
    From,
    Where,
    Group,
    Order,
    By,
    Asc,
    Desc,
    Identifier(Seq<char>),
    Str(Seq<char>),
    /// An integer literal and its value.
    Int(i64),
    /// A decimal literal; its binary64 value comes from the caller's
    /// arithmetic and is not part of the model.
    Float,
    OpenParen,
    CloseParen,
    Comma,
    Eq,
}

impl View for Token {
    type V = Tok;

    open spec fn view(&self) -> Tok {
        match self {
            Token::Select => Tok::Select,
            Token::From => Tok::From,
            Token::Where => Tok::Where,
            Token::Group => Tok::Group,
            Token::Order => Tok::Order,
            Token::By => Tok::By,
            Token::Asc => Tok::Asc,
            Token::Desc => Tok::Desc,
            Token::Identifier(s) => Tok::Identifier(s@),
            Token::String(s) => Tok::Str(s@),
            Token::Number(Number::Int(v)) => Tok::Int(*v),
            Token::Number(Number::Float(_)) => Tok::Float,
            Token::OpenParen => Tok::OpenParen,
            Token::CloseParen => Tok::CloseParen,
            Token::Comma => Tok::Comma,
            Token::Eq => Tok::Eq,
        }
    }
}

pub open spec fn is_space(c: char) -> bool {
    c == ' ' || c == '\t' || c == '\r' || c == '\n'
}

pub open spec fn is_letter(c: char) -> bool {
    ('a' <= c && c <= 'z') || ('A' <= c && c <= 'Z') || c == '_'
}

pub open spec fn is_digit(c: char) -> bool {
    '0' <= c && c <= '9'
}

pub open spec fn is_word_char(c: char) -> bool {
    is_letter(c) || is_digit(c)
}

pub fn space(c: char) -> (r: bool)
    ensures
        r == is_space(c),
{
    c == ' ' || c == '\t' || c == '\r' || c == '\n'
}

pub fn letter(c: char) -> (r: bool)
    ensures
        r == is_letter(c),
{
    ('a' <= c && c <= 'z') || ('A' <= c && c <= 'Z') || c == '_'
}

pub fn digit(c: char) -> (r: bool)
    ensures
        r == is_digit(c),
{
    '0' <= c && c <= '9'
}

/// ASCII lower case of one character; other characters are kept.
pub open spec fn lower(c: char) -> char {
    if 'A' <= c && c <= 'Z' {
        ((c as u8) + 32) as u8 as char
    } else {
        c
    }
}

pub open spec fn lower_seq(s: Seq<char>) -> Seq<char> {
    s.map_values(|c: char| lower(c))
}

pub fn lower_char(c: char) -> (r: char)
    ensures
        r == lower(c),
{
    if 'A' <= c && c <= 'Z' {
        let b: u8 = c as u8;
        (b + 32) as char
    } else {
        c
    }
}

/// Whether `s` equals `word` ignoring ASCII case; `word` is lower case.
pub fn equal_folded(s: &Vec<char>, word: &Vec<char>) -> (r: bool)
    ensures
        r == (lower_seq(s@) == word@),
{
    if s.len() != word.len() {
        proof {
            assert(lower_seq(s@).len() != word@.len());
        }
        return false;
    }
    let mut i: usize = 0;
    while i < s.len()
        invariant
            s@.len() == word@.len(),
            i <= s@.len(),
            forall|j: int| 0 <= j < i ==> lower(s@[j]) == word@[j],
        decreases s@.len() - i,
    {
        if lower_char(s[i]) != word[i] {
            proof {
                assert(lower_seq(s@)[i as int] != word@[i as int]);
            }
            return false;
        }
        i = i + 1;
    }
    proof {
        assert(lower_seq(s@) =~= word@);
    }
    true
}

pub open spec fn kw_select() -> Seq<char> { seq!['s', 'e', 'l', 'e', 'c', 't'] }
pub open spec fn kw_from() -> Seq<char> { seq!['f', 'r', 'o', 'm'] }
pub open spec fn kw_where() -> Seq<char> { seq!['w', 'h', 'e', 'r', 'e'] }
pub open spec fn kw_group() -> Seq<char> { seq!['g', 'r', 'o', 'u', 'p'] }
pub open spec fn kw_order() -> Seq<char> { seq!['o', 'r', 'd', 'e', 'r'] }
pub open spec fn kw_by() -> Seq<char> { seq!['b', 'y'] }
pub open spec fn kw_asc() -> Seq<char> { seq!['a', 's', 'c'] }
pub open spec fn kw_desc() -> Seq<char> { seq!['d', 'e', 's', 'c'] }

/// The token that a scanned word stands for: a keyword (matched ignoring
/// case) or an identifier.
pub open spec fn word_token(w: Seq<char>) -> Tok {
    let l = lower_seq(w);
    if l == kw_select() {
        Tok::Select
    } else if l == kw_from() {
        Tok::From
    } else if l == kw_where() {
        Tok::Where
    } else if l == kw_group() {
        Tok::Group
    } else if l == kw_order() {
        Tok::Order
    } else if l == kw_by() {
        Tok::By
    } else if l == kw_asc() {
        Tok::Asc
    } else if l == kw_desc() {
        Tok::Desc
    } else {
        Tok::Identifier(w)
    }
}

/// The token for a scanned word.
pub fn keyword_or_identifier(w: &Vec<char>) -> (r: Token)
    ensures
        r@ == word_token(w@),
{
    if equal_folded(w, &vec!['s', 'e', 'l', 'e', 'c', 't']) {
        Token::Select
    } else if equal_folded(w, &vec!['f', 'r', 'o', 'm']) {
        Token::From
    } else if equal_folded(w, &vec!['w', 'h', 'e', 'r', 'e']) {
        Token::Where
    } else if equal_folded(w, &vec!['g', 'r', 'o', 'u', 'p']) {
        Token::Group
    } else if equal_folded(w, &vec!['o', 'r', 'd', 'e', 'r']) {
        Token::Order
    } else if equal_folded(w, &vec!['b', 'y']) {
        Token::By
    } else if equal_folded(w, &vec!['a', 's', 'c']) {
        Token::Asc
    } else if equal_folded(w, &vec!['d', 'e', 's', 'c']) {
        Token::Desc
    } else {
        Token::Identifier(string_of(w))
    }
}

} // verus!
