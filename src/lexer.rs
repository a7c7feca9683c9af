use vstd::prelude::*;
use crate::text::{chars_of, push_char, str_eq, string_of_range};

verus! {

/// One lexical unit of the source language.
#[derive(Debug, PartialEq, Clone)]
pub enum Token {
    Main,
    Reg,
    Malloc,
    If,
    LBrace,
    RBrace,
    LParen,
    RParen,
    Equal,
    Semicolon,
    Plus,
    Minus,
    And,
    Or,
    Xor,
    PlusPlus,
    MinusMinus,
    Greater,
    Less,
    EqualEqual,
    /// A register or variable name.
    Identifier(String),
    /// A hexadecimal literal, kept as written after a `0x` prefix.
    HexLiteral(String),
}

/// The mathematical value of a `Token`: its text fields as character sequences.
pub enum TokenView {
    Main,
    Reg,
    Malloc,
    If,
    LBrace,
    RBrace,
    LParen,
    RParen,
    Equal,
    Semicolon,
    Plus,
    Minus,
    And,
    Or,
    Xor,
    PlusPlus,
    MinusMinus,
    Greater,
    Less,
    EqualEqual,
    Identifier(Seq<char>),
    HexLiteral(Seq<char>),
}

impl View for Token {
    type V = TokenView;

    open spec fn view(&self) -> TokenView {
        match self {
            Token::Main => TokenView::Main,
            Token::Reg => TokenView::Reg,
            Token::Malloc => TokenView::Malloc,
            Token::If => TokenView::If,
            Token::LBrace => TokenView::LBrace,
            Token::RBrace => TokenView::RBrace,
            Token::LParen => TokenView::LParen,
            Token::RParen => TokenView::RParen,
            Token::Equal => TokenView::Equal,
            Token::Semicolon => TokenView::Semicolon,
            Token::Plus => TokenView::Plus,
            Token::Minus => TokenView::Minus,
            Token::And => TokenView::And,
            Token::Or => TokenView::Or,
            Token::Xor => TokenView::Xor,
            Token::PlusPlus => TokenView::PlusPlus,
            Token::MinusMinus => TokenView::MinusMinus,
            Token::Greater => TokenView::Greater,
            Token::Less => TokenView::Less,
            Token::EqualEqual => TokenView::EqualEqual,
            Token::Identifier(s) => TokenView::Identifier(s@),
            Token::HexLiteral(s) => TokenView::HexLiteral(s@),
        }
    }
}

/// The views of a sequence of tokens.
pub open spec fn token_views(ts: Seq<Token>) -> Seq<TokenView> {
    ts.map_values(|t: Token| t@)
}

/// What `char::is_alphanumeric` answers for a character.
pub uninterp spec fn unicode_alphanumeric(c: char) -> bool;

/// Relies on char::is_alphanumeric: whether the character has Unicode's
/// Alphabetic or Numeric property; the answer depends on the character alone.
/// Among ASCII characters exactly the letters and the digits have it.
#[verifier::external_body]
fn is_alphanumeric(c: char) -> (r: bool)
    ensures
        r == unicode_alphanumeric(c),
        (c as u32) < 128 ==> (r <==> (is_ascii_letter(c) || ('0' <= c && c <= '9'))),
{
    c.is_alphanumeric()
}

pub open spec fn is_space(c: char) -> bool {
    c == ' ' || c == '\t' || c == '\r' || c == '\n'
}

pub open spec fn is_ascii_letter(c: char) -> bool {
    ('a' <= c && c <= 'z') || ('A' <= c && c <= 'Z')
}

pub open spec fn is_hex_digit(c: char) -> bool {
    ('0' <= c && c <= '9') || ('a' <= c && c <= 'f') || ('A' <= c && c <= 'F')
}

/// End of the run of alphanumeric characters that starts at `i`.
pub open spec fn word_end(s: Seq<char>, i: int) -> int
    decreases s.len() - i,
{
    if 0 <= i < s.len() && unicode_alphanumeric(s[i]) {
        word_end(s, i + 1)
    } else {
        i
    }
}

/// End of the run of hexadecimal digits that starts at `i`.
pub open spec fn hex_end(s: Seq<char>, i: int) -> int
    decreases s.len() - i,
{
    if 0 <= i < s.len() && is_hex_digit(s[i]) {
        hex_end(s, i + 1)
    } else {
        i
    }
}

/// Where a line comment whose text starts at `i` ends: past its newline, or at the end of input.
pub open spec fn comment_end(s: Seq<char>, i: int) -> int
    decreases s.len() - i,
{
    if i < 0 || i >= s.len() {
        i
    } else if s[i] == '\n' {
        i + 1
    } else {
        comment_end(s, i + 1)
    }
}

pub open spec fn word_token(w: Seq<char>) -> TokenView {
    if w == "main"@ {
        TokenView::Main
    } else if w == "reg"@ {
        TokenView::Reg
    } else if w == "malloc"@ {
        TokenView::Malloc
    } else if w == "if"@ {
        TokenView::If
    } else {
        TokenView::Identifier(w)
    }
}

pub open spec fn single_char_token(c: char) -> Option<TokenView> {
    if c == '{' {
        Some(TokenView::LBrace)
    } else if c == '}' {
        Some(TokenView::RBrace)
    } else if c == '(' {
        Some(TokenView::LParen)
    } else if c == ')' {
        Some(TokenView::RParen)
    } else if c == ';' {
        Some(TokenView::Semicolon)
    } else if c == '&' {
        Some(TokenView::And)
    } else if c == '|' {
        Some(TokenView::Or)
    } else if c == '^' {
        Some(TokenView::Xor)
    } else if c == '>' {
        Some(TokenView::Greater)
    } else if c == '<' {
        Some(TokenView::Less)
    } else {
        None
    }
}

/// The message for a character that starts no token.
pub open spec fn unexpected_message(c: char) -> Seq<char> {
    "Unexpected character: "@.push(c)
}

/// The message for a `0x` prefix with no digits after it.
pub open spec fn missing_digits_message() -> Seq<char> {
    "Invalid hex literal: '0x'. Expected digits after 0x."@
}

/// The message for a number written without the `0x` prefix.
pub open spec fn number_message(c: char) -> Seq<char> {
    "Invalid number literal starting with '"@.push(c) + "'. Use 0x prefix for hex values."@
}

/// One step of the lexer at position `i` (with `i < s.len()`): the token it
/// produces, if any, and the position after it; `Err` with its message on a
/// lexical error.
pub open spec fn scan(s: Seq<char>, i: int) -> Result<(Option<TokenView>, int), Seq<char>> {
    let c = s[i];
    let next_is = |d: char| i + 1 < s.len() && s[i + 1] == d;
    if is_space(c) {
        Ok((None, i + 1))
    } else if single_char_token(c) is Some {
        Ok((single_char_token(c), i + 1))
    } else if c == '=' {
        if next_is('=') {
            Ok((Some(TokenView::EqualEqual), i + 2))
        } else {
            Ok((Some(TokenView::Equal), i + 1))
        }
    } else if c == '+' {
        if next_is('+') {
            Ok((Some(TokenView::PlusPlus), i + 2))
        } else {
            Ok((Some(TokenView::Plus), i + 1))
        }
    } else if c == '-' {
        if next_is('-') {
            Ok((Some(TokenView::MinusMinus), i + 2))
        } else {
            Ok((Some(TokenView::Minus), i + 1))
        }
    } else if c == '/' {
        if next_is('/') {
            Ok((None, comment_end(s, i + 2)))
        } else {
            Err(unexpected_message(c))
        }
    } else if is_ascii_letter(c) {
        let j = word_end(s, i + 1);
        Ok((Some(word_token(s.subrange(i, j))), j))
    } else if c == '0' && (next_is('x') || next_is('X')) && hex_end(s, i + 2) > i + 2 {
        let j = hex_end(s, i + 2);
        Ok((Some(TokenView::HexLiteral(seq!['0', 'x'] + s.subrange(i + 2, j))), j))
    } else if c == '0' && (next_is('x') || next_is('X')) {
        Err(missing_digits_message())
    } else if '0' <= c && c <= '9' {
        Err(number_message(c))
    } else {
        Err(unexpected_message(c))
    }
}

/// The tokens of `s` from position `i` on; `Err` with the message of the first
/// lexical error, if one comes.
pub open spec fn lex_from(s: Seq<char>, i: int) -> Result<Seq<TokenView>, Seq<char>>
    decreases s.len() - i,
{
    if i < 0 || i >= s.len() {
        Ok(Seq::empty())
    } else {
        match scan(s, i) {
            Err(e) => Err(e),
            Ok((t, j)) => if j <= i || j > s.len() {
                Err(Seq::empty())
            } else {
                match lex_from(s, j) {
                    Err(e) => Err(e),
                    Ok(rest) => match t {
                        Some(tok) => Ok(seq![tok] + rest),
                        None => Ok(rest),
                    },
                }
            },
        }
    }
}

/// The token sequence of a whole source text.
pub open spec fn lex_spec(s: Seq<char>) -> Result<Seq<TokenView>, Seq<char>> {
    lex_from(s, 0)
}


fn word_end_at(s: &Vec<char>, i: usize) -> (r: usize)
    requires
        i <= s@.len(),
    ensures
        r as int == word_end(s@, i as int),
        i <= r <= s@.len(),
{
    let mut k = i;
    while k < s.len() && is_alphanumeric(s[k])
        invariant
            i <= k <= s@.len(),
            word_end(s@, k as int) == word_end(s@, i as int),
        decreases s@.len() - k,
    {
        k = k + 1;
    }
    k
}

fn hex_end_at(s: &Vec<char>, i: usize) -> (r: usize)
    requires
        i <= s@.len(),
    ensures
        r as int == hex_end(s@, i as int),
        i <= r <= s@.len(),
{
    let mut k = i;
    while k < s.len() && is_hex_digit_char(s[k])
        invariant
            i <= k <= s@.len(),
            hex_end(s@, k as int) == hex_end(s@, i as int),
        decreases s@.len() - k,
    {
        k = k + 1;
    }
    k
}

fn comment_end_at(s: &Vec<char>, i: usize) -> (r: usize)
    requires
        i <= s@.len(),
    ensures
        r as int == comment_end(s@, i as int),
        i <= r <= s@.len(),
{
    let mut k = i;
    while k < s.len()
        invariant
            i <= k <= s@.len(),
            comment_end(s@, k as int) == comment_end(s@, i as int),
        decreases s@.len() - k,
    {
        if s[k] == '\n' {
            return k + 1;
        }
        k = k + 1;
    }
    k
}

fn is_hex_digit_char(c: char) -> (r: bool)
    ensures
        r == is_hex_digit(c),
{
    ('0' <= c && c <= '9') || ('a' <= c && c <= 'f') || ('A' <= c && c <= 'F')
}

fn single_char(c: char) -> (r: Option<Token>)
    ensures
        match r {
            Some(t) => single_char_token(c) == Some(t@),
            None => single_char_token(c) is None,
        },
{
    match c {
        '{' => Some(Token::LBrace),
        '}' => Some(Token::RBrace),
        '(' => Some(Token::LParen),
        ')' => Some(Token::RParen),
        ';' => Some(Token::Semicolon),
        '&' => Some(Token::And),
        '|' => Some(Token::Or),
        '^' => Some(Token::Xor),
        '>' => Some(Token::Greater),
        '<' => Some(Token::Less),
        _ => None,
    }
}

fn word_to_token(w: String) -> (r: Token)
    ensures
        r@ == word_token(w@),
{
    if str_eq(w.as_str(), "main") {
        Token::Main
    } else if str_eq(w.as_str(), "reg") {
        Token::Reg
    } else if str_eq(w.as_str(), "malloc") {
        Token::Malloc
    } else if str_eq(w.as_str(), "if") {
        Token::If
    } else {
        Token::Identifier(w)
    }
}

/// Reads one token, or skips blanks or a comment, at position `i` of `s`.
fn scan_at(s: &Vec<char>, i: usize) -> (r: Result<(Option<Token>, usize), String>)
    requires
        i < s@.len(),
    ensures
        match r {
            Ok((t, j)) => {
                &&& i < j <= s@.len()
                &&& scan(s@, i as int) == Ok::<(Option<TokenView>, int), Seq<char>>(
                    (match t {
                        Some(tok) => Some(tok@),
                        None => None,
                    }, j as int),
                )
            },
            Err(m) => scan(s@, i as int) == Err::<(Option<TokenView>, int), Seq<char>>(m@),
        },
{
    let c = s[i];
    let next: Option<char> = if i < s.len() - 1 {
        Some(s[i + 1])
    } else {
        None
    };
    if c == ' ' || c == '\t' || c == '\r' || c == '\n' {
        return Ok((None, i + 1));
    }
    match single_char(c) {
        Some(t) => {
            return Ok((Some(t), i + 1));
        },
        None => {},
    }
    if c == '=' {
        if next == Some('=') {
            Ok((Some(Token::EqualEqual), i + 2))
        } else {
            Ok((Some(Token::Equal), i + 1))
        }
    } else if c == '+' {
        if next == Some('+') {
            Ok((Some(Token::PlusPlus), i + 2))
        } else {
            Ok((Some(Token::Plus), i + 1))
        }
    } else if c == '-' {
        if next == Some('-') {
            Ok((Some(Token::MinusMinus), i + 2))
        } else {
            Ok((Some(Token::Minus), i + 1))
        }
    } else if c == '/' {
        if next == Some('/') {
            let j = comment_end_at(s, i + 2);
            Ok((None, j))
        } else {
            Err(unexpected_character(c))
        }
    } else if ('a' <= c && c <= 'z') || ('A' <= c && c <= 'Z') {
        let j = word_end_at(s, i + 1);
        let w = string_of_range(s, i, j);
        Ok((Some(word_to_token(w)), j))
    } else if c == '0' {
        if next == Some('x') || next == Some('X') {
            let j = hex_end_at(s, i + 2);
            if j == i + 2 {
                let mut m = String::new();
                m.append("Invalid hex literal: '0x'. Expected digits after 0x.");
                return Err(m);
            }
            let mut lit = "0x".to_string();
            let digits = string_of_range(s, i + 2, j);
            lit.append(digits.as_str());
            proof {
                reveal_strlit("0x");
                assert("0x"@ == seq!['0', 'x']);
            }
            Ok((Some(Token::HexLiteral(lit)), j))
        } else {
            Err(number_error(c))
        }
    } else if '1' <= c && c <= '9' {
        Err(number_error(c))
    } else {
        Err(unexpected_character(c))
    }
}

fn unexpected_character(c: char) -> (r: String)
    ensures
        r@ == unexpected_message(c),
{
    let mut m = String::new();
    m.append("Unexpected character: ");
    push_char(&mut m, c);
    m
}

fn number_error(c: char) -> (r: String)
    ensures
        r@ == number_message(c),
{
    let mut m = String::new();
    m.append("Invalid number literal starting with '");
    push_char(&mut m, c);
    m.append("'. Use 0x prefix for hex values.");
    m
}

/// Splits a source text into tokens, skipping blanks and `//` comments.
/// Fails at the first character that starts no token, with a message that
/// names it (or the malformed literal).
pub fn lex(source: &str) -> (r: Result<Vec<Token>, String>)
    ensures
        match r {
            Ok(ts) => lex_spec(source@) == Ok::<Seq<TokenView>, Seq<char>>(token_views(ts@)),
            Err(m) => lex_spec(source@) == Err::<Seq<TokenView>, Seq<char>>(m@),
        },
{
    let s = chars_of(source);
    let mut tokens: Vec<Token> = Vec::new();
    let mut i: usize = 0;
    while i < s.len()
        invariant
            s@ == source@,
            i <= s@.len(),
            lex_spec(s@) == match lex_from(s@, i as int) {
                Ok(rest) => Ok::<Seq<TokenView>, Seq<char>>(token_views(tokens@) + rest),
                Err(e) => Err(e),
            },
        decreases s@.len() - i,
    {
        let step = scan_at(&s, i);
        match step {
            Err(e) => {
                return Err(e);
            },
            Ok((t, j)) => {
                let ghost before = tokens@;
                match t {
                    Some(tok) => {
                        tokens.push(tok);
                        proof {
                            assert(token_views(tokens@) == token_views(before) + seq![tokens@.last()@]);
                            match lex_from(s@, j as int) {
                                Ok(rest) => {
                                    assert(token_views(tokens@) + rest == token_views(before) + (seq![tokens@.last()@] + rest));
                                },
                                Err(_) => {},
                            }
                        }
                    },
                    None => {},
                }
                i = j;
            },
        }
    }
    assert(token_views(tokens@) + Seq::<TokenView>::empty() == token_views(tokens@));
    Ok(tokens)
}

} // verus!
