use vstd::prelude::*;
use crate::lexer::{is_hex_digit, token_views, Token, TokenView};
use crate::text::{chars_of, str_eq};

verus! {

broadcast use vstd::std_specs::vec::group_vec_axioms;

/// A node of the syntax tree.
#[derive(Debug, PartialEq)]
pub enum Statement {
    /// `reg R = 0x..;`: an immediate load into a register.
    MoveImmediate { register: String, value: String },
    /// `reg RP = malloc(0x..);`: an immediate load into a register pair.
    LoadImmediateExtended { register_pair: String, address: String },
    /// `name = 0x..;`: a value bound to a static variable.
    StaticAssignment { variable: String, value: String, is_16bit: bool },
    /// `R op B;`: an operator applied to a register and register B.
    BinaryOp { register: String, operator: BinaryOperator },
    /// `RP++;` or `RP--;`
    PointerIncDec { register_pair: String, is_increment: bool },
    /// `if (l cmp r) { body }`
    If { left: String, condition: Condition, right: String, body: Vec<Statement> },
}

#[derive(Debug, PartialEq, Eq, Structural, Clone, Copy)]
pub enum BinaryOperator {
    Add,
    Sub,
    And,
    Or,
    Xor,
}

#[derive(Debug, PartialEq, Eq, Structural, Clone, Copy)]
pub enum Condition {
    Greater,
    Less,
    Equal,
}

/// The mathematical value of a `Statement`.
pub enum StatementView {
    MoveImmediate { register: Seq<char>, value: Seq<char> },
    LoadImmediateExtended { register_pair: Seq<char>, address: Seq<char> },
    StaticAssignment { variable: Seq<char>, value: Seq<char>, is_16bit: bool },
    BinaryOp { register: Seq<char>, operator: BinaryOperator },
    PointerIncDec { register_pair: Seq<char>, is_increment: bool },
    If { left: Seq<char>, condition: Condition, right: Seq<char>, body: Seq<StatementView> },
}

impl View for Statement {
    type V = StatementView;

    open spec fn view(&self) -> StatementView
        decreases self,
    {
        match self {
            Statement::MoveImmediate { register, value } => StatementView::MoveImmediate {
                register: register@,
                value: value@,
            },
            Statement::LoadImmediateExtended { register_pair, address } =>
                StatementView::LoadImmediateExtended {
                register_pair: register_pair@,
                address: address@,
            },
            Statement::StaticAssignment { variable, value, is_16bit } =>
                StatementView::StaticAssignment {
                variable: variable@,
                value: value@,
                is_16bit: *is_16bit,
            },
            Statement::BinaryOp { register, operator } => StatementView::BinaryOp {
                register: register@,
                operator: *operator,
            },
            Statement::PointerIncDec { register_pair, is_increment } =>
                StatementView::PointerIncDec {
                register_pair: register_pair@,
                is_increment: *is_increment,
            },
            Statement::If { left, condition, right, body } => StatementView::If {
                left: left@,
                condition: *condition,
                right: right@,
                body: Seq::new(
                    body.len() as nat,
                    |k: int|
                        if 0 <= k < body.len() {
                            body[k].view()
                        } else {
                            StatementView::PointerIncDec {
                                register_pair: Seq::empty(),
                                is_increment: true,
                            }
                        },
                ),
            },
        }
    }
}

/// The views of a sequence of statements.
pub open spec fn statement_views(ss: Seq<Statement>) -> Seq<StatementView> {
    ss.map_values(|s: Statement| s@)
}

/// The body of an `if` views as the views of its statements.
pub proof fn lemma_body_view(s: &Statement)
    ensures
        s matches Statement::If { body, .. } ==> s@ matches StatementView::If { body: b, .. } && b
            == statement_views(body@),
{
    match s {
        Statement::If { body, .. } => {
            match s@ {
                StatementView::If { body: b, .. } => {
                    assert(b =~= statement_views(body@));
                },
                _ => {},
            }
        },
        _ => {},
    }
}

// ---- hexadecimal literals ----

pub open spec fn hex_digit_value(c: char) -> nat {
    if '0' <= c && c <= '9' {
        (c as nat - '0' as nat) as nat
    } else if 'a' <= c && c <= 'f' {
        (c as nat - 'a' as nat + 10) as nat
    } else if 'A' <= c && c <= 'F' {
        (c as nat - 'A' as nat + 10) as nat
    } else {
        0
    }
}

/// A literal's digits: its text without a leading `0x` or `0X`.
pub open spec fn hex_digits(lit: Seq<char>) -> Seq<char> {
    if lit.len() >= 2 && lit[0] == '0' && (lit[1] == 'x' || lit[1] == 'X') {
        lit.subrange(2, lit.len() as int)
    } else {
        lit
    }
}

/// The number that a sequence of hexadecimal digits denotes.
pub open spec fn hex_number(d: Seq<char>) -> nat
    decreases d.len(),
{
    if d.len() == 0 {
        0
    } else {
        hex_number(d.drop_last()) * 16 + hex_digit_value(d.last())
    }
}

pub open spec fn all_hex_digits(d: Seq<char>) -> bool {
    forall|k: int| 0 <= k < d.len() ==> is_hex_digit(#[trigger] d[k])
}

/// The numeric value of a literal; `None` when its digits are missing or not hexadecimal.
pub open spec fn literal_value(lit: Seq<char>) -> Option<nat> {
    let d = hex_digits(lit);
    if d.len() > 0 && all_hex_digits(d) {
        Some(hex_number(d))
    } else {
        None
    }
}

pub open spec fn width_max(is_16bit: bool) -> nat {
    if is_16bit {
        0xFFFF
    } else {
        0xFF
    }
}

/// Whether a literal is well formed and its value fits 8 bits (16 with `is_16bit`).
pub open spec fn literal_fits(lit: Seq<char>, is_16bit: bool) -> bool {
    match literal_value(lit) {
        Some(v) => v <= width_max(is_16bit),
        None => false,
    }
}

/// Whether a literal's value needs 16 bits; an unreadable literal counts as 8-bit.
pub open spec fn literal_is_16bit(lit: Seq<char>) -> bool {
    match literal_value(lit) {
        Some(v) => v > 0xFF,
        None => false,
    }
}

pub open spec fn is_register_pair(r: Seq<char>) -> bool {
    r == "HL"@ || r == "BC"@ || r == "DE"@ || r == "SP"@
}

proof fn lemma_hex_number_push(d: Seq<char>, c: char)
    ensures
        hex_number(d.push(c)) == hex_number(d) * 16 + hex_digit_value(c),
{
    assert(d.push(c).drop_last() == d);
}

/// The value of a literal, capped at 0x10000; `None` when it is not a hexadecimal literal.
fn literal_value_capped(lit: &str) -> (r: Option<u32>)
    ensures
        match r {
            Some(v) => literal_value(lit@) is Some && v as nat == (if literal_value(lit@)->0 < 0x10000 {
                literal_value(lit@)->0
            } else {
                0x10000
            }),
            None => literal_value(lit@) is None,
        },
{
    let s = chars_of(lit);
    let n = s.len();
    let start: usize = if n >= 2 && s[0] == '0' && (s[1] == 'x' || s[1] == 'X') {
        2
    } else {
        0
    };
    let ghost d = hex_digits(lit@);
    assert(d == s@.subrange(start as int, n as int));
    if start == n {
        return None;
    }
    let mut acc: u32 = 0;
    let mut k: usize = start;
    while k < n
        invariant
            s@ == lit@,
            n == s@.len(),
            start <= k <= n,
            d == s@.subrange(start as int, n as int),
            d == hex_digits(lit@),
            forall|m: int| start <= m < k ==> is_hex_digit(#[trigger] s@[m]),
            acc as nat == (if hex_number(s@.subrange(start as int, k as int)) < 0x10000 {
                hex_number(s@.subrange(start as int, k as int))
            } else {
                0x10000
            }),
        decreases n - k,
    {
        let c = s[k];
        if !(('0' <= c && c <= '9') || ('a' <= c && c <= 'f') || ('A' <= c && c <= 'F')) {
            assert(d[k - start] == c);
            assert(!is_hex_digit(d[k - start]));
            assert(!all_hex_digits(d));
            return None;
        }
        let dv: u32 = if '0' <= c && c <= '9' {
            (c as u32) - ('0' as u32)
        } else if 'a' <= c && c <= 'f' {
            (c as u32) - ('a' as u32) + 10
        } else {
            (c as u32) - ('A' as u32) + 10
        };
        proof {
            let p = s@.subrange(start as int, k as int);
            lemma_hex_number_push(p, c);
            assert(s@.subrange(start as int, k + 1) == p.push(c));
            assert(dv as nat == hex_digit_value(c));
            assert(dv < 16);
            if hex_number(p) >= 0x10000 {
                assert(hex_number(p) * 16 + dv >= 0x10000) by (nonlinear_arith)
                    requires
                        hex_number(p) >= 0x10000,
                ;
            }
        }
        if acc < 0x10000 {
            acc = acc * 16 + dv;
            if acc > 0x10000 {
                acc = 0x10000;
            }
        }
        k = k + 1;
    }
    assert forall|m: int| 0 <= m < d.len() implies is_hex_digit(#[trigger] d[m]) by {
        assert(d[m] == s@[m + start]);
    }
    assert(s@.subrange(start as int, n as int) == d);
    assert(all_hex_digits(d));
    Some(acc)
}

/// Checks that a literal is hexadecimal and fits 8 bits, or 16 with `expected_16bit`;
/// an error message ends with the literal.
fn validate_hex(value: &str, expected_16bit: bool) -> (r: Result<(), String>)
    ensures
        r is Ok <==> literal_fits(value@, expected_16bit),
        r matches Err(m) ==> ends_with(m@, value@),
{
    match literal_value_capped(value) {
        None => Err(naming("Invalid hex literal: ", value)),
        Some(v) => {
            if expected_16bit {
                if v > 0xFFFF {
                    return Err(naming("16-bit value exceeds maximum (0xFFFF): ", value));
                }
            } else {
                if v > 0xFF {
                    return Err(naming("8-bit value exceeds maximum (0xFF): ", value));
                }
            }
            Ok(())
        },
    }
}

/// Whether a register name denotes one of the register pairs.
fn is_16bit_register(reg: &str) -> (r: bool)
    ensures
        r == is_register_pair(reg@),
{
    str_eq(reg, "HL") || str_eq(reg, "BC") || str_eq(reg, "DE") || str_eq(reg, "SP")
}

/// Whether a literal's value needs 16 bits.
fn is_16bit_value(value: &str) -> (r: bool)
    ensures
        r == literal_is_16bit(value@),
{
    match literal_value_capped(value) {
        Some(v) => v > 0xFF,
        None => false,
    }
}

// ---- grammar ----

/// The token at position `i`, if there is one.
pub open spec fn at(t: Seq<TokenView>, i: int) -> Option<TokenView> {
    if 0 <= i < t.len() {
        Some(t[i])
    } else {
        None
    }
}

pub open spec fn binary_operator(t: Option<TokenView>) -> Option<BinaryOperator> {
    match t {
        Some(TokenView::Plus) => Some(BinaryOperator::Add),
        Some(TokenView::Minus) => Some(BinaryOperator::Sub),
        Some(TokenView::And) => Some(BinaryOperator::And),
        Some(TokenView::Or) => Some(BinaryOperator::Or),
        Some(TokenView::Xor) => Some(BinaryOperator::Xor),
        _ => None,
    }
}

pub open spec fn comparison(t: Option<TokenView>) -> Option<Condition> {
    match t {
        Some(TokenView::Greater) => Some(Condition::Greater),
        Some(TokenView::Less) => Some(Condition::Less),
        Some(TokenView::EqualEqual) => Some(Condition::Equal),
        _ => None,
    }
}

/// `reg R = 0x..` or `reg RP = malloc(0x..)` at `i`, up to its semicolon.
pub open spec fn reg_statement(t: Seq<TokenView>, i: int) -> Result<(StatementView, int), ()> {
    match at(t, i + 1) {
        Some(TokenView::Identifier(r)) => if at(t, i + 2) != Some(TokenView::Equal) {
            Err(())
        } else {
            match at(t, i + 3) {
                Some(TokenView::HexLiteral(v)) => if !is_register_pair(r) && literal_fits(v, false) {
                    Ok((StatementView::MoveImmediate { register: r, value: v }, i + 4))
                } else {
                    Err(())
                },
                Some(TokenView::Malloc) => match at(t, i + 5) {
                    Some(TokenView::HexLiteral(a)) => if is_register_pair(r) && literal_fits(a, true)
                        && at(t, i + 4) == Some(TokenView::LParen) && at(t, i + 6) == Some(
                        TokenView::RParen,
                    ) {
                        Ok((StatementView::LoadImmediateExtended { register_pair: r, address: a }, i + 7))
                    } else {
                        Err(())
                    },
                    _ => Err(()),
                },
                _ => Err(()),
            }
        },
        _ => Err(()),
    }
}

/// A statement that starts with a name at `i`, up to its semicolon.
pub open spec fn name_statement(t: Seq<TokenView>, i: int) -> Result<(StatementView, int), ()> {
    match at(t, i) {
        Some(TokenView::Identifier(name)) => match at(t, i + 1) {
            Some(TokenView::Equal) => match at(t, i + 2) {
                Some(TokenView::HexLiteral(v)) => if literal_fits(v, literal_is_16bit(v)) {
                    Ok(
                        (
                            StatementView::StaticAssignment {
                                variable: name,
                                value: v,
                                is_16bit: literal_is_16bit(v),
                            },
                            i + 3,
                        ),
                    )
                } else {
                    Err(())
                },
                _ => Err(()),
            },
            Some(TokenView::PlusPlus) => if is_register_pair(name) {
                Ok((StatementView::PointerIncDec { register_pair: name, is_increment: true }, i + 2))
            } else {
                Err(())
            },
            Some(TokenView::MinusMinus) => if is_register_pair(name) {
                Ok((StatementView::PointerIncDec { register_pair: name, is_increment: false }, i + 2))
            } else {
                Err(())
            },
            other => match binary_operator(other) {
                Some(op) => if at(t, i + 2) == Some(TokenView::Identifier("B"@)) {
                    Ok((StatementView::BinaryOp { register: name, operator: op }, i + 3))
                } else {
                    Err(())
                },
                None => Err(()),
            },
        },
        _ => Err(()),
    }
}

/// A statement parsed up to position `j`, followed by the semicolon at `j`.
pub open spec fn with_semicolon(t: Seq<TokenView>, r: Result<(StatementView, int), ()>) -> Result<
    (StatementView, int),
    (),
> {
    match r {
        Ok((s, j)) => if at(t, j) == Some(TokenView::Semicolon) {
            Ok((s, j + 1))
        } else {
            Err(())
        },
        Err(_) => Err(()),
    }
}

/// The statement at position `i` and the position after it.
pub open spec fn statement_at(t: Seq<TokenView>, i: int) -> Result<(StatementView, int), ()>
    decreases t.len() - i, 0nat,
{
    match at(t, i) {
        Some(TokenView::Reg) => with_semicolon(t, reg_statement(t, i)),
        Some(TokenView::Identifier(_)) => with_semicolon(t, name_statement(t, i)),
        Some(TokenView::If) => match (at(t, i + 2), comparison(at(t, i + 3)), at(t, i + 4)) {
            (Some(TokenView::Identifier(l)), Some(cond), Some(TokenView::Identifier(r))) => if at(
                t,
                i + 1,
            ) == Some(TokenView::LParen) && at(t, i + 5) == Some(TokenView::RParen) && at(t, i + 6)
                == Some(TokenView::LBrace) && i + 7 <= t.len() {
                match block_at(t, i + 7) {
                    Ok((body, k)) => if at(t, k) == Some(TokenView::RBrace) {
                        Ok(
                            (
                                StatementView::If { left: l, condition: cond, right: r, body },
                                k + 1,
                            ),
                        )
                    } else {
                        Err(())
                    },
                    Err(_) => Err(()),
                }
            } else {
                Err(())
            },
            _ => Err(()),
        },
        _ => Err(()),
    }
}

/// The statements from position `i` up to a closing brace or the end of input,
/// and the position where they stop.
pub open spec fn block_at(t: Seq<TokenView>, i: int) -> Result<(Seq<StatementView>, int), ()>
    decreases t.len() - i, 1nat,
{
    if i < 0 {
        Err(())
    } else if i >= t.len() || t[i] is RBrace {
        Ok((Seq::empty(), i))
    } else {
        match statement_at(t, i) {
            Ok((s, j)) => if j <= i || j > t.len() {
                Err(())
            } else {
                match block_at(t, j) {
                    Ok((ss, k)) => Ok((seq![s] + ss, k)),
                    Err(_) => Err(()),
                }
            },
            Err(_) => Err(()),
        }
    }
}

/// A whole program: `main {`, its statements, and the closing `}` as the last token.
pub open spec fn parse_spec(t: Seq<TokenView>) -> Result<Seq<StatementView>, ()> {
    if at(t, 0) == Some(TokenView::Main) && at(t, 1) == Some(TokenView::LBrace) {
        match block_at(t, 2) {
            Ok((ss, k)) => if at(t, k) == Some(TokenView::RBrace) && k + 1 == t.len() {
                Ok(ss)
            } else {
                Err(())
            },
            Err(_) => Err(()),
        }
    } else {
        Err(())
    }
}

/// A literal that parsing accepts fits its context: 8 bits where it is loaded
/// into a register (never a register pair, which takes a literal only as a
/// `malloc` address), 16 bits as a `malloc` address; a static variable is
/// 16-bit exactly when its value exceeds 0xFF. So a literal over its bound, or a
/// literal loaded directly into a register pair, makes the statement an error.
pub proof fn lemma_parsed_literals_fit(t: Seq<TokenView>, i: int)
    ensures
        match statement_at(t, i) {
            Ok((StatementView::MoveImmediate { register, value }, _)) => !is_register_pair(register)
                && literal_fits(value, false),
            Ok((StatementView::LoadImmediateExtended { register_pair, address }, _)) =>
                is_register_pair(register_pair) && literal_fits(address, true),
            Ok((StatementView::StaticAssignment { value, is_16bit, .. }, _)) => literal_fits(
                value,
                true,
            ) && is_16bit == (literal_value(value)->0 > 0xFF),
            _ => true,
        },
{
}

/// Statements parsed so far, in front of the result of parsing the rest.
pub open spec fn after(
    done: Seq<StatementView>,
    rest: Result<(Seq<StatementView>, int), ()>,
) -> Result<(Seq<StatementView>, int), ()> {
    match rest {
        Ok((ss, k)) => Ok((done + ss, k)),
        Err(_) => Err(()),
    }
}

fn token_at(tokens: &[Token], i: usize, k: usize) -> (r: Option<&Token>)
    ensures
        token_views(tokens@).len() == tokens@.len(),
        r is Some ==> i + k < tokens@.len(),
        match r {
            Some(t) => at(token_views(tokens@), i + k) == Some(t@),
            None => at(token_views(tokens@), i + k) is None,
        },
{
    if k < tokens.len() && i < tokens.len() - k {
        Some(&tokens[i + k])
    } else {
        None
    }
}

fn parse_reg(tokens: &[Token], i: usize) -> (r: Result<(Statement, usize), String>)
    requires
        i < tokens@.len(),
    ensures
        match r {
            Ok((s, j)) => j <= tokens@.len() && reg_statement(token_views(tokens@), i as int) == Ok::<
                (StatementView, int),
                (),
            >((s@, j as int)),
            Err(_) => reg_statement(token_views(tokens@), i as int) is Err,
        },
{
    let n = tokens.len();
    let register = match token_at(tokens, i, 1) {
        Some(Token::Identifier(name)) => name.clone(),
        _ => {
            return Err("Expected a register name after 'reg'.".to_string());
        },
    };
    if !matches!(token_at(tokens, i, 2), Some(Token::Equal)) {
        return Err("Expected '=' after register name.".to_string());
    }
    match token_at(tokens, i, 3) {
        Some(Token::HexLiteral(value)) => {
            if is_16bit_register(register.as_str()) {
                return Err(naming(
                    "A 16-bit register pair takes a literal only through malloc(), got ",
                    register.as_str(),
                ));
            }
            if let Err(e) = validate_hex(value.as_str(), false) {
                return Err(e);
            }
            Ok((Statement::MoveImmediate { register, value: value.clone() }, i + 4))
        },
        Some(Token::Malloc) => {
            if !is_16bit_register(register.as_str()) {
                return Err(naming("malloc() requires a 16-bit register pair, got ", register.as_str()));
            }
            let address = match token_at(tokens, i, 5) {
                Some(Token::HexLiteral(a)) => a.clone(),
                _ => {
                    return Err("Expected a hex address inside malloc().".to_string());
                },
            };
            if let Err(e) = validate_hex(address.as_str(), true) {
                return Err(e);
            }
            if !matches!(token_at(tokens, i, 4), Some(Token::LParen)) || !matches!(
                token_at(tokens, i, 6),
                Some(Token::RParen)
            ) {
                return Err("Malformed malloc() call. Expected malloc(ADDRESS).".to_string());
            }
            Ok((Statement::LoadImmediateExtended { register_pair: register, address }, i + 7))
        },
        _ => Err("Invalid expression after '='.".to_string()),
    }
}

/// Whether `m` ends with `x`.
pub open spec fn ends_with(m: Seq<char>, x: Seq<char>) -> bool {
    m.len() >= x.len() && m.subrange(m.len() - x.len(), m.len() as int) == x
}

/// An error message that ends with the offending text.
fn naming(message: &str, what: &str) -> (r: String)
    ensures
        r@ == message@ + what@,
        ends_with(r@, what@),
{
    let mut m = String::new();
    m.append(message);
    m.append(what);
    assert((message@ + what@).subrange(message@.len() as int, (message@ + what@).len() as int) =~= what@);
    m
}

fn parse_name(tokens: &[Token], i: usize) -> (r: Result<(Statement, usize), String>)
    requires
        i < tokens@.len(),
        tokens@[i as int] is Identifier,
    ensures
        match r {
            Ok((s, j)) => j <= tokens@.len() && name_statement(token_views(tokens@), i as int) == Ok::<
                (StatementView, int),
                (),
            >((s@, j as int)),
            Err(_) => name_statement(token_views(tokens@), i as int) is Err,
        },
{
    let identifier = match &tokens[i] {
        Token::Identifier(name) => name.clone(),
        _ => {
            return Err("Expected a name.".to_string());
        },
    };
    proof {
        assert(at(token_views(tokens@), i as int) == Some(TokenView::Identifier(identifier@)));
    }
    let next = token_at(tokens, i, 1);
    let operator = match next {
        Some(Token::Equal) => {
            let value = match token_at(tokens, i, 2) {
                Some(Token::HexLiteral(v)) => v.clone(),
                _ => {
                    return Err(naming("Expected hex value after '=' for variable ", identifier.as_str()));
                },
            };
            let is_16bit = is_16bit_value(value.as_str());
            if let Err(e) = validate_hex(value.as_str(), is_16bit) {
                return Err(e);
            }
            return Ok((Statement::StaticAssignment { variable: identifier, value, is_16bit }, i + 3));
        },
        Some(Token::PlusPlus) | Some(Token::MinusMinus) => {
            if !is_16bit_register(identifier.as_str()) {
                return Err(naming("Increment/decrement requires a 16-bit register pair, got ", identifier.as_str()));
            }
            let is_increment = matches!(next, Some(Token::PlusPlus));
            return Ok((Statement::PointerIncDec { register_pair: identifier, is_increment }, i + 2));
        },
        Some(Token::Plus) => BinaryOperator::Add,
        Some(Token::Minus) => BinaryOperator::Sub,
        Some(Token::And) => BinaryOperator::And,
        Some(Token::Or) => BinaryOperator::Or,
        Some(Token::Xor) => BinaryOperator::Xor,
        _ => {
            return Err(naming("Unexpected token after identifier ", identifier.as_str()));
        },
    };
    let second_is_b = match token_at(tokens, i, 2) {
        Some(Token::Identifier(b)) => str_eq(b.as_str(), "B"),
        _ => false,
    };
    if !second_is_b {
        return Err("Second operand must be register B.".to_string());
    }
    Ok((Statement::BinaryOp { register: identifier, operator }, i + 3))
}

fn is_closing_brace(tokens: &[Token], i: usize) -> (r: bool)
    requires
        i < tokens@.len(),
    ensures
        r == (tokens@[i as int] is RBrace),
{
    matches!(tokens[i], Token::RBrace)
}

/// The statement at position `i`, and the position after it.
fn parse_statement(tokens: &[Token], i: usize) -> (r: Result<(Statement, usize), String>)
    requires
        i < tokens@.len(),
    ensures
        match r {
            Ok((s, j)) => i < j <= tokens@.len() && statement_at(token_views(tokens@), i as int)
                == Ok::<(StatementView, int), ()>((s@, j as int)),
            Err(_) => statement_at(token_views(tokens@), i as int) is Err,
        },
    decreases tokens@.len() - i, 0nat,
{
    let ghost t = token_views(tokens@);
    match &tokens[i] {
        Token::Reg => {
            let (s, j) = match parse_reg(tokens, i) {
                Ok(p) => p,
                Err(e) => {
                    return Err(e);
                },
            };
            if !matches!(token_at(tokens, j, 0), Some(Token::Semicolon)) {
                return Err("Expected ';' at the end of the statement.".to_string());
            }
            Ok((s, j + 1))
        },
        Token::Identifier(_) => {
            let (s, j) = match parse_name(tokens, i) {
                Ok(p) => p,
                Err(e) => {
                    return Err(e);
                },
            };
            if !matches!(token_at(tokens, j, 0), Some(Token::Semicolon)) {
                return Err("Expected ';' at the end of the statement.".to_string());
            }
            Ok((s, j + 1))
        },
        Token::If => {
            if !matches!(token_at(tokens, i, 1), Some(Token::LParen)) {
                return Err("Expected '(' after 'if'.".to_string());
            }
            let left = match token_at(tokens, i, 2) {
                Some(Token::Identifier(name)) => name.clone(),
                _ => {
                    return Err("Expected register or variable name in condition.".to_string());
                },
            };
            let condition = match token_at(tokens, i, 3) {
                Some(Token::Greater) => Condition::Greater,
                Some(Token::Less) => Condition::Less,
                Some(Token::EqualEqual) => Condition::Equal,
                _ => {
                    return Err("Expected condition: '>', '<', or '=='.".to_string());
                },
            };
            let right = match token_at(tokens, i, 4) {
                Some(Token::Identifier(name)) => name.clone(),
                _ => {
                    return Err("Expected register or variable name in condition.".to_string());
                },
            };
            if !matches!(token_at(tokens, i, 5), Some(Token::RParen)) {
                return Err("Expected ')' after condition.".to_string());
            }
            if !matches!(token_at(tokens, i, 6), Some(Token::LBrace)) {
                return Err("Expected '{' after condition.".to_string());
            }
            let mut k: usize = i + 7;
            let mut body: Vec<Statement> = Vec::new();
            match parse_block(tokens, &mut k, &mut body) {
                Ok(()) => {},
                Err(e) => {
                    return Err(e);
                },
            }
            if !matches!(token_at(tokens, k, 0), Some(Token::RBrace)) {
                return Err("Expected '}' to close if block.".to_string());
            }
            let st = Statement::If { left, condition, right, body };
            proof {
                assert(statement_views(body@) == Seq::<StatementView>::empty() + statement_views(
                    body@,
                ));
                assert(st@ matches StatementView::If { body: b, .. } && b == statement_views(body@));
            }
            Ok((st, k + 1))
        },
        _ => Err("Expected statement.".to_string()),
    }
}

/// Parses statements from position `*i` up to a closing brace (left unread) or
/// the end of input, appending them to `statements`.
fn parse_block(tokens: &[Token], i: &mut usize, statements: &mut Vec<Statement>) -> (r: Result<
    (),
    String,
>)
    requires
        *old(i) <= tokens@.len(),
    ensures
        r is Ok ==> *old(i) <= *final(i) <= tokens@.len(),
        match block_at(token_views(tokens@), *old(i) as int) {
            Ok((ss, k)) => r is Ok && *final(i) == k && statement_views(final(statements)@)
                == statement_views(old(statements)@) + ss,
            Err(_) => r is Err,
        },
    decreases tokens@.len() - *old(i), 1nat,
{
    let ghost t = token_views(tokens@);
    let ghost i0 = *i as int;
    let ghost base = statement_views(statements@);
    while *i < tokens.len() && !is_closing_brace(tokens, *i)
        invariant
            t == token_views(tokens@),
            i0 <= *i <= tokens@.len(),
            i0 == *old(i) as int,
            base == statement_views(old(statements)@),
            after(base, block_at(t, i0)) == after(statement_views(statements@), block_at(t, *i as int)),
        decreases tokens@.len() - *i,
    {
        let (s, j) = match parse_statement(tokens, *i) {
            Ok(p) => p,
            Err(e) => {
                return Err(e);
            },
        };
        let ghost before = statement_views(statements@);
        statements.push(s);
        proof {
            assert(statement_views(statements@) == before + seq![s@]);
            match block_at(t, j as int) {
                Ok((ss, k)) => {
                    assert(before + (seq![s@] + ss) == (before + seq![s@]) + ss);
                },
                Err(_) => {},
            }
        }
        *i = j;
    }
    proof {
        assert(statement_views(statements@) + Seq::<StatementView>::empty() == statement_views(statements@));
        match block_at(t, i0) {
            Ok((ss, k)) => {},
            Err(_) => {},
        }
    }
    Ok(())
}

/// Parses a whole program, `main { ... }`, into its statements.
pub fn parse(tokens: &[Token]) -> (r: Result<Vec<Statement>, String>)
    ensures
        match r {
            Ok(ss) => parse_spec(token_views(tokens@)) == Ok::<Seq<StatementView>, ()>(statement_views(ss@)),
            Err(_) => parse_spec(token_views(tokens@)) is Err,
        },
{
    if !matches!(token_at(tokens, 0, 0), Some(Token::Main)) || !matches!(token_at(tokens, 0, 1), Some(Token::LBrace)) {
        return Err("Expected 'main{' at the beginning of the file.".to_string());
    }
    let n = tokens.len();
    let mut statements: Vec<Statement> = Vec::new();
    let mut i: usize = 2;
    match parse_block(tokens, &mut i, &mut statements) {
        Ok(()) => {},
        Err(e) => {
            return Err(e);
        },
    }
    proof {
        assert(statement_views(statements@) == Seq::<StatementView>::empty() + statement_views(statements@));
    }
    if !matches!(token_at(tokens, i, 0), Some(Token::RBrace)) {
        return Err("Expected '}' to close 'main'.".to_string());
    }
    if i + 1 != n {
        return Err("Unexpected tokens after the closing '}' of 'main'.".to_string());
    }
    Ok(statements)
}

} // verus!
