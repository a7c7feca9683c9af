use c85c::codegen::{generate, within_limits};
use c85c::lexer::{lex, Token};
use c85c::parser::{parse, BinaryOperator, Condition, Statement};

fn compile(source: &str) -> Result<String, String> {
    let tokens = lex(source)?;
    let statements = parse(&tokens)?;
    Ok(generate(&statements))
}

fn ident(s: &str) -> Token {
    Token::Identifier(s.to_string())
}

fn hex(s: &str) -> Token {
    Token::HexLiteral(s.to_string())
}

#[test]
fn lexes_symbols_and_keywords() {
    let tokens = lex("main{ reg A = 0x0f; HL++; x-- ; if (A == B) {} } // done").unwrap();
    assert_eq!(
        tokens,
        vec![
            Token::Main,
            Token::LBrace,
            Token::Reg,
            ident("A"),
            Token::Equal,
            hex("0x0f"),
            Token::Semicolon,
            ident("HL"),
            Token::PlusPlus,
            Token::Semicolon,
            ident("x"),
            Token::MinusMinus,
            Token::Semicolon,
            Token::If,
            Token::LParen,
            ident("A"),
            Token::EqualEqual,
            ident("B"),
            Token::RParen,
            Token::LBrace,
            Token::RBrace,
            Token::RBrace,
        ]
    );
}

#[test]
fn lexes_operators_and_upper_case_prefix() {
    let tokens = lex("+ - & | ^ > < = 0XaB").unwrap();
    assert_eq!(
        tokens,
        vec![
            Token::Plus,
            Token::Minus,
            Token::And,
            Token::Or,
            Token::Xor,
            Token::Greater,
            Token::Less,
            Token::Equal,
            hex("0xaB"),
        ]
    );
}

#[test]
fn comment_runs_to_end_of_line() {
    let tokens = lex("// reg A\nmain").unwrap();
    assert_eq!(tokens, vec![Token::Main]);
}

#[test]
fn lexer_rejects_bad_input() {
    assert!(lex("a / b").is_err());
    assert!(lex("reg A = 12;").is_err());
    assert!(lex("reg A = 0;").is_err());
    assert!(lex("reg A = #;").is_err());
}

#[test]
fn unterminated_literal_is_a_lexical_error() {
    let r = lex("main{ reg A = 0x; }");
    assert!(r.is_err());
    assert!(r.unwrap_err().contains("Invalid hex literal"));
}

#[test]
fn round_trip_scenario() {
    let text = compile("main{ reg A = 0x08; counter = 0x06; if(A > counter){ A + B; } }").unwrap();
    assert_eq!(
        text,
        "MVI A,08H;\nMVI A,06H;\nSTA 8000H;\nMOV B,A;\nCMP B;\nJZ SKIP_0;\nJC SKIP_0;\nADD B;\nSKIP_0:\n"
    );
}

#[test]
fn wide_literal_into_8bit_register_is_rejected() {
    assert!(compile("main{ reg A = 0x6000; }").is_err());
    assert!(compile("main{ reg A = 0x100; }").is_err());
    assert_eq!(compile("main{ reg A = 0xff; }").unwrap(), "MVI A,FFH;\n");
}

#[test]
fn register_pair_rejects_direct_literal() {
    let tokens = lex("main{ reg HL = 0x6000; }").unwrap();
    let err = parse(&tokens).unwrap_err();
    assert!(err.contains("16-bit register pair"));
    assert!(err.contains("malloc"));
    assert!(compile("main{ reg BC = 0x01; }").is_err());
}

#[test]
fn malloc_loads_a_pair() {
    assert_eq!(compile("main{ reg HL = malloc(0x6000); }").unwrap(), "LXI HL,6000H;\n");
    assert!(compile("main{ reg A = malloc(0x6000); }").is_err());
    assert!(compile("main{ reg HL = malloc 0x6000; }").is_err());
}

#[test]
fn binary_op_on_other_register_moves_through_accumulator() {
    assert_eq!(compile("main{ C - B; }").unwrap(), "MOV A,C;\nSUB B;\nMOV C,A;\n");
    assert_eq!(compile("main{ A & B; }").unwrap(), "ANA B;\n");
    assert_eq!(compile("main{ A | B; A ^ B; }").unwrap(), "ORA B;\nXRA B;\n");
    assert!(compile("main{ A + C; }").is_err());
}

#[test]
fn pointer_increment_and_decrement() {
    assert_eq!(compile("main{ HL++; DE--; }").unwrap(), "INX HL;\nDCX DE;\n");
    assert!(compile("main{ A++; }").is_err());
}

#[test]
fn static_variables_get_addresses_and_registers() {
    let text = compile("main{ a = 0x01; b = 0x02; c = 0x03; d = 0x04; e = 0x05; f = 0x06; b = 0x07; }")
        .unwrap();
    assert_eq!(
        text,
        "MVI A,01H;\nSTA 8000H;\nMOV B,A;\n\
         MVI A,02H;\nSTA 8001H;\nMOV C,A;\n\
         MVI A,03H;\nSTA 8002H;\nMOV D,A;\n\
         MVI A,04H;\nSTA 8003H;\nMOV E,A;\n\
         MVI A,05H;\nSTA 8004H;\nMOV H,A;\n\
         MVI A,06H;\nSTA 8005H;\n\
         MVI A,07H;\nSTA 8001H;\nMOV C,A;\n"
    );
}

#[test]
fn sixteen_bit_static_variable() {
    let text = compile("main{ p = 0x1234; }").unwrap();
    assert_eq!(text, "LXI H,1234H;\nSHLD 8000H;\nMOV B,L;\n");
}

#[test]
fn nested_variable_gets_next_address() {
    let text = compile("main{ x = 0x01; if (x == x) { y = 0x0a; } }").unwrap();
    assert_eq!(
        text,
        "MVI A,01H;\nSTA 8000H;\nMOV B,A;\nMOV A,B;\nCMP B;\nJNZ SKIP_0;\nMVI A,0AH;\nSTA 8001H;\nMOV C,A;\nSKIP_0:\n"
    );
}

#[test]
fn self_comparison_uses_immediate_zero() {
    let text = compile("main{ if (A == A) { } }").unwrap();
    assert_eq!(text, "CPI 00H;\nJNZ SKIP_0;\nSKIP_0:\n");
    assert!(!text.contains("CMP A"));
}

#[test]
fn labels_are_unique_across_nested_and_sibling_ifs() {
    let text = compile("main{ if (B < C) { if (C == D) { } } if (D > E) { } }").unwrap();
    assert_eq!(
        text,
        "MOV A,B;\nCMP C;\nJZ SKIP_0;\nJNC SKIP_0;\n\
         MOV A,C;\nCMP D;\nJNZ SKIP_1;\nSKIP_1:\nSKIP_0:\n\
         MOV A,D;\nCMP E;\nJZ SKIP_2;\nJC SKIP_2;\nSKIP_2:\n"
    );
}

#[test]
fn many_labels_print_in_decimal() {
    let mut source = String::from("main{");
    for _ in 0..11 {
        source.push_str(" if (B == C) { }");
    }
    source.push_str(" }");
    let text = compile(&source).unwrap();
    assert!(text.ends_with("JNZ SKIP_10;\nSKIP_10:\n"));
}

#[test]
fn parser_requires_header_and_closing_brace() {
    assert!(compile("reg A = 0x01;").is_err());
    assert!(compile("main{ reg A = 0x01;").is_err());
    assert!(compile("main{ reg A = 0x01 }").is_err());
    assert!(compile("main{ if (A > B) { A + B; }").is_err());
    assert!(compile("main{ if A > B { } }").is_err());
    assert!(compile("main{ x ; }").is_err());
    assert!(compile("main{ } }").is_err());
}

#[test]
fn parse_builds_the_tree() {
    let tokens = lex("main{ if (x < B) { x = 0x1ff; A + B; } }").unwrap();
    let statements = parse(&tokens).unwrap();
    assert_eq!(
        statements,
        vec![Statement::If {
            left: "x".to_string(),
            condition: Condition::Less,
            right: "B".to_string(),
            body: vec![
                Statement::StaticAssignment {
                    variable: "x".to_string(),
                    value: "0x1ff".to_string(),
                    is_16bit: true,
                },
                Statement::BinaryOp {
                    register: "A".to_string(),
                    operator: BinaryOperator::Add,
                },
            ],
        }]
    );
}

#[test]
fn generate_on_hand_built_tree() {
    let statements = vec![
        Statement::MoveImmediate { register: "B".to_string(), value: "0xab".to_string() },
        Statement::LoadImmediateExtended {
            register_pair: "SP".to_string(),
            address: "0x0fff".to_string(),
        },
        Statement::PointerIncDec { register_pair: "BC".to_string(), is_increment: false },
    ];
    assert_eq!(generate(&statements), "MVI B,ABH;\nLXI SP,0FFFH;\nDCX BC;\n");
}

#[test]
fn identifiers_take_letters_and_digits() {
    let tokens = lex("ab1c+x\u{e9}9 y").unwrap();
    assert_eq!(
        tokens,
        vec![ident("ab1c"), Token::Plus, ident("x\u{e9}9"), ident("y")]
    );
}

#[test]
fn limits_hold_for_ordinary_programs() {
    let tokens = lex("main{ x = 0x01; if (x == B) { y = 0x02; } }").unwrap();
    let statements = parse(&tokens).unwrap();
    assert!(within_limits(&statements));
}

#[test]
fn parse_rejects_bad_token_sequences() {
    assert!(parse(&[]).is_err());
    assert!(parse(&[Token::Main, Token::LBrace, hex("0x01"), Token::RBrace]).is_err());
    assert!(parse(&[Token::Main, Token::LBrace, Token::Reg, ident("A"), Token::Equal, hex("0xzz"), Token::Semicolon, Token::RBrace]).is_err());
    assert_eq!(parse(&[Token::Main, Token::LBrace, Token::RBrace]).unwrap(), vec![]);
}

#[test]
fn lexer_errors_name_the_offending_character() {
    assert_eq!(lex("A / B").unwrap_err(), "Unexpected character: /");
    assert_eq!(lex("A/").unwrap_err(), "Unexpected character: /");
    assert_eq!(lex("A @ B").unwrap_err(), "Unexpected character: @");
    assert_eq!(lex("A, B").unwrap_err(), "Unexpected character: ,");
    assert_eq!(
        lex("x = 12").unwrap_err(),
        "Invalid number literal starting with '1'. Use 0x prefix for hex values."
    );
    assert_eq!(
        lex("x = 0;").unwrap_err(),
        "Invalid number literal starting with '0'. Use 0x prefix for hex values."
    );
    assert_eq!(
        lex("main{ reg A = 0x; }").unwrap_err(),
        "Invalid hex literal: '0x'. Expected digits after 0x."
    );
}

#[test]
fn literal_errors_name_the_literal() {
    assert!(compile("main{ reg A = 0x100; }").unwrap_err().ends_with("0x100"));
    assert!(compile("main{ reg HL = malloc(0x10000); }").unwrap_err().ends_with("0x10000"));
    assert!(compile("main{ v = 0x12345; }").unwrap_err().ends_with("0x12345"));
}

#[test]
fn sixth_variable_has_no_register_and_compares_by_name() {
    let text = compile("main{ a = 0x01; b = 0x01; c = 0x01; d = 0x01; e = 0x01; f = 0x01; if (f < a) { } }")
        .unwrap();
    assert!(text.ends_with("MOV A,f;\nCMP B;\nJZ SKIP_0;\nJNC SKIP_0;\nSKIP_0:\n"));
}
