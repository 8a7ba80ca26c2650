use assembler::lexer::{LexError, Lexer, Token, TokenType};

fn lexed(input: &str) -> Vec<Token> {
    let mut lexer = Lexer::new(input);
    assert!(lexer.lex().is_ok());
    lexer.tokens
}

fn tok(token_type: TokenType, line: u64, col: u64) -> Token {
    Token { token_type, line, col }
}

fn reg(name: &str) -> TokenType {
    TokenType::Register(Box::new(name.to_string()))
}

#[test]
fn lex_number_comma() {
    let expected_toks = vec![
        tok(TokenType::Integer(32), 1, 1),
        tok(TokenType::Comma, 1, 3),
        tok(TokenType::Integer(-43), 1, 4),
    ];
    assert_eq!(lexed("32,-43"), expected_toks);
}

#[test]
fn lex_identifier_number() {
    let expected_toks = vec![
        tok(TokenType::Identifier(Box::new("hello".to_string())), 1, 1),
        tok(TokenType::Comma, 1, 6),
        tok(TokenType::Integer(-12), 1, 7),
    ];
    assert_eq!(lexed("hello,-12"), expected_toks);
}

#[test]
fn lex_with_newline() {
    let expected_toks = vec![tok(TokenType::Integer(32), 1, 1), tok(TokenType::Integer(-43), 2, 1)];
    assert_eq!(lexed("32\n-43"), expected_toks);
}

#[test]
fn lex_basic_inst() {
    let expected_toks = vec![
        tok(TokenType::AddInst, 1, 1),
        tok(reg("x3"), 1, 5),
        tok(TokenType::Comma, 1, 7),
        tok(reg("x1"), 1, 8),
        tok(TokenType::Comma, 1, 10),
        tok(reg("x2"), 1, 11),
    ];
    assert_eq!(lexed("add x3,x1,x2"), expected_toks);
}

#[test]
fn test_lexing_multiple_inst() {
    let input = "stp     x23, x24, [sp, #48]
mov     x23, x1
mov     x24, x2
cmp     xzr, x20, asr #3
                    ";
    let expected_toks = vec![
        TokenType::StpInst,
        reg("x23"),
        TokenType::Comma,
        reg("x24"),
        TokenType::Comma,
        TokenType::LSquare,
        reg("sp"),
        TokenType::Comma,
        TokenType::Hash,
        TokenType::Integer(48),
        TokenType::RSquare,
        TokenType::MovInst,
        reg("x23"),
        TokenType::Comma,
        reg("x1"),
        TokenType::MovInst,
        reg("x24"),
        TokenType::Comma,
        reg("x2"),
        TokenType::CmpInst,
        reg("xzr"),
        TokenType::Comma,
        reg("x20"),
        TokenType::Comma,
        TokenType::AsrInst,
        TokenType::Hash,
        TokenType::Integer(3),
    ];
    let types: Vec<TokenType> = lexed(input).into_iter().map(|t| t.token_type).collect();
    assert_eq!(types, expected_toks);
}

#[test]
fn test_lex_neg_number() {
    let expected_tokens = vec![
        tok(TokenType::Integer(-1), 1, 1),
        tok(TokenType::Minus, 1, 4),
        tok(TokenType::Integer(3), 1, 6),
    ];
    assert_eq!(lexed("-1 - 3"), expected_tokens);
}

#[test]
fn register_names_encode_to_their_index() {
    for n in 0..=30u8 {
        let name = format!("x{}", n);
        let toks = lexed(&name);
        assert_eq!(toks, vec![tok(reg(&name), 1, 1)]);
        assert_eq!(toks[0].token_type.encode(), Some(n));
    }
    for name in ["sp", "xzr"] {
        let toks = lexed(name);
        assert_eq!(toks, vec![tok(reg(name), 1, 1)]);
        assert_eq!(toks[0].token_type.encode(), Some(31));
    }
}

#[test]
fn non_registers_are_identifiers() {
    for name in ["x31", "x01", "x", "xzrr", "X1", "X0", "x300", "spx"] {
        let toks = lexed(name);
        assert_eq!(toks, vec![tok(TokenType::Identifier(Box::new(name.to_string())), 1, 1)]);
        assert_eq!(toks[0].token_type.encode(), None);
    }
    assert_eq!(TokenType::Comma.encode(), None);
}

#[test]
fn words_are_lexed_whole() {
    let toks = lexed("x10 cbnzz cbnz");
    assert_eq!(
        toks,
        vec![
            tok(reg("x10"), 1, 1),
            tok(TokenType::Identifier(Box::new("cbnzz".to_string())), 1, 5),
            tok(TokenType::CbnzInst, 1, 11),
        ]
    );
}

#[test]
fn lexing_twice_gives_the_same_tokens() {
    let src = "loop: ldr x0, [x1], #8\n  cbnz x0, loop\n";
    let first = lexed(src);
    let second = lexed(src);
    assert_eq!(first, second);
    let mut lexer = Lexer::new(src);
    assert!(lexer.lex().is_ok());
    assert!(lexer.lex().is_ok());
    assert_eq!(lexer.tokens, first);
}

#[test]
fn punctuation_and_positions() {
    let toks = lexed("a:\n\t[x1]!");
    assert_eq!(
        toks,
        vec![
            tok(TokenType::Identifier(Box::new("a".to_string())), 1, 1),
            tok(TokenType::Colon, 1, 2),
            tok(TokenType::LSquare, 2, 2),
            tok(reg("x1"), 2, 3),
            tok(TokenType::RSquare, 2, 5),
            tok(TokenType::Bang, 2, 6),
        ]
    );
}

#[test]
fn unexpected_character_is_an_error() {
    let mut lexer = Lexer::new("add x0,\n x1 $");
    assert_eq!(lexer.lex(), Err(LexError::UnexpectedChar { ch: '$', line: 2, col: 5 }));
    assert!(lexer.tokens.is_empty());
}

#[test]
fn literals_wrap_past_the_signed_range() {
    assert_eq!(lexed("9223372036854775807"), vec![tok(TokenType::Integer(i64::MAX), 1, 1)]);
    assert_eq!(lexed("-9223372036854775808"), vec![tok(TokenType::Integer(i64::MIN), 1, 1)]);
    assert_eq!(lexed("18446744073709551615"), vec![tok(TokenType::Integer(-1), 1, 1)]);
    assert_eq!(lexed("-18446744073709551615"), vec![tok(TokenType::Integer(1), 1, 1)]);
}

#[test]
fn literal_past_the_accumulator_is_malformed() {
    let mut lexer = Lexer::new("mov x0, #18446744073709551616");
    assert_eq!(lexer.lex(), Err(LexError::MalformedLiteral { line: 1, col: 10 }));
}
