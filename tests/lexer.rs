use simplelang::lexer::{Lexer, Token, Tokentype};
use simplelang::error::CompileError;

fn tok(typ: Tokentype, value: &str) -> Token {
    Token { typ, value: value.to_string() }
}

#[test]
fn test_tokenize_identifiers() {
    let source = String::from("int a = 5;");
    let mut lexer = Lexer::new(source);
    let tokens = lexer.tokenize().unwrap();

    let expected_tokens = vec![
        Token { typ: Tokentype::INT, value: "int".to_string() },
        Token { typ: Tokentype::IDENTIFIER, value: "a".to_string() },
        Token { typ: Tokentype::EQ, value: "=".to_string() },
        Token { typ: Tokentype::NUMBER, value: "5".to_string() },
        Token { typ: Tokentype::SEMICOLON, value: ";".to_string() },
        Token { typ: Tokentype::END, value: "".to_string() },
    ];

    assert_eq!(tokens, expected_tokens);
}

#[test]
fn test_tokenize_if_else() {
    let source = String::from("if (x == y) { y = y + 1; } else { y = y - 1; }");
    let mut lexer = Lexer::new(source);
    let tokens = lexer.tokenize().unwrap();

    let expected_tokens = vec![
        Token { typ: Tokentype::IF, value: "if".to_string() },
        Token { typ: Tokentype::LPAREN, value: "(".to_string() },
        Token { typ: Tokentype::IDENTIFIER, value: "x".to_string() },
        Token { typ: Tokentype::EQUAL, value: "==".to_string() },
        Token { typ: Tokentype::IDENTIFIER, value: "y".to_string() },
        Token { typ: Tokentype::RPAREN, value: ")".to_string() },
        Token { typ: Tokentype::LBRACE, value: "{".to_string() },
        Token { typ: Tokentype::IDENTIFIER, value: "y".to_string() },
        Token { typ: Tokentype::EQ, value: "=".to_string() },
        Token { typ: Tokentype::IDENTIFIER, value: "y".to_string() },
        Token { typ: Tokentype::PLUS, value: "+".to_string() },
        Token { typ: Tokentype::NUMBER, value: "1".to_string() },
        Token { typ: Tokentype::SEMICOLON, value: ";".to_string() },
        Token { typ: Tokentype::RBRACE, value: "}".to_string() },
        Token { typ: Tokentype::ELSE, value: "else".to_string() },
        Token { typ: Tokentype::LBRACE, value: "{".to_string() },
        Token { typ: Tokentype::IDENTIFIER, value: "y".to_string() },
        Token { typ: Tokentype::EQ, value: "=".to_string() },
        Token { typ: Tokentype::IDENTIFIER, value: "y".to_string() },
        Token { typ: Tokentype::MINUS, value: "-".to_string() },
        Token { typ: Tokentype::NUMBER, value: "1".to_string() },
        Token { typ: Tokentype::SEMICOLON, value: ";".to_string() },
        Token { typ: Tokentype::RBRACE, value: "}".to_string() },
        Token { typ: Tokentype::END, value: "".to_string() },
    ];

    assert_eq!(tokens, expected_tokens);
}

#[test]
fn test_tokenize_complex_expression() {
    let source = String::from("int x = 42 + y;");
    let mut lexer = Lexer::new(source);
    let tokens = lexer.tokenize().unwrap();

    let expected_tokens = vec![
        Token { typ: Tokentype::INT, value: "int".to_string() },
        Token { typ: Tokentype::IDENTIFIER, value: "x".to_string() },
        Token { typ: Tokentype::EQ, value: "=".to_string() },
        Token { typ: Tokentype::NUMBER, value: "42".to_string() },
        Token { typ: Tokentype::PLUS, value: "+".to_string() },
        Token { typ: Tokentype::IDENTIFIER, value: "y".to_string() },
        Token { typ: Tokentype::SEMICOLON, value: ";".to_string() },
        Token { typ: Tokentype::END, value: "".to_string() },
    ];

    assert_eq!(tokens, expected_tokens);
}

#[test]
fn empty_source_gives_only_end() {
    let mut lexer = Lexer::new(String::new());
    assert_eq!(lexer.tokenize().unwrap(), vec![tok(Tokentype::END, "")]);
}

#[test]
fn words_and_numbers_are_maximal() {
    let mut lexer = Lexer::new(String::from("integer if2 else\t007\n"));
    assert_eq!(
        lexer.tokenize().unwrap(),
        vec![
            tok(Tokentype::IDENTIFIER, "integer"),
            tok(Tokentype::IDENTIFIER, "if2"),
            tok(Tokentype::ELSE, "else"),
            tok(Tokentype::NUMBER, "007"),
            tok(Tokentype::END, ""),
        ]
    );
}

#[test]
fn unknown_character_is_a_lex_error() {
    let mut lexer = Lexer::new(String::from("int x = 5 $ 3;"));
    assert_eq!(lexer.tokenize(), Err(CompileError::LexError(10)));
}

#[test]
fn non_ascii_letter_is_a_lex_error() {
    let mut lexer = Lexer::new(String::from("int é;"));
    assert_eq!(lexer.tokenize(), Err(CompileError::LexError(4)));
}
