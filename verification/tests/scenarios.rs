use lexer::decimal::Decimal;
use lexer::scanner::Scanner;
use lexer::token::{Literal, Token, TokenType};

fn scan(source: &str) -> Vec<Token> {
    Scanner::new(source.to_string()).scan_tokens()
}

fn kinds(tokens: &[Token]) -> Vec<TokenType> {
    tokens.iter().map(|token| token.token_type).collect()
}

fn plain(token_type: TokenType, lexeme: &str, line: usize) -> Token {
    Token { token_type, lexeme: lexeme.to_string(), literal: Literal::Absent, line }
}

fn integer(digits: &[u8], lexeme: &str, line: usize) -> Token {
    Token {
        token_type: TokenType::NUMBER,
        lexeme: lexeme.to_string(),
        literal: Literal::Number(Decimal { whole: digits.to_vec(), fraction: vec![] }),
        line,
    }
}

#[test]
fn arithmetic_expression_on_one_line() {
    let tokens = scan("(1 + 2) * 3");
    assert_eq!(
        tokens,
        vec![
            plain(TokenType::LEFT_PAREN, "(", 1),
            integer(&[1], "1", 1),
            plain(TokenType::PLUS, "+", 1),
            integer(&[2], "2", 1),
            plain(TokenType::RIGHT_PAREN, ")", 1),
            plain(TokenType::STAR, "*", 1),
            integer(&[3], "3", 1),
            plain(TokenType::EOF, "", 1),
        ]
    );
    let values: Vec<f64> = tokens
        .iter()
        .filter(|token| token.token_type == TokenType::NUMBER)
        .map(|token| token.lexeme.parse::<f64>().unwrap())
        .collect();
    assert_eq!(values, vec![1.0, 2.0, 3.0]);
}

#[test]
fn string_with_embedded_newline_moves_the_line() {
    let tokens = scan("var x = \"hi\nthere\";");
    assert_eq!(
        kinds(&tokens),
        vec![
            TokenType::VAR,
            TokenType::IDENTIFIER,
            TokenType::EQUAL,
            TokenType::STRING,
            TokenType::SEMICOLON,
            TokenType::EOF,
        ]
    );
    assert_eq!(tokens[3].literal, Literal::String("hi\nthere".to_string()));
    assert_eq!(tokens[3].lexeme, "\"hi\nthere\"");
    assert_eq!(tokens[2].line, 1);
    assert_eq!(tokens[3].line, 1);
    assert_eq!(tokens[4].line, tokens[2].line + 1);
    assert_eq!(tokens[5].line, 2);
}

#[test]
fn bare_reserved_word_is_not_an_identifier() {
    assert_eq!(
        scan("class"),
        vec![plain(TokenType::CLASS, "class", 1), plain(TokenType::EOF, "", 1)]
    );
}

#[test]
fn word_that_starts_with_a_reserved_word_is_an_identifier() {
    assert_eq!(
        scan("classy"),
        vec![plain(TokenType::IDENTIFIER, "classy", 1), plain(TokenType::EOF, "", 1)]
    );
}

#[test]
fn comment_without_newline_gives_only_end_of_input() {
    assert_eq!(scan("// comment only"), vec![plain(TokenType::EOF, "", 1)]);
}

#[test]
fn trailing_dot_is_not_part_of_the_number() {
    assert_eq!(
        scan("1."),
        vec![integer(&[1], "1", 1), plain(TokenType::DOT, ".", 1), plain(TokenType::EOF, "", 1)]
    );
}

#[test]
fn empty_input_gives_end_of_input_on_line_one() {
    assert_eq!(scan(""), vec![plain(TokenType::EOF, "", 1)]);
}
