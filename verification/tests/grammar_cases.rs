use lexer::decimal::Decimal;
use lexer::diagnostic::{Diagnostic, DiagnosticKind};
use lexer::scanner::Scanner;
use lexer::token::{Literal, Token, TokenType};

fn scan(source: &str) -> Vec<Token> {
    Scanner::new(source.to_string()).scan_tokens()
}

fn kinds(source: &str) -> Vec<TokenType> {
    scan(source).iter().map(|token| token.token_type).collect()
}

fn lexemes(source: &str) -> Vec<String> {
    scan(source).iter().map(|token| token.lexeme.clone()).collect()
}

fn lines(source: &str) -> Vec<usize> {
    scan(source).iter().map(|token| token.line).collect()
}

fn diagnostics(source: &str) -> Vec<Diagnostic> {
    Scanner::new(source.to_string()).scan().1
}

#[test]
fn every_punctuation_character_has_its_token() {
    assert_eq!(
        kinds("(){},.-+;*"),
        vec![
            TokenType::LEFT_PAREN,
            TokenType::RIGHT_PAREN,
            TokenType::LEFT_BRACE,
            TokenType::RIGHT_BRACE,
            TokenType::COMMA,
            TokenType::DOT,
            TokenType::MINUS,
            TokenType::PLUS,
            TokenType::SEMICOLON,
            TokenType::STAR,
            TokenType::EOF,
        ]
    );
    assert_eq!(lexemes("(){},.-+;*"), vec!["(", ")", "{", "}", ",", ".", "-", "+", ";", "*", ""]);
}

#[test]
fn operators_of_one_and_two_characters() {
    assert_eq!(
        kinds("! != = == < <= > >="),
        vec![
            TokenType::BANG,
            TokenType::BANG_EQUAL,
            TokenType::EQUAL,
            TokenType::EQUAL_EQUAL,
            TokenType::LESS,
            TokenType::LESS_EQUAL,
            TokenType::GREATER,
            TokenType::GREATER_EQUAL,
            TokenType::EOF,
        ]
    );
    assert_eq!(
        lexemes("! != = == < <= > >="),
        vec!["!", "!=", "=", "==", "<", "<=", ">", ">=", ""]
    );
}

#[test]
fn operators_take_at_most_one_equal_sign() {
    assert_eq!(kinds("!=="), vec![TokenType::BANG_EQUAL, TokenType::EQUAL, TokenType::EOF]);
    assert_eq!(kinds("==="), vec![TokenType::EQUAL_EQUAL, TokenType::EQUAL, TokenType::EOF]);
    assert_eq!(kinds("<"), vec![TokenType::LESS, TokenType::EOF]);
    assert_eq!(kinds("> ="), vec![TokenType::GREATER, TokenType::EQUAL, TokenType::EOF]);
}

#[test]
fn slash_alone_is_division() {
    assert_eq!(
        kinds("a/b"),
        vec![TokenType::IDENTIFIER, TokenType::SLASH, TokenType::IDENTIFIER, TokenType::EOF]
    );
    assert_eq!(kinds("/"), vec![TokenType::SLASH, TokenType::EOF]);
}

#[test]
fn line_comment_runs_to_the_end_of_the_line() {
    let tokens = scan("a // b c\nd");
    assert_eq!(
        tokens.iter().map(|token| token.lexeme.as_str()).collect::<Vec<_>>(),
        vec!["a", "d", ""]
    );
    assert_eq!(tokens.iter().map(|token| token.line).collect::<Vec<_>>(), vec![1, 2, 2]);
}

#[test]
fn block_comment_ends_at_the_first_closer() {
    assert_eq!(lexemes("a /* b */ c"), vec!["a", "c", ""]);
    assert_eq!(lexemes("/**/x"), vec!["x", ""]);
    assert_eq!(lexemes("/***/x"), vec!["x", ""]);
    assert_eq!(lexemes("/* * / */x"), vec!["x", ""]);
}

#[test]
fn block_comments_do_not_nest() {
    assert_eq!(
        kinds("/* a /* b */ c */"),
        vec![TokenType::IDENTIFIER, TokenType::STAR, TokenType::SLASH, TokenType::EOF]
    );
}

#[test]
fn block_comment_counts_its_newlines() {
    assert_eq!(lines("a /* x\ny\n */ b"), vec![1, 3, 3]);
}

#[test]
fn block_comment_without_closer_runs_to_the_end() {
    assert_eq!(kinds("a /* b c"), vec![TokenType::IDENTIFIER, TokenType::EOF]);
    assert_eq!(kinds("/*/"), vec![TokenType::EOF]);
    assert_eq!(kinds("/*"), vec![TokenType::EOF]);
    assert_eq!(lines("/* \n\n"), vec![3]);
    assert_eq!(diagnostics("a /* b c"), vec![]);
}

#[test]
fn blanks_give_no_token_and_newlines_count_lines() {
    assert_eq!(kinds(" \t\r"), vec![TokenType::EOF]);
    assert_eq!(lines(" \t\r"), vec![1]);
    assert_eq!(lines("\n\n"), vec![3]);
    assert_eq!(lines("a\nb\r\n\nc"), vec![1, 2, 4, 4]);
}

#[test]
fn every_reserved_word_has_its_token() {
    let words = [
        ("and", TokenType::AND),
        ("class", TokenType::CLASS),
        ("else", TokenType::ELSE),
        ("false", TokenType::FALSE),
        ("for", TokenType::FOR),
        ("fun", TokenType::FUN),
        ("if", TokenType::IF),
        ("nil", TokenType::NIL),
        ("or", TokenType::OR),
        ("print", TokenType::PRINT),
        ("return", TokenType::RETURN),
        ("super", TokenType::SUPER),
        ("this", TokenType::THIS),
        ("true", TokenType::TRUE),
        ("var", TokenType::VAR),
        ("while", TokenType::WHILE),
    ];
    for (word, token_type) in words {
        let tokens = scan(word);
        assert_eq!(tokens.len(), 2);
        assert_eq!(tokens[0].token_type, token_type);
        assert_eq!(tokens[0].lexeme, word);
        assert_eq!(tokens[0].literal, Literal::Absent);
        assert_eq!(tokens[1].token_type, TokenType::EOF);
    }
}

#[test]
fn identifiers_take_the_longest_run() {
    assert_eq!(lexemes("_foo1 Bar_2 x"), vec!["_foo1", "Bar_2", "x", ""]);
    for word in ["class1", "or_", "orchid", "VAR", "_", "nil0"] {
        let tokens = scan(word);
        assert_eq!(tokens.len(), 2);
        assert_eq!(tokens[0].token_type, TokenType::IDENTIFIER);
        assert_eq!(tokens[0].lexeme, word);
    }
}

#[test]
fn number_with_fraction() {
    let tokens = scan("12.50");
    assert_eq!(tokens.len(), 2);
    assert_eq!(tokens[0].token_type, TokenType::NUMBER);
    assert_eq!(tokens[0].lexeme, "12.50");
    assert_eq!(
        tokens[0].literal,
        Literal::Number(Decimal { whole: vec![1, 2], fraction: vec![5, 0] })
    );
    assert_eq!(tokens[0].lexeme.parse::<f64>().unwrap(), 12.5);
}

#[test]
fn number_keeps_its_leading_zeros() {
    let tokens = scan("007");
    assert_eq!(
        tokens[0].literal,
        Literal::Number(Decimal { whole: vec![0, 0, 7], fraction: vec![] })
    );
    assert_eq!(tokens[0].lexeme, "007");
}

#[test]
fn number_takes_one_fraction_only() {
    assert_eq!(lexemes("1.5.2"), vec!["1.5", ".", "2", ""]);
    assert_eq!(
        kinds("1.5.2"),
        vec![TokenType::NUMBER, TokenType::DOT, TokenType::NUMBER, TokenType::EOF]
    );
}

#[test]
fn dot_without_digits_on_both_sides_stands_alone() {
    assert_eq!(kinds(".5"), vec![TokenType::DOT, TokenType::NUMBER, TokenType::EOF]);
    assert_eq!(
        kinds("5.a"),
        vec![TokenType::NUMBER, TokenType::DOT, TokenType::IDENTIFIER, TokenType::EOF]
    );
    assert_eq!(lexemes("1e5"), vec!["1", "e5", ""]);
}

#[test]
fn string_value_is_the_text_between_the_quotes() {
    let tokens = scan("\"\" \"a b\" \"h\u{e9}llo \\n\"");
    assert_eq!(tokens.len(), 4);
    assert_eq!(tokens[0].literal, Literal::String(String::new()));
    assert_eq!(tokens[0].lexeme, "\"\"");
    assert_eq!(tokens[1].literal, Literal::String("a b".to_string()));
    assert_eq!(tokens[1].lexeme, "\"a b\"");
    assert_eq!(tokens[2].literal, Literal::String("h\u{e9}llo \\n".to_string()));
    assert_eq!(tokens[2].lexeme, "\"h\u{e9}llo \\n\"");
    assert_eq!(tokens[2].token_type, TokenType::STRING);
}

#[test]
fn string_token_stands_on_the_line_of_its_opening_quote() {
    let tokens = scan("a\n\"x\ny\nz\" b");
    assert_eq!(tokens.iter().map(|token| token.line).collect::<Vec<_>>(), vec![1, 2, 4, 4]);
}

#[test]
fn comment_signs_inside_a_string_are_text() {
    let tokens = scan("\"// not /* a */ comment\"");
    assert_eq!(tokens.len(), 2);
    assert_eq!(tokens[0].literal, Literal::String("// not /* a */ comment".to_string()));
}

#[test]
fn unterminated_string_gives_a_diagnostic_and_no_token() {
    let scanner = Scanner::new("x \"abc".to_string());
    let (tokens, diagnostics) = scanner.scan();
    assert_eq!(
        tokens.iter().map(|token| token.token_type).collect::<Vec<_>>(),
        vec![TokenType::IDENTIFIER, TokenType::EOF]
    );
    assert_eq!(
        diagnostics,
        vec![Diagnostic { kind: DiagnosticKind::UnterminatedString, line: 1, start: 2, end: 6 }]
    );
}

#[test]
fn unterminated_string_is_reported_on_the_line_where_the_text_ends() {
    let (tokens, diagnostics) = Scanner::new("\"a\nb\n".to_string()).scan();
    assert_eq!(tokens.len(), 1);
    assert_eq!(tokens[0].line, 3);
    assert_eq!(
        diagnostics,
        vec![Diagnostic { kind: DiagnosticKind::UnterminatedString, line: 3, start: 0, end: 5 }]
    );
}

#[test]
fn unexpected_character_is_reported_and_the_scan_goes_on() {
    let (tokens, diagnostics) = Scanner::new("a @\n# 1".to_string()).scan();
    assert_eq!(
        tokens.iter().map(|token| token.token_type).collect::<Vec<_>>(),
        vec![TokenType::IDENTIFIER, TokenType::NUMBER, TokenType::EOF]
    );
    assert_eq!(
        diagnostics,
        vec![
            Diagnostic {
                kind: DiagnosticKind::UnexpectedCharacter('@'),
                line: 1,
                start: 2,
                end: 3,
            },
            Diagnostic {
                kind: DiagnosticKind::UnexpectedCharacter('#'),
                line: 2,
                start: 4,
                end: 5,
            },
        ]
    );
}

#[test]
fn letters_outside_the_basic_alphabet_are_unexpected() {
    let (tokens, diagnostics) = Scanner::new("\u{e9}t\u{e9}".to_string()).scan();
    assert_eq!(
        tokens.iter().map(|token| token.lexeme.as_str()).collect::<Vec<_>>(),
        vec!["t", ""]
    );
    assert_eq!(
        diagnostics,
        vec![
            Diagnostic {
                kind: DiagnosticKind::UnexpectedCharacter('\u{e9}'),
                line: 1,
                start: 0,
                end: 1
            },
            Diagnostic {
                kind: DiagnosticKind::UnexpectedCharacter('\u{e9}'),
                line: 1,
                start: 2,
                end: 3
            },
        ]
    );
}

#[test]
fn positions_count_characters_not_bytes() {
    let (tokens, diagnostics) = Scanner::new("\"\u{1f600}\" @".to_string()).scan();
    assert_eq!(tokens[0].lexeme, "\"\u{1f600}\"");
    assert_eq!(
        diagnostics,
        vec![Diagnostic {
            kind: DiagnosticKind::UnexpectedCharacter('@'),
            line: 1,
            start: 4,
            end: 5
        }]
    );
}

#[test]
fn nul_in_the_source_is_an_unexpected_character() {
    let (tokens, diagnostics) = Scanner::new("1\u{0}2".to_string()).scan();
    assert_eq!(
        tokens.iter().map(|token| token.lexeme.as_str()).collect::<Vec<_>>(),
        vec!["1", "2", ""]
    );
    assert_eq!(
        diagnostics,
        vec![Diagnostic {
            kind: DiagnosticKind::UnexpectedCharacter('\u{0}'),
            line: 1,
            start: 1,
            end: 2
        }]
    );
}

#[test]
fn clean_source_gives_no_diagnostic() {
    assert_eq!(diagnostics("fun f(a, b) { return a + b; } // done"), vec![]);
}

#[test]
fn scan_tokens_gives_the_tokens_of_scan() {
    let scanner = Scanner::new("var s = \"x\"; @ 1.5".to_string());
    assert_eq!(scanner.scan_tokens(), scanner.scan().0);
}

#[test]
fn scanner_can_be_used_again() {
    let scanner = Scanner::new("a b".to_string());
    assert_eq!(scanner.scan_tokens(), scanner.scan_tokens());
}

#[test]
fn character_classes() {
    for c in ['0', '5', '9'] {
        assert!(Scanner::is_digit(c));
        assert!(Scanner::is_alphanumeric(c));
        assert!(!Scanner::is_alpha(c));
    }
    for c in ['a', 'z', 'A', 'Z', '_', 'm'] {
        assert!(Scanner::is_alpha(c));
        assert!(Scanner::is_alphanumeric(c));
        assert!(!Scanner::is_digit(c));
    }
    for c in ['/', ':', '@', '[', '`', '{', ' ', '\u{e9}', '\u{661}', '\u{0}'] {
        assert!(!Scanner::is_alpha(c));
        assert!(!Scanner::is_digit(c));
        assert!(!Scanner::is_alphanumeric(c));
    }
}
