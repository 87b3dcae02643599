use lexer::diagnostic::DiagnosticKind;
use lexer::scanner::Scanner;
use lexer::token::{Literal, Token, TokenType};

const SOURCES: [&str; 12] = [
    "",
    "\n",
    "(1 + 2) * 3",
    "var x = \"hi\nthere\";",
    "// comment only",
    "/* open",
    "\"open\nstring",
    "class classy { fun f() { return this.x >= 1.5; } }",
    "a\n\nb /* c\n\n */ d // e\nf",
    "@ # $ \u{e9}",
    "1.2.3.4 . .. ...",
    "\"a\" \"b\nc\" \"\"",
];

fn scan(source: &str) -> Vec<Token> {
    Scanner::new(source.to_string()).scan_tokens()
}

fn contents(source: &str) -> Vec<(TokenType, String, Literal)> {
    scan(source)
        .into_iter()
        .map(|token| (token.token_type, token.lexeme, token.literal))
        .collect()
}

#[test]
fn last_token_and_no_other_is_end_of_input() {
    for source in SOURCES {
        let tokens = scan(source);
        let (last, others) = tokens.split_last().unwrap();
        assert_eq!(last.token_type, TokenType::EOF);
        assert_eq!(last.lexeme, "");
        assert_eq!(last.literal, Literal::Absent);
        assert_eq!(last.line, 1 + source.matches('\n').count());
        assert!(others.iter().all(|token| token.token_type != TokenType::EOF));
    }
}

#[test]
fn lines_never_decrease() {
    for source in SOURCES {
        let tokens = scan(source);
        assert!(tokens.windows(2).all(|pair| pair[0].line <= pair[1].line));
    }
}

#[test]
fn string_value_between_quotes_is_the_lexeme() {
    for source in SOURCES {
        for token in scan(source) {
            if token.token_type == TokenType::STRING {
                match &token.literal {
                    Literal::String(value) => {
                        assert_eq!(format!("\"{}\"", value), token.lexeme);
                        assert!(!value.contains('"'));
                    }
                    other => panic!("string token holds {:?}", other),
                }
            }
        }
    }
}

#[test]
fn literal_is_present_on_string_and_number_tokens_only() {
    for source in SOURCES {
        for token in scan(source) {
            match token.token_type {
                TokenType::STRING => assert!(matches!(token.literal, Literal::String(_))),
                TokenType::NUMBER => assert!(matches!(token.literal, Literal::Number(_))),
                _ => assert_eq!(token.literal, Literal::Absent),
            }
        }
    }
}

#[test]
fn every_lexeme_but_the_last_is_not_empty() {
    for source in SOURCES {
        let tokens = scan(source);
        let (_, others) = tokens.split_last().unwrap();
        assert!(others.iter().all(|token| !token.lexeme.is_empty()));
    }
}

#[test]
fn no_scan_reports_a_number_that_could_not_be_read() {
    for source in SOURCES {
        let (_, diagnostics) = Scanner::new(source.to_string()).scan();
        assert!(diagnostics
            .iter()
            .all(|diagnostic| diagnostic.kind != DiagnosticKind::NumberParseFailure));
    }
}

#[test]
fn blanks_between_tokens_change_nothing() {
    assert_eq!(scan("var x=1;"), scan("var  x\t= 1 ;\r"));
    assert_eq!(scan("(a)"), scan(" ( a ) "));
}

#[test]
fn comments_between_tokens_change_no_token() {
    let plain = contents("var x=1;");
    assert_eq!(plain, contents("var /* c */x=1;"));
    assert_eq!(plain, contents("var x/**/=/* a\nb */1;"));
    assert_eq!(plain, contents("// first\nvar x // name\n= 1 // value\n;"));
    assert_eq!(plain, contents("var x=1;/* open"));
}

#[test]
fn newlines_between_tokens_change_lines_only() {
    let plain = scan("var x=1;");
    let spread = scan("var\nx\n\n=1\n;");
    assert_eq!(contents("var x=1;"), contents("var\nx\n\n=1\n;"));
    assert_eq!(plain.iter().map(|token| token.line).collect::<Vec<_>>(), vec![1, 1, 1, 1, 1, 1]);
    assert_eq!(spread.iter().map(|token| token.line).collect::<Vec<_>>(), vec![1, 2, 4, 4, 5, 5]);
}

#[test]
fn comment_behind_a_slash_turns_it_into_a_comment() {
    assert_eq!(
        scan("a / b").iter().map(|token| token.token_type).collect::<Vec<_>>(),
        vec![TokenType::IDENTIFIER, TokenType::SLASH, TokenType::IDENTIFIER, TokenType::EOF]
    );
    assert_eq!(
        scan("a //* c */ b").iter().map(|token| token.token_type).collect::<Vec<_>>(),
        vec![TokenType::IDENTIFIER, TokenType::EOF]
    );
}
