//! Tokens: what the scanner hands to a parser.

use crate::decimal::{Decimal, DecimalSpec};
use vstd::prelude::*;

verus! {

/// The closed set of token categories.
#[allow(non_camel_case_types)]
#[derive(Clone, Copy, Debug, PartialEq, Eq, Hash, Structural)]
pub enum TokenType {
    // Single-character punctuation.
    LEFT_PAREN,
    RIGHT_PAREN,
    LEFT_BRACE,
    RIGHT_BRACE,
    COMMA,
    DOT,
    MINUS,
    PLUS,
    SEMICOLON,
    SLASH,
    STAR,
    // Operators of one or two characters.
    BANG,
    BANG_EQUAL,
    EQUAL,
    EQUAL_EQUAL,
    GREATER,
    GREATER_EQUAL,
    LESS,
    LESS_EQUAL,
    // Literals.
    IDENTIFIER,
    STRING,
    NUMBER,
    // Reserved words.
    AND,
    CLASS,
    ELSE,
    FALSE,
    FUN,
    FOR,
    IF,
    NIL,
    OR,
    PRINT,
    RETURN,
    SUPER,
    THIS,
    TRUE,
    VAR,
    WHILE,
    // End of input.
    EOF,
}

/// The decoded value of a token: nothing, the text of a string literal
/// without its quotes, or the number that a number literal denotes.
#[derive(Clone, Debug, PartialEq, Eq, Hash)]
pub enum Literal {
    Absent,
    String(String),
    Number(Decimal),
}

/// The mathematical model of a [`Literal`].
pub enum LiteralSpec {
    Absent,
    String(Seq<char>),
    Number(DecimalSpec),
}

impl View for Literal {
    type V = LiteralSpec;

    open spec fn view(&self) -> LiteralSpec {
        match *self {
            Literal::Absent => LiteralSpec::Absent,
            Literal::String(text) => LiteralSpec::String(text@),
            Literal::Number(number) => LiteralSpec::Number(number@),
        }
    }
}

/// One classified piece of source text.
#[derive(Clone, Debug, PartialEq, Eq, Hash)]
pub struct Token {
    /// The category of the token.
    pub token_type: TokenType,
    /// The source text that was matched, exactly as written.
    pub lexeme: String,
    /// The decoded value; present on string and number tokens only.
    pub literal: Literal,
    /// The 1-based line of the token's first character.
    pub line: usize,
}

/// The mathematical model of a [`Token`].
pub struct TokenSpec {
    pub kind: TokenType,
    pub lexeme: Seq<char>,
    pub literal: LiteralSpec,
    pub line: nat,
}

impl View for Token {
    type V = TokenSpec;

    open spec fn view(&self) -> TokenSpec {
        TokenSpec {
            kind: self.token_type,
            lexeme: self.lexeme@,
            literal: self.literal@,
            line: self.line as nat,
        }
    }
}

/// The models of a sequence of tokens, in order.
pub open spec fn token_views(tokens: Seq<Token>) -> Seq<TokenSpec> {
    Seq::new(tokens.len(), |i: int| tokens[i]@)
}

impl TokenSpec {
    /// A token with its line left out: what stays the same when only the
    /// layout of the source changes.
    pub open spec fn content(self) -> (TokenType, Seq<char>, LiteralSpec) {
        (self.kind, self.lexeme, self.literal)
    }

    /// A token carries a string exactly if it is a string token, a number
    /// exactly if it is a number token, and nothing otherwise.
    pub open spec fn literal_matches_kind(self) -> bool {
        &&& self.kind == TokenType::STRING <==> self.literal is String
        &&& self.kind == TokenType::NUMBER <==> self.literal is Number
    }
}

} // verus!
