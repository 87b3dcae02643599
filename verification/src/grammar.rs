//! The lexical grammar: which tokens and diagnostics a source text gives.
//!
//! Scanning is a walk over the text. At each position the rule [`lex`] reads
//! one lexeme, which yields a token, nothing (blanks and comments) or a
//! diagnostic, and the walk goes on behind it until the text is used up.

use crate::decimal::parse_decimal;
use crate::diagnostic::{DiagnosticKind, DiagnosticSpec};
use crate::text::{char_at, is_alpha, is_digit, lemma_run_end_bounds, line_at, run_end, Run};
use crate::token::{LiteralSpec, TokenSpec, TokenType};
use vstd::prelude::*;

verus! {

/// The token that a punctuation character stands for.
pub open spec fn punctuation(c: char) -> Option<TokenType> {
    match c {
        '(' => Some(TokenType::LEFT_PAREN),
        ')' => Some(TokenType::RIGHT_PAREN),
        '{' => Some(TokenType::LEFT_BRACE),
        '}' => Some(TokenType::RIGHT_BRACE),
        ',' => Some(TokenType::COMMA),
        '.' => Some(TokenType::DOT),
        '-' => Some(TokenType::MINUS),
        '+' => Some(TokenType::PLUS),
        ';' => Some(TokenType::SEMICOLON),
        '*' => Some(TokenType::STAR),
        _ => None,
    }
}

/// For a character that starts an operator: the token it forms alone, and
/// the token it forms together with a following `=`.
pub open spec fn operator(c: char) -> Option<(TokenType, TokenType)> {
    match c {
        '!' => Some((TokenType::BANG, TokenType::BANG_EQUAL)),
        '=' => Some((TokenType::EQUAL, TokenType::EQUAL_EQUAL)),
        '<' => Some((TokenType::LESS, TokenType::LESS_EQUAL)),
        '>' => Some((TokenType::GREATER, TokenType::GREATER_EQUAL)),
        _ => None,
    }
}

/// Space, carriage return, tab and newline separate tokens and form none.
pub open spec fn is_blank(c: char) -> bool {
    c == ' ' || c == '\r' || c == '\t' || c == '\n'
}

/// The reserved words and their tokens.
pub open spec fn keyword_table() -> Map<Seq<char>, TokenType> {
    map![
        "and"@ => TokenType::AND,
        "class"@ => TokenType::CLASS,
        "else"@ => TokenType::ELSE,
        "false"@ => TokenType::FALSE,
        "for"@ => TokenType::FOR,
        "fun"@ => TokenType::FUN,
        "if"@ => TokenType::IF,
        "nil"@ => TokenType::NIL,
        "or"@ => TokenType::OR,
        "print"@ => TokenType::PRINT,
        "return"@ => TokenType::RETURN,
        "super"@ => TokenType::SUPER,
        "this"@ => TokenType::THIS,
        "true"@ => TokenType::TRUE,
        "var"@ => TokenType::VAR,
        "while"@ => TokenType::WHILE,
    ]
}

/// The token of a word: that of the reserved word it spells, or an
/// identifier.
pub open spec fn word_kind(word: Seq<char>) -> TokenType {
    if keyword_table().contains_key(word) {
        keyword_table()[word]
    } else {
        TokenType::IDENTIFIER
    }
}

/// Where a block comment ends whose body starts at `pos`: just behind the
/// first `*` that is immediately followed by `/`, or at the end of the text
/// if there is none. Comments do not nest.
pub open spec fn block_comment_end(src: Seq<char>, pos: int) -> int
    decreases src.len() - pos,
{
    if pos < 0 || pos + 1 >= src.len() {
        if pos <= src.len() {
            src.len() as int
        } else {
            pos
        }
    } else if src[pos] == '*' && src[pos + 1] == '/' {
        pos + 2
    } else {
        block_comment_end(src, pos + 1)
    }
}

/// The block comment whose body starts at `pos` is closed by `*/`.
pub open spec fn comment_closed(src: Seq<char>, pos: int) -> bool {
    let end: int = block_comment_end(src, pos);
    pos + 2 <= end <= src.len() && src[end - 2] == '*' && src[end - 1] == '/'
}

/// What reading one lexeme gives.
pub enum Outcome {
    /// A token.
    Emitted(TokenSpec),
    /// Nothing: the lexeme was a blank or a comment.
    Skipped,
    /// A diagnostic: the lexeme is malformed and gives no token.
    Rejected(DiagnosticSpec),
}

/// One step of the scan: where the lexeme ends and what it gives.
pub struct Lexed {
    pub end: int,
    pub outcome: Outcome,
}

/// The lexeme from `start` to `end` gives a token of the given kind, on the
/// line of its first character.
pub open spec fn emitted(
    src: Seq<char>,
    start: int,
    end: int,
    kind: TokenType,
    literal: LiteralSpec,
) -> Lexed {
    Lexed {
        end,
        outcome: Outcome::Emitted(
            TokenSpec {
                kind,
                lexeme: src.subrange(start, end),
                literal,
                line: line_at(src, start),
            },
        ),
    }
}

/// The text up to `end` gives nothing.
pub open spec fn skipped(end: int) -> Lexed {
    Lexed { end, outcome: Outcome::Skipped }
}

/// The lexeme from `start` to `end` is malformed; the diagnostic names the
/// line that the scan has reached behind it.
pub open spec fn rejected(src: Seq<char>, start: int, end: int, kind: DiagnosticKind) -> Lexed {
    Lexed {
        end,
        outcome: Outcome::Rejected(
            DiagnosticSpec { kind, line: line_at(src, end), start: start as nat, end: end as nat },
        ),
    }
}

/// A slash at `pos`: a line comment up to the end of the line, a block
/// comment, or the division operator.
pub open spec fn lex_slash(src: Seq<char>, pos: int) -> Lexed {
    if char_at(src, pos + 1) == '/' {
        skipped(run_end(src, pos + 2, Run::Line))
    } else if char_at(src, pos + 1) == '*' {
        skipped(block_comment_end(src, pos + 2))
    } else {
        emitted(src, pos, pos + 1, TokenType::SLASH, LiteralSpec::Absent)
    }
}

/// A double quote at `pos`: a string literal up to the next double quote,
/// whose value is the text between the two, taken as it stands. Without a
/// closing quote the rest of the text is rejected.
pub open spec fn lex_string(src: Seq<char>, pos: int) -> Lexed {
    let close: int = run_end(src, pos + 1, Run::Quoted);
    if close < src.len() {
        emitted(
            src,
            pos,
            close + 1,
            TokenType::STRING,
            LiteralSpec::String(src.subrange(pos + 1, close)),
        )
    } else {
        rejected(src, pos, close, DiagnosticKind::UnterminatedString)
    }
}

/// Where the number literal ends that starts at `pos`: behind the longest
/// run of digits and, if a dot and a digit follow it, behind the longest run
/// of digits after that dot. A dot that no digit follows is left alone.
pub open spec fn number_end(src: Seq<char>, pos: int) -> int {
    let whole_end: int = run_end(src, pos, Run::Digits);
    if char_at(src, whole_end) == '.' && is_digit(char_at(src, whole_end + 1)) {
        run_end(src, whole_end + 1, Run::Digits)
    } else {
        whole_end
    }
}

/// A digit at `pos`: a number literal with the number it denotes.
pub open spec fn lex_number(src: Seq<char>, pos: int) -> Lexed {
    let end: int = number_end(src, pos);
    match parse_decimal(src.subrange(pos, end)) {
        Some(number) => emitted(src, pos, end, TokenType::NUMBER, LiteralSpec::Number(number)),
        None => rejected(src, pos, end, DiagnosticKind::NumberParseFailure),
    }
}

/// A letter or underscore at `pos`: the longest run of letters, digits and
/// underscores, which is a reserved word or an identifier.
pub open spec fn lex_identifier(src: Seq<char>, pos: int) -> Lexed {
    let end: int = run_end(src, pos, Run::Word);
    emitted(src, pos, end, word_kind(src.subrange(pos, end)), LiteralSpec::Absent)
}

/// Reads the lexeme that starts at `pos`, by its first character.
pub open spec fn lex(src: Seq<char>, pos: int) -> Lexed
    recommends
        0 <= pos < src.len(),
{
    let c: char = src[pos];
    match punctuation(c) {
        Some(kind) => emitted(src, pos, pos + 1, kind, LiteralSpec::Absent),
        None => match operator(c) {
            Some((alone, with_equal)) => if char_at(src, pos + 1) == '=' {
                emitted(src, pos, pos + 2, with_equal, LiteralSpec::Absent)
            } else {
                emitted(src, pos, pos + 1, alone, LiteralSpec::Absent)
            },
            None => if c == '/' {
                lex_slash(src, pos)
            } else if is_blank(c) {
                skipped(pos + 1)
            } else if c == '"' {
                lex_string(src, pos)
            } else if is_digit(c) {
                lex_number(src, pos)
            } else if is_alpha(c) {
                lex_identifier(src, pos)
            } else {
                rejected(src, pos, pos + 1, DiagnosticKind::UnexpectedCharacter(c))
            },
        },
    }
}

/// The token that closes every scan: it has no text and stands on the line
/// that the end of the source lies on.
pub open spec fn end_of_input(src: Seq<char>) -> TokenSpec {
    TokenSpec {
        kind: TokenType::EOF,
        lexeme: Seq::empty(),
        literal: LiteralSpec::Absent,
        line: line_at(src, src.len() as int),
    }
}

/// The tokens of the text from `pos` on, closed by the end-of-input token.
pub open spec fn tokens_from(src: Seq<char>, pos: int) -> Seq<TokenSpec>
    decreases src.len() - pos,
    via tokens_from_terminates
{
    if 0 <= pos < src.len() {
        let step = lex(src, pos);
        match step.outcome {
            Outcome::Emitted(token) => seq![token] + tokens_from(src, step.end),
            _ => tokens_from(src, step.end),
        }
    } else {
        seq![end_of_input(src)]
    }
}

/// The diagnostics of the text from `pos` on.
pub open spec fn diagnostics_from(src: Seq<char>, pos: int) -> Seq<DiagnosticSpec>
    decreases src.len() - pos,
    via diagnostics_from_terminates
{
    if 0 <= pos < src.len() {
        let step = lex(src, pos);
        match step.outcome {
            Outcome::Rejected(diagnostic) => seq![diagnostic] + diagnostics_from(src, step.end),
            _ => diagnostics_from(src, step.end),
        }
    } else {
        Seq::empty()
    }
}

/// The position at which token number `index` of `tokens_from(src, pos)`
/// starts; for the end-of-input token, the end of the text.
pub open spec fn token_position(src: Seq<char>, pos: int, index: int) -> int
    decreases src.len() - pos,
    via token_position_terminates
{
    if 0 <= pos < src.len() {
        let step = lex(src, pos);
        match step.outcome {
            Outcome::Emitted(_) => if index <= 0 {
                pos
            } else {
                token_position(src, step.end, index - 1)
            },
            _ => token_position(src, step.end, index),
        }
    } else {
        src.len() as int
    }
}

/// The tokens of a source text.
pub open spec fn tokens_of(src: Seq<char>) -> Seq<TokenSpec> {
    tokens_from(src, 0)
}

/// The diagnostics of a source text.
pub open spec fn diagnostics_of(src: Seq<char>) -> Seq<DiagnosticSpec> {
    diagnostics_from(src, 0)
}

/// A block comment ends behind its start and inside the text.
pub proof fn lemma_block_comment_end_bounds(src: Seq<char>, pos: int)
    requires
        0 <= pos <= src.len(),
    ensures
        pos <= block_comment_end(src, pos) <= src.len(),
    decreases src.len() - pos,
{
    if pos + 1 < src.len() && !(src[pos] == '*' && src[pos + 1] == '/') {
        lemma_block_comment_end_bounds(src, pos + 1);
    }
}

/// A block comment that ends before the text does is closed by `*/`.
pub proof fn lemma_comment_closed(src: Seq<char>, pos: int)
    requires
        0 <= pos,
        block_comment_end(src, pos) < src.len(),
    ensures
        comment_closed(src, pos),
    decreases src.len() - pos,
{
    if pos + 1 < src.len() && !(src[pos] == '*' && src[pos + 1] == '/') {
        lemma_comment_closed(src, pos + 1);
    }
}

/// Every step of the scan uses up at least one character and stays inside
/// the text, so the scan ends.
pub proof fn lemma_lex_advances(src: Seq<char>, pos: int)
    requires
        0 <= pos < src.len(),
    ensures
        pos < lex(src, pos).end <= src.len(),
{
    let c: char = src[pos];
    lemma_run_end_bounds(src, pos + 1, Run::Quoted);
    lemma_run_end_bounds(src, pos + 1, Run::Digits);
    lemma_run_end_bounds(src, pos + 1, Run::Word);
    let whole_end: int = run_end(src, pos, Run::Digits);
    if whole_end + 1 <= src.len() {
        lemma_run_end_bounds(src, whole_end + 1, Run::Digits);
    }
    if pos + 2 <= src.len() {
        lemma_run_end_bounds(src, pos + 2, Run::Line);
        lemma_block_comment_end_bounds(src, pos + 2);
    }
}

#[via_fn]
proof fn tokens_from_terminates(src: Seq<char>, pos: int) {
    if 0 <= pos < src.len() {
        lemma_lex_advances(src, pos);
    }
}

#[via_fn]
proof fn token_position_terminates(src: Seq<char>, pos: int, index: int) {
    if 0 <= pos < src.len() {
        lemma_lex_advances(src, pos);
    }
}

#[via_fn]
proof fn diagnostics_from_terminates(src: Seq<char>, pos: int) {
    if 0 <= pos < src.len() {
        lemma_lex_advances(src, pos);
    }
}

} // verus!
