//! The scanner: executable code that walks a source text once, from left to
//! right, and is proved to give the tokens and diagnostics of the grammar.

use crate::decimal::Decimal;
use crate::diagnostic::{diagnostic_views, Diagnostic, DiagnosticKind};
use crate::grammar::{
    block_comment_end, diagnostics_from, diagnostics_of, keyword_table, lex, lex_identifier,
    lemma_lex_advances, lex_number, lex_string, tokens_from, tokens_of, Outcome,
};
use crate::laws::{
    lemma_lines_never_decrease, lemma_literals_match_kinds, lemma_numbers_always_parse,
    lemma_single_end_of_input, lemma_string_round_trip,
};
use crate::text;
use crate::text::{
    char_at, chars_of, lemma_line_step, lemma_newlines_bounded, line_at, run_end, Run,
};
use crate::token::{token_views, Literal, Token, TokenType};
use vstd::hash_map::StringHashMap;
use vstd::prelude::*;

verus! {

/// What reading one lexeme gave.
enum Scanned {
    /// A token.
    Emitted(Token),
    /// Nothing: the lexeme was a blank or a comment.
    Skipped,
    /// A diagnostic: the lexeme is malformed and gives no token.
    Rejected(Diagnostic),
}

impl View for Scanned {
    type V = Outcome;

    closed spec fn view(&self) -> Outcome {
        match *self {
            Scanned::Emitted(token) => Outcome::Emitted(token@),
            Scanned::Skipped => Outcome::Skipped,
            Scanned::Rejected(diagnostic) => Outcome::Rejected(diagnostic@),
        }
    }
}

/// `String::push`: appends one character to the end of the string and
/// leaves what it held before unchanged.
#[verifier::external_body]
fn push_char(text: &mut String, c: char)
    ensures
        final(text)@ == old(text)@.push(c),
{
    text.push(c);
}

/// A scanner for one source text.
#[derive(Debug)]
pub struct Scanner {
    source: String,
    /// The characters of the source, closed by one NUL.
    chars: Vec<char>,
}

impl Scanner {
    /// The source text.
    pub closed spec fn view(&self) -> Seq<char> {
        self.source@
    }

    #[verifier::type_invariant]
    spec fn well_formed(&self) -> bool {
        self.chars@ == self.source@.push('\0')
    }

    /// A scanner for `source`.
    #[must_use]
    pub fn new(source: String) -> (scanner: Self)
        ensures
            scanner@ == source@,
    {
        let mut chars = chars_of(source.as_str());
        chars.push('\0');
        Self { source, chars }
    }

    /// The tokens of the source, in the order of the text and closed by the
    /// end-of-input token. Malformed lexemes give no token; the scan goes on
    /// behind them.
    ///
    /// The result is exactly what the grammar gives for the source. In
    /// particular its last token, and no other, is the end-of-input token;
    /// line numbers never decrease along it; a token holds a string exactly
    /// if it is a string token, and a number exactly if it is a number token;
    /// and putting a string token's value back between two double quotes
    /// gives its lexeme.
    #[must_use]
    pub fn scan_tokens(&self) -> (tokens: Vec<Token>)
        ensures
            token_views(tokens@) == tokens_of(self@),
            tokens@.len() >= 1,
            tokens@.last().token_type == TokenType::EOF,
            forall|i: int|
                0 <= i < tokens@.len() - 1 ==> (#[trigger] tokens@[i]).token_type != TokenType::EOF,
            forall|i: int, j: int|
                0 <= i <= j < tokens@.len() ==> (#[trigger] tokens@[i]).line <= (
                #[trigger] tokens@[j]).line,
            forall|i: int|
                0 <= i < tokens@.len() ==> (#[trigger] tokens@[i])@.literal_matches_kind(),
            forall|i: int|
                0 <= i < tokens@.len() && (#[trigger] tokens@[i]).token_type == TokenType::STRING
                    ==> tokens@[i].literal@ is String && tokens@[i].lexeme@ == seq!['"']
                    + tokens@[i].literal@->String_0 + seq!['"'],
    {
        let (tokens, _) = self.scan();
        proof {
            lemma_single_end_of_input(self@);
            lemma_lines_never_decrease(self@);
            lemma_literals_match_kinds(self@);
            lemma_string_round_trip(self@);
            assert forall|i: int| 0 <= i < tokens@.len() implies (#[trigger] tokens@[i])@
                == tokens_of(self@)[i] by {
                assert(token_views(tokens@)[i] == tokens@[i]@);
            }
        }
        tokens
    }

    /// The tokens of the source, as [`Scanner::scan_tokens`] gives them, and
    /// with them the diagnostics for the lexemes that gave none, in the
    /// order of the text.
    ///
    /// No diagnostic ever reports a number that could not be read: what
    /// starts with a digit always denotes a number.
    #[must_use]
    pub fn scan(&self) -> (scanned: (Vec<Token>, Vec<Diagnostic>))
        ensures
            token_views(scanned.0@) == tokens_of(self@),
            diagnostic_views(scanned.1@) == diagnostics_of(self@),
            forall|i: int|
                0 <= i < scanned.1@.len() ==> (#[trigger] scanned.1@[i]).kind
                    != DiagnosticKind::NumberParseFailure,
    {
        let keywords = Self::keywords();
        let len: usize = self.len();
        let mut tokens: Vec<Token> = Vec::new();
        let mut diagnostics: Vec<Diagnostic> = Vec::new();
        let mut current: usize = 0;
        let mut line: usize = 1;
        assert(token_views(tokens@) + tokens_from(self@, 0) == tokens_of(self@));
        assert(diagnostic_views(diagnostics@) + diagnostics_from(self@, 0) == diagnostics_of(
            self@,
        ));
        while current < len
            invariant
                len == self@.len(),
                current <= len,
                line == line_at(self@, current as int),
                keywords@ == keyword_table(),
                token_views(tokens@) + tokens_from(self@, current as int) == tokens_of(self@),
                diagnostic_views(diagnostics@) + diagnostics_from(self@, current as int)
                    == diagnostics_of(self@),
            decreases len - current,
        {
            let start: usize = current;
            let ghost tokens_before = tokens@;
            let ghost diagnostics_before = diagnostics@;
            proof {
                lemma_lex_advances(self@, start as int);
            }
            match self.scan_token(&keywords, &mut current, start, &mut line) {
                Scanned::Emitted(token) => {
                    tokens.push(token);
                    assert(token_views(tokens@) == token_views(tokens_before).push(token@));
                },
                Scanned::Skipped => {},
                Scanned::Rejected(diagnostic) => {
                    diagnostics.push(diagnostic);
                    assert(diagnostic_views(diagnostics@) == diagnostic_views(
                        diagnostics_before,
                    ).push(diagnostic@));
                },
            }
            assert(token_views(tokens@) + tokens_from(self@, current as int) == token_views(
                tokens_before,
            ) + tokens_from(self@, start as int));
            assert(diagnostic_views(diagnostics@) + diagnostics_from(self@, current as int)
                == diagnostic_views(diagnostics_before) + diagnostics_from(self@, start as int));
        }
        let ghost tokens_before = tokens@;
        tokens.push(Self::create_token(TokenType::EOF, String::new(), line));
        assert(token_views(tokens@) == token_views(tokens_before) + tokens_from(
            self@,
            current as int,
        ));
        assert(diagnostic_views(diagnostics@) == diagnostic_views(diagnostics@) + diagnostics_from(
            self@,
            current as int,
        ));
        proof {
            lemma_numbers_always_parse(self@);
            assert forall|i: int| 0 <= i < diagnostics@.len() implies (
            #[trigger] diagnostics@[i]).kind != DiagnosticKind::NumberParseFailure by {
                assert(diagnostic_views(diagnostics@)[i] == diagnostics@[i]@);
            }
        }
        (tokens, diagnostics)
    }

    /// The reserved words and their tokens.
    fn keywords() -> (table: StringHashMap<TokenType>)
        ensures
            table@ == keyword_table(),
    {
        let mut table: StringHashMap<TokenType> = StringHashMap::new();
        table.insert("and".to_owned(), TokenType::AND);
        table.insert("class".to_owned(), TokenType::CLASS);
        table.insert("else".to_owned(), TokenType::ELSE);
        table.insert("false".to_owned(), TokenType::FALSE);
        table.insert("for".to_owned(), TokenType::FOR);
        table.insert("fun".to_owned(), TokenType::FUN);
        table.insert("if".to_owned(), TokenType::IF);
        table.insert("nil".to_owned(), TokenType::NIL);
        table.insert("or".to_owned(), TokenType::OR);
        table.insert("print".to_owned(), TokenType::PRINT);
        table.insert("return".to_owned(), TokenType::RETURN);
        table.insert("super".to_owned(), TokenType::SUPER);
        table.insert("this".to_owned(), TokenType::THIS);
        table.insert("true".to_owned(), TokenType::TRUE);
        table.insert("var".to_owned(), TokenType::VAR);
        table.insert("while".to_owned(), TokenType::WHILE);
        table
    }

    /// A token without a value.
    fn create_token(token_type: TokenType, text: String, line: usize) -> (token: Token)
        ensures
            token.token_type == token_type,
            token.lexeme == text,
            token.literal == Literal::Absent,
            token.line == line,
    {
        Self::create_token_literal(token_type, text, Literal::Absent, line)
    }

    /// A token with all that it holds.
    fn create_token_literal(
        token_type: TokenType,
        text: String,
        literal: Literal,
        line: usize,
    ) -> (token: Token)
        ensures
            token.token_type == token_type,
            token.lexeme == text,
            token.literal == literal,
            token.line == line,
    {
        Token { token_type, lexeme: text, literal, line }
    }

    /// The number of characters of the source.
    fn len(&self) -> (len: usize)
        ensures
            len == self@.len(),
            len < usize::MAX,
    {
        proof {
            use_type_invariant(self);
        }
        self.chars.len() - 1
    }

    /// The source text from `start` up to `end`.
    fn lexeme(&self, start: usize, end: usize) -> (text: String)
        requires
            start <= end <= self@.len(),
        ensures
            text@ == self@.subrange(start as int, end as int),
    {
        proof {
            use_type_invariant(self);
        }
        let mut text = String::new();
        let mut i: usize = start;
        while i < end
            invariant
                start <= i <= end <= self@.len(),
                self.chars@ == self@.push('\0'),
                text@ == self@.subrange(start as int, i as int),
            decreases end - i,
        {
            push_char(&mut text, self.chars[i]);
            i += 1;
            assert(text@ == self@.subrange(start as int, i as int));
        }
        text
    }

    /// Reads the lexeme that starts at `start`, moves `current` behind it
    /// and `line` to the line that `current` then lies on.
    fn scan_token(
        &self,
        keywords: &StringHashMap<TokenType>,
        current: &mut usize,
        start: usize,
        line: &mut usize,
    ) -> (scanned: Scanned)
        requires
            *old(current) == start,
            start < self@.len(),
            *old(line) == line_at(self@, start as int),
            keywords@ == keyword_table(),
        ensures
            scanned@ == lex(self@, start as int).outcome,
            *final(current) == lex(self@, start as int).end,
            *final(line) == line_at(self@, *final(current) as int),
    {
        let len: usize = self.len();
        let first_line: usize = *line;
        proof {
            lemma_newlines_bounded(self@, start as int);
            lemma_line_step(self@, start as int);
        }
        let c = self.advance(current);
        match c {
            '(' => self.emit(TokenType::LEFT_PAREN, start, *current, first_line),
            ')' => self.emit(TokenType::RIGHT_PAREN, start, *current, first_line),
            '{' => self.emit(TokenType::LEFT_BRACE, start, *current, first_line),
            '}' => self.emit(TokenType::RIGHT_BRACE, start, *current, first_line),
            ',' => self.emit(TokenType::COMMA, start, *current, first_line),
            '.' => self.emit(TokenType::DOT, start, *current, first_line),
            '-' => self.emit(TokenType::MINUS, start, *current, first_line),
            '+' => self.emit(TokenType::PLUS, start, *current, first_line),
            ';' => self.emit(TokenType::SEMICOLON, start, *current, first_line),
            '*' => self.emit(TokenType::STAR, start, *current, first_line),
            '!' => {
                if self.check_next_char(current, '=') {
                    self.emit(TokenType::BANG_EQUAL, start, *current, first_line)
                } else {
                    self.emit(TokenType::BANG, start, *current, first_line)
                }
            },
            '=' => {
                if self.check_next_char(current, '=') {
                    self.emit(TokenType::EQUAL_EQUAL, start, *current, first_line)
                } else {
                    self.emit(TokenType::EQUAL, start, *current, first_line)
                }
            },
            '<' => {
                if self.check_next_char(current, '=') {
                    self.emit(TokenType::LESS_EQUAL, start, *current, first_line)
                } else {
                    self.emit(TokenType::LESS, start, *current, first_line)
                }
            },
            '>' => {
                if self.check_next_char(current, '=') {
                    self.emit(TokenType::GREATER_EQUAL, start, *current, first_line)
                } else {
                    self.emit(TokenType::GREATER, start, *current, first_line)
                }
            },
            '/' => {
                if self.check_next_char(current, '/') {
                    while *current < len && self.peek(*current) != '\n'
                        invariant
                            len == self@.len(),
                            start + 2 <= *current <= len,
                            run_end(self@, *current as int, Run::Line) == run_end(
                                self@,
                                start + 2,
                                Run::Line,
                            ),
                            *line == line_at(self@, *current as int),
                        decreases len - *current,
                    {
                        self.advance(current);
                    }
                    Scanned::Skipped
                } else if self.check_next_char(current, '*') {
                    while *current < len && !(self.peek(*current) == '*' && self.peek_next(
                        *current,
                    ) == '/')
                        invariant
                            len == self@.len(),
                            len < usize::MAX,
                            start + 2 <= *current <= len,
                            block_comment_end(self@, *current as int) == block_comment_end(
                                self@,
                                start + 2,
                            ),
                            *line == line_at(self@, *current as int),
                        decreases len - *current,
                    {
                        proof {
                            lemma_newlines_bounded(self@, *current as int);
                        }
                        if self.peek(*current) == '\n' {
                            *line += 1;
                        }
                        self.advance(current);
                    }
                    if *current < len {
                        proof {
                            lemma_line_step(self@, *current as int);
                            lemma_line_step(self@, *current + 1);
                        }
                        self.advance(current);
                        self.advance(current);
                    }
                    Scanned::Skipped
                } else {
                    self.emit(TokenType::SLASH, start, *current, first_line)
                }
            },
            '"' => self.string(current, start, line),
            ' ' | '\r' | '\t' => Scanned::Skipped,
            '\n' => {
                *line += 1;
                Scanned::Skipped
            },
            _ => {
                if Self::is_digit(c) {
                    self.number(current, start, first_line)
                } else if Self::is_alpha(c) {
                    self.identifier(keywords, current, start, first_line)
                } else {
                    Scanned::Rejected(
                        Diagnostic {
                            kind: DiagnosticKind::UnexpectedCharacter(c),
                            line: first_line,
                            start,
                            end: *current,
                        },
                    )
                }
            },
        }
    }

    /// The token of the given kind for the text from `start` up to `end`,
    /// which holds no value.
    fn emit(&self, token_type: TokenType, start: usize, end: usize, line: usize) -> (scanned:
        Scanned)
        requires
            start <= end <= self@.len(),
        ensures
            scanned matches Scanned::Emitted(token) && token.token_type == token_type
                && token.lexeme@ == self@.subrange(start as int, end as int) && token.literal
                == Literal::Absent && token.line == line,
    {
        Scanned::Emitted(Self::create_token(token_type, self.lexeme(start, end), line))
    }

    /// Reads the word whose first character, at `start`, has been consumed:
    /// a reserved word or an identifier.
    fn identifier(
        &self,
        keywords: &StringHashMap<TokenType>,
        current: &mut usize,
        start: usize,
        line: usize,
    ) -> (scanned: Scanned)
        requires
            *old(current) == start + 1,
            start < self@.len(),
            text::is_alpha(self@[start as int]),
            line == line_at(self@, start as int),
            keywords@ == keyword_table(),
        ensures
            scanned@ == lex_identifier(self@, start as int).outcome,
            *final(current) == lex_identifier(self@, start as int).end,
            line == line_at(self@, *final(current) as int),
    {
        while Self::is_alphanumeric(self.peek(*current))
            invariant
                start + 1 <= *current <= self@.len(),
                run_end(self@, *current as int, Run::Word) == run_end(
                    self@,
                    start as int,
                    Run::Word,
                ),
                line == line_at(self@, *current as int),
            decreases self@.len() - *current,
        {
            self.advance(current);
        }
        let id = self.lexeme(start, *current);
        let token_type = match keywords.get(id.as_str()) {
            Some(keyword) => *keyword,
            None => TokenType::IDENTIFIER,
        };
        Scanned::Emitted(Self::create_token(token_type, id, line))
    }

    /// Whether `c` may continue an identifier.
    pub fn is_alphanumeric(c: char) -> (b: bool)
        ensures
            b == text::is_alphanumeric(c),
    {
        Self::is_alpha(c) || Self::is_digit(c)
    }

    /// Whether `c` may start an identifier: a letter of the basic Latin
    /// alphabet, or an underscore.
    pub fn is_alpha(c: char) -> (b: bool)
        ensures
            b == text::is_alpha(c),
    {
        (c >= 'a' && c <= 'z') || (c >= 'A' && c <= 'Z') || c == '_'
    }

    /// Whether `c` is a decimal digit.
    pub fn is_digit(c: char) -> (b: bool)
        ensures
            b == text::is_digit(c),
    {
        c >= '0' && c <= '9'
    }

    /// Reads the number literal whose first digit, at `start`, has been
    /// consumed.
    fn number(&self, current: &mut usize, start: usize, line: usize) -> (scanned: Scanned)
        requires
            *old(current) == start + 1,
            start < self@.len(),
            text::is_digit(self@[start as int]),
            line == line_at(self@, start as int),
        ensures
            scanned@ == lex_number(self@, start as int).outcome,
            *final(current) == lex_number(self@, start as int).end,
            line == line_at(self@, *final(current) as int),
    {
        while Self::is_digit(self.peek(*current))
            invariant
                start + 1 <= *current <= self@.len(),
                run_end(self@, *current as int, Run::Digits) == run_end(
                    self@,
                    start as int,
                    Run::Digits,
                ),
                line == line_at(self@, *current as int),
            decreases self@.len() - *current,
        {
            self.advance(current);
        }
        if self.peek(*current) == '.' && Self::is_digit(self.peek_next(*current)) {
            let ghost whole_end = *current as int;
            self.advance(current);
            while Self::is_digit(self.peek(*current))
                invariant
                    whole_end + 1 <= *current <= self@.len(),
                    run_end(self@, *current as int, Run::Digits) == run_end(
                        self@,
                        whole_end + 1,
                        Run::Digits,
                    ),
                    line == line_at(self@, *current as int),
                decreases self@.len() - *current,
            {
                self.advance(current);
            }
        }
        let num = self.lexeme(start, *current);
        match Decimal::parse(num.as_str()) {
            Some(n) => Scanned::Emitted(
                Self::create_token_literal(TokenType::NUMBER, num, Literal::Number(n), line),
            ),
            None => Scanned::Rejected(
                Diagnostic {
                    kind: DiagnosticKind::NumberParseFailure,
                    line,
                    start,
                    end: *current,
                },
            ),
        }
    }

    /// Reads the string literal whose opening quote, at `start`, has been
    /// consumed, and counts the newlines in it.
    fn string(&self, current: &mut usize, start: usize, line: &mut usize) -> (scanned: Scanned)
        requires
            *old(current) == start + 1,
            start < self@.len(),
            self@[start as int] == '"',
            *old(line) == line_at(self@, start as int),
        ensures
            scanned@ == lex_string(self@, start as int).outcome,
            *final(current) == lex_string(self@, start as int).end,
            *final(line) == line_at(self@, *final(current) as int),
    {
        let len: usize = self.len();
        let first_line: usize = *line;
        while *current < len && self.peek(*current) != '"'
            invariant
                len == self@.len(),
                len < usize::MAX,
                start + 1 <= *current <= len,
                run_end(self@, *current as int, Run::Quoted) == run_end(
                    self@,
                    start + 1,
                    Run::Quoted,
                ),
                *line == line_at(self@, *current as int),
            decreases len - *current,
        {
            proof {
                lemma_newlines_bounded(self@, *current as int);
            }
            if self.peek(*current) == '\n' {
                *line += 1;
            }
            self.advance(current);
        }
        if *current >= len {
            return Scanned::Rejected(
                Diagnostic {
                    kind: DiagnosticKind::UnterminatedString,
                    line: *line,
                    start,
                    end: *current,
                },
            );
        }
        self.advance(current);
        let text = self.lexeme(start, *current);
        let value = self.lexeme(start + 1, *current - 1);
        Scanned::Emitted(
            Self::create_token_literal(TokenType::STRING, text, Literal::String(value), first_line),
        )
    }

    /// Consumes the character at `current` and returns it.
    fn advance(&self, current: &mut usize) -> (c: char)
        requires
            *old(current) < self@.len(),
        ensures
            *final(current) == *old(current) + 1,
            c == self@[*old(current) as int],
    {
        proof {
            use_type_invariant(self);
            assert(self.chars.len() == self@.len() + 1);
        }
        let prev: usize = *current;
        *current += 1;
        self.chars[prev]
    }

    /// The character at `current`, or NUL at the end of the source.
    fn peek(&self, current: usize) -> (c: char)
        requires
            current <= self@.len(),
        ensures
            c == char_at(self@, current as int),
    {
        proof {
            use_type_invariant(self);
        }
        self.chars[current]
    }

    /// The character behind the one at `current`, or NUL where the source
    /// ends before it.
    fn peek_next(&self, current: usize) -> (c: char)
        ensures
            c == char_at(self@, current + 1),
    {
        proof {
            use_type_invariant(self);
        }
        if current < self.chars.len() - 1 {
            self.chars[current + 1]
        } else {
            '\0'
        }
    }

    /// Consumes the character at `current` if it is `expected`, and says
    /// whether it did.
    fn check_next_char(&self, current: &mut usize, expected: char) -> (matched: bool)
        requires
            *old(current) <= self@.len(),
        ensures
            matched == (*old(current) < self@.len() && self@[*old(current) as int] == expected),
            *final(current) == if matched {
                *old(current) + 1
            } else {
                *old(current) as int
            },
    {
        proof {
            use_type_invariant(self);
        }
        if *current >= self.chars.len() - 1 {
            return false;
        }
        if self.chars[*current] != expected {
            return false;
        }
        *current += 1;
        true
    }
}

} // verus!
