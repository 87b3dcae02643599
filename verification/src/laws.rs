//! What holds of every scan: theorems about the grammar, and with it about
//! whatever the scanner returns.

use crate::decimal::{decimal_of, is_decimal_text, lemma_decimal_of_wf};
use crate::diagnostic::DiagnosticKind;
use crate::grammar::{
    block_comment_end, comment_closed, diagnostics_from, diagnostics_of, end_of_input,
    lemma_lex_advances, lex, number_end, token_position, tokens_from, tokens_of, word_kind,
    Outcome,
};
use crate::text::{
    char_at, in_run, is_digit, lemma_newlines_monotonic, lemma_run_end_bounds,
    lemma_run_end_maximal, line_at, run_end, Run,
};
use crate::token::{LiteralSpec, TokenType};
use vstd::prelude::*;

verus! {

/// No word is given the end-of-input token, a string token or a number
/// token.
pub proof fn lemma_word_kind(word: Seq<char>)
    ensures
        word_kind(word) != TokenType::EOF,
        word_kind(word) != TokenType::STRING,
        word_kind(word) != TokenType::NUMBER,
{
}

/// A run inside a slice of the text ends where the run in the whole text
/// ends, or where the slice ends if that comes first.
pub proof fn lemma_run_end_in_slice(src: Seq<char>, from: int, to: int, pos: int, kind: Run)
    requires
        0 <= from <= pos <= to <= src.len(),
    ensures
        run_end(src.subrange(from, to), pos - from, kind) == if run_end(src, pos, kind) <= to {
            run_end(src, pos, kind) - from
        } else {
            to - from
        },
    decreases to - pos,
{
    let slice = src.subrange(from, to);
    lemma_run_end_bounds(src, pos, kind);
    if pos < to {
        assert(slice[pos - from] == src[pos]);
        if in_run(kind, src[pos]) {
            lemma_run_end_in_slice(src, from, to, pos + 1, kind);
            lemma_run_end_bounds(src, pos + 1, kind);
        }
    }
}

/// A lexeme that starts with a digit always denotes a number: the scanner
/// never has to reject one.
pub proof fn lemma_number_lexeme_is_decimal(src: Seq<char>, pos: int)
    requires
        0 <= pos < src.len(),
        is_digit(src[pos]),
    ensures
        pos < number_end(src, pos) <= src.len(),
        is_decimal_text(src.subrange(pos, number_end(src, pos))),
{
    let whole_end: int = run_end(src, pos, Run::Digits);
    let end: int = number_end(src, pos);
    lemma_run_end_bounds(src, pos + 1, Run::Digits);
    lemma_run_end_maximal(src, pos, Run::Digits);
    let lexeme = src.subrange(pos, end);
    if char_at(src, whole_end) == '.' && is_digit(char_at(src, whole_end + 1)) {
        lemma_run_end_bounds(src, whole_end + 2, Run::Digits);
        lemma_run_end_in_slice(src, pos, end, pos, Run::Digits);
        lemma_run_end_in_slice(src, pos, end, whole_end + 1, Run::Digits);
        assert(lexeme[whole_end - pos] == '.');
    } else {
        lemma_run_end_in_slice(src, pos, end, pos, Run::Digits);
    }
}

/// A block comment ends at the first `*/` in its body: there is none before
/// its end, and it either ends with one or runs to the end of the text.
pub proof fn lemma_block_comment_ends_at_first_closer(src: Seq<char>, pos: int)
    requires
        0 <= pos <= src.len(),
    ensures
        forall|i: int|
            pos <= i && i + 2 < block_comment_end(src, pos) ==> !(#[trigger] src[i] == '*' && src[i
                + 1] == '/'),
        comment_closed(src, pos) || {
            &&& block_comment_end(src, pos) == src.len()
            &&& forall|i: int|
                pos <= i && i + 1 < src.len() ==> !(#[trigger] src[i] == '*' && src[i + 1] == '/')
        },
    decreases src.len() - pos,
{
    if pos + 1 < src.len() && !(src[pos] == '*' && src[pos + 1] == '/') {
        lemma_block_comment_ends_at_first_closer(src, pos + 1);
    }
}

/// What holds of a token where it is read: it is not the end-of-input
/// token; its lexeme is the text it was read from, which is not empty; its
/// line is that of its first character; and it holds a value of the kind
/// that its category calls for. A string token's lexeme is its value between
/// two double quotes, and the value holds no double quote. A number token's
/// value is the number that its lexeme denotes.
pub proof fn lemma_emitted_token(src: Seq<char>, pos: int)
    requires
        0 <= pos < src.len(),
        lex(src, pos).outcome is Emitted,
    ensures
        ({
            let end = lex(src, pos).end;
            let token = lex(src, pos).outcome->Emitted_0;
            &&& pos < end <= src.len()
            &&& token.kind != TokenType::EOF
            &&& token.lexeme == src.subrange(pos, end)
            &&& token.line == line_at(src, pos)
            &&& token.literal_matches_kind()
            &&& token.kind == TokenType::STRING ==> {
                &&& token.literal->String_0 == src.subrange(pos + 1, end - 1)
                &&& token.lexeme == seq!['"'] + token.literal->String_0 + seq!['"']
                &&& !token.literal->String_0.contains('"')
            }
            &&& token.kind == TokenType::NUMBER ==> {
                &&& is_decimal_text(token.lexeme)
                &&& token.literal->Number_0 == decimal_of(token.lexeme)
                &&& token.literal->Number_0.wf()
            }
        }),
{
    let end = lex(src, pos).end;
    let token = lex(src, pos).outcome->Emitted_0;
    lemma_lex_advances(src, pos);
    lemma_run_end_bounds(src, pos, Run::Word);
    lemma_word_kind(src.subrange(pos, run_end(src, pos, Run::Word)));
    if src[pos] == '"' {
        let close: int = run_end(src, pos + 1, Run::Quoted);
        lemma_run_end_bounds(src, pos + 1, Run::Quoted);
        lemma_run_end_maximal(src, pos + 1, Run::Quoted);
        let value = src.subrange(pos + 1, close);
        assert(token.lexeme =~= seq!['"'] + value + seq!['"']);
        assert forall|i: int| 0 <= i < value.len() implies value[i] != '"' by {
            assert(in_run(Run::Quoted, src[pos + 1 + i]));
        }
    }
    if is_digit(src[pos]) {
        lemma_number_lexeme_is_decimal(src, pos);
        lemma_decimal_of_wf(src.subrange(pos, end));
    }
}

/// Every scan gives at least the end-of-input token.
pub proof fn lemma_tokens_nonempty(src: Seq<char>, pos: int)
    ensures
        tokens_from(src, pos).len() >= 1,
    decreases src.len() - pos,
{
    if 0 <= pos < src.len() {
        lemma_lex_advances(src, pos);
        lemma_tokens_nonempty(src, lex(src, pos).end);
    }
}

/// The tokens come in the order of the text. Each token but the last is what
/// the grammar reads at the position where it starts, and the next token
/// starts at or behind its end. The last token is the end-of-input token,
/// at the end of the text.
pub proof fn lemma_token_positions(src: Seq<char>, pos: int, index: int)
    requires
        0 <= pos <= src.len(),
        0 <= index < tokens_from(src, pos).len(),
    ensures
        ({
            let tokens = tokens_from(src, pos);
            let at = token_position(src, pos, index);
            &&& pos <= at <= src.len()
            &&& index == tokens.len() - 1 ==> at == src.len() && tokens[index] == end_of_input(
                src,
            )
            &&& index < tokens.len() - 1 ==> {
                &&& at < src.len()
                &&& lex(src, at).outcome == Outcome::Emitted(tokens[index])
                &&& lex(src, at).end <= token_position(src, pos, index + 1)
            }
        }),
    decreases src.len() - pos,
{
    if pos < src.len() {
        let step = lex(src, pos);
        lemma_lex_advances(src, pos);
        lemma_tokens_nonempty(src, step.end);
        match step.outcome {
            Outcome::Emitted(token) => {
                if index == 0 {
                    lemma_token_positions(src, step.end, 0);
                } else {
                    lemma_token_positions(src, step.end, index - 1);
                }
            },
            _ => {
                lemma_token_positions(src, step.end, index);
            },
        }
    }
}

/// A later token does not start before an earlier one.
pub proof fn lemma_token_positions_ordered(src: Seq<char>, first: int, second: int)
    requires
        0 <= first <= second < tokens_of(src).len(),
    ensures
        token_position(src, 0, first) <= token_position(src, 0, second),
        first < second ==> token_position(src, 0, first) < token_position(src, 0, second),
    decreases second - first,
{
    if first < second {
        lemma_token_positions_ordered(src, first, second - 1);
        lemma_token_positions(src, 0, second - 1);
        lemma_lex_advances(src, token_position(src, 0, second - 1));
    }
}

/// The last token of a scan is the end-of-input token, and no other token
/// is.
pub proof fn lemma_single_end_of_input(src: Seq<char>)
    ensures
        tokens_of(src).len() >= 1,
        tokens_of(src).last() == end_of_input(src),
        forall|i: int|
            0 <= i < tokens_of(src).len() - 1 ==> (#[trigger] tokens_of(src)[i]).kind
                != TokenType::EOF,
{
    lemma_tokens_nonempty(src, 0);
    lemma_token_positions(src, 0, tokens_of(src).len() - 1);
    assert forall|i: int| 0 <= i < tokens_of(src).len() - 1 implies (#[trigger] tokens_of(
        src,
    )[i]).kind != TokenType::EOF by {
        lemma_token_positions(src, 0, i);
        lemma_emitted_token(src, token_position(src, 0, i));
    }
}

/// Every token stands on the line of the position where it starts.
pub proof fn lemma_token_line(src: Seq<char>, index: int)
    requires
        0 <= index < tokens_of(src).len(),
    ensures
        tokens_of(src)[index].line == line_at(src, token_position(src, 0, index)),
{
    lemma_token_positions(src, 0, index);
    if index < tokens_of(src).len() - 1 {
        lemma_emitted_token(src, token_position(src, 0, index));
    }
}

/// Line numbers never decrease along the tokens of a scan.
pub proof fn lemma_lines_never_decrease(src: Seq<char>)
    ensures
        forall|i: int, j: int|
            0 <= i <= j < tokens_of(src).len() ==> (#[trigger] tokens_of(src)[i]).line <= (
            #[trigger] tokens_of(src)[j]).line,
{
    assert forall|i: int, j: int| 0 <= i <= j < tokens_of(src).len() implies (#[trigger] tokens_of(
        src,
    )[i]).line <= (#[trigger] tokens_of(src)[j]).line by {
        lemma_token_line(src, i);
        lemma_token_line(src, j);
        lemma_token_positions_ordered(src, i, j);
        lemma_newlines_monotonic(src, token_position(src, 0, i), token_position(src, 0, j));
    }
}

/// Every token holds a value of the kind that its category calls for: a
/// string token a string, a number token a number, any other token nothing.
pub proof fn lemma_literals_match_kinds(src: Seq<char>)
    ensures
        forall|i: int|
            0 <= i < tokens_of(src).len() ==> (#[trigger] tokens_of(src)[i]).literal_matches_kind(),
{
    assert forall|i: int| 0 <= i < tokens_of(src).len() implies (#[trigger] tokens_of(
        src,
    )[i]).literal_matches_kind() by {
        lemma_token_positions(src, 0, i);
        if i < tokens_of(src).len() - 1 {
            lemma_emitted_token(src, token_position(src, 0, i));
        }
    }
}

/// Putting a string token's value back between two double quotes gives its
/// lexeme, character for character, and the value holds no double quote.
pub proof fn lemma_string_round_trip(src: Seq<char>)
    ensures
        forall|i: int|
            0 <= i < tokens_of(src).len() && (#[trigger] tokens_of(src)[i]).kind
                == TokenType::STRING ==> {
                let token = tokens_of(src)[i];
                &&& token.literal is String
                &&& token.lexeme == seq!['"'] + token.literal->String_0 + seq!['"']
                &&& !token.literal->String_0.contains('"')
            },
{
    assert forall|i: int|
        0 <= i < tokens_of(src).len() && (#[trigger] tokens_of(src)[i]).kind
            == TokenType::STRING implies {
        let token = tokens_of(src)[i];
        &&& token.literal is String
        &&& token.lexeme == seq!['"'] + token.literal->String_0 + seq!['"']
        &&& !token.literal->String_0.contains('"')
    } by {
        lemma_token_positions(src, 0, i);
        if i < tokens_of(src).len() - 1 {
            lemma_emitted_token(src, token_position(src, 0, i));
        }
    }
}

/// A number token's value is the number that its lexeme denotes.
pub proof fn lemma_number_values(src: Seq<char>)
    ensures
        forall|i: int|
            0 <= i < tokens_of(src).len() && (#[trigger] tokens_of(src)[i]).kind
                == TokenType::NUMBER ==> {
                let token = tokens_of(src)[i];
                &&& is_decimal_text(token.lexeme)
                &&& token.literal == LiteralSpec::Number(decimal_of(token.lexeme))
                &&& decimal_of(token.lexeme).wf()
            },
{
    assert forall|i: int|
        0 <= i < tokens_of(src).len() && (#[trigger] tokens_of(src)[i]).kind
            == TokenType::NUMBER implies {
        let token = tokens_of(src)[i];
        &&& is_decimal_text(token.lexeme)
        &&& token.literal == LiteralSpec::Number(decimal_of(token.lexeme))
        &&& decimal_of(token.lexeme).wf()
    } by {
        lemma_token_positions(src, 0, i);
        if i < tokens_of(src).len() - 1 {
            lemma_emitted_token(src, token_position(src, 0, i));
        }
    }
}

/// What holds of every diagnostic from `pos` on: it covers at least one
/// character of the text at or behind `pos`, and it never reports a number
/// that could not be read.
pub proof fn lemma_diagnostics_from(src: Seq<char>, pos: int)
    requires
        0 <= pos <= src.len(),
    ensures
        forall|i: int|
            0 <= i < diagnostics_from(src, pos).len() ==> {
                let diagnostic = #[trigger] diagnostics_from(src, pos)[i];
                &&& pos <= diagnostic.start < diagnostic.end <= src.len()
                &&& diagnostic.line == line_at(src, diagnostic.end as int)
                &&& diagnostic.kind != DiagnosticKind::NumberParseFailure
            },
    decreases src.len() - pos,
{
    if pos < src.len() {
        let step = lex(src, pos);
        lemma_lex_advances(src, pos);
        lemma_diagnostics_from(src, step.end);
        if is_digit(src[pos]) {
            lemma_number_lexeme_is_decimal(src, pos);
        }
        let rest = diagnostics_from(src, step.end);
        assert forall|i: int| 0 <= i < diagnostics_from(src, pos).len() implies {
            let diagnostic = #[trigger] diagnostics_from(src, pos)[i];
            &&& pos <= diagnostic.start < diagnostic.end <= src.len()
            &&& diagnostic.line == line_at(src, diagnostic.end as int)
            &&& diagnostic.kind != DiagnosticKind::NumberParseFailure
        } by {
            match step.outcome {
                Outcome::Rejected(diagnostic) => {
                    if i > 0 {
                        assert(diagnostics_from(src, pos)[i] == rest[i - 1]);
                    }
                },
                _ => {},
            }
        }
    }
}

/// No scan reports a number that could not be read: what starts with a
/// digit always denotes a number.
pub proof fn lemma_numbers_always_parse(src: Seq<char>)
    ensures
        forall|i: int|
            0 <= i < diagnostics_of(src).len() ==> (#[trigger] diagnostics_of(src)[i]).kind
                != DiagnosticKind::NumberParseFailure,
{
    lemma_diagnostics_from(src, 0);
}

} // verus!
