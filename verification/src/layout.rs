//! Layout does not matter: blanks and comments that are put between two
//! lexemes change no token, only the lines that later tokens stand on.

use crate::grammar::{
    block_comment_end, comment_closed, is_blank, lemma_block_comment_end_bounds,
    lemma_comment_closed, lemma_lex_advances, lex, number_end, tokens_from, tokens_of, Outcome,
};
use crate::text::{
    char_at, in_run, is_alpha, is_digit, lemma_run_end_bounds, lemma_run_end_maximal,
    lemma_run_end_unique, lemma_same_line, newlines_before, run_end, Run,
};
use crate::token::{LiteralSpec, TokenSpec, TokenType};
use vstd::prelude::*;

verus! {

/// The tokens with their lines left out.
pub open spec fn contents(tokens: Seq<TokenSpec>) -> Seq<(TokenType, Seq<char>, LiteralSpec)> {
    Seq::new(tokens.len(), |i: int| tokens[i].content())
}

/// `edited` holds the tokens of `base`, each with the same category, lexeme
/// and value, and each on the line it had or `raised` lines further down.
pub open spec fn relined(base: Seq<TokenSpec>, edited: Seq<TokenSpec>, raised: int) -> bool {
    &&& edited.len() == base.len()
    &&& forall|i: int|
        0 <= i < base.len() ==> {
            &&& (#[trigger] edited[i]).content() == base[i].content()
            &&& edited[i].line == base[i].line || edited[i].line == base[i].line + raised
        }
}

/// The scan that starts at `from` comes by position `at`: a lexeme starts
/// there, or the text ends there.
pub open spec fn boundary(src: Seq<char>, from: int, at: int) -> bool
    decreases at - from,
{
    from == at || {
        &&& 0 <= from < at <= src.len()
        &&& from < lex(src, from).end <= at
        &&& boundary(src, lex(src, from).end, at)
    }
}

/// The lexeme at `pos` reads the same when layout that starts with `next` is
/// put behind it. A line comment does so only before a newline, which ends
/// it. A block comment or a string does so only where it has been closed,
/// not where the text ended before that. A slash does so only if no slash or
/// star follows, which would turn it into a comment.
pub open spec fn closed(src: Seq<char>, pos: int, next: char) -> bool {
    if src[pos] == '/' {
        if char_at(src, pos + 1) == '/' {
            next == '\n'
        } else if char_at(src, pos + 1) == '*' {
            comment_closed(src, pos + 2)
        } else {
            next != '/' && next != '*'
        }
    } else if src[pos] == '"' {
        run_end(src, pos + 1, Run::Quoted) < src.len()
    } else {
        true
    }
}

/// Position `at` is a boundary of the scan that starts at `from`, and the
/// lexeme that ends there, if there is one, is closed for layout that starts
/// with `next`.
pub open spec fn seam(src: Seq<char>, from: int, at: int, next: char) -> bool
    decreases at - from,
{
    from == at || {
        &&& 0 <= from < at <= src.len()
        &&& from < lex(src, from).end <= at
        &&& lex(src, from).end == at ==> closed(src, from, next)
        &&& seam(src, lex(src, from).end, at, next)
    }
}

/// The scan that starts at `from` comes by position `to` and gives no token
/// and no diagnostic on the way: the text between is read as blanks and
/// comments.
pub open spec fn skips(src: Seq<char>, from: int, to: int) -> bool
    decreases to - from,
{
    from == to || {
        &&& 0 <= from < to <= src.len()
        &&& lex(src, from).outcome is Skipped
        &&& from < lex(src, from).end <= to
        &&& skips(src, lex(src, from).end, to)
    }
}

/// A comment that is complete in itself: a line comment with the newline
/// that ends it, or a block comment with its closing `*/`.
pub open spec fn complete_comment(text: Seq<char>, pos: int) -> bool {
    if char_at(text, pos + 1) == '/' {
        run_end(text, pos + 2, Run::Line) < text.len()
    } else {
        char_at(text, pos + 1) == '*' && comment_closed(text, pos + 2)
    }
}

/// From `pos` on, `text` is made of blanks and complete comments only.
pub open spec fn layout_only(text: Seq<char>, pos: int) -> bool
    decreases text.len() - pos,
{
    pos == text.len() || {
        &&& 0 <= pos < text.len()
        &&& is_blank(text[pos]) || (text[pos] == '/' && complete_comment(text, pos))
        &&& pos < lex(text, pos).end <= text.len()
        &&& layout_only(text, lex(text, pos).end)
    }
}

/// Tokens that differ in their lines at most have the same contents, and
/// are the same where no line was raised.
pub proof fn lemma_relined(base: Seq<TokenSpec>, edited: Seq<TokenSpec>, raised: int)
    requires
        relined(base, edited, raised),
    ensures
        contents(edited) == contents(base),
        raised == 0 ==> edited == base,
{
    assert(contents(edited) =~= contents(base));
    if raised == 0 {
        assert(edited =~= base);
    }
}

/// Every boundary inside the text is a seam for the character that stands
/// there: each lexeme is closed for what follows it.
pub proof fn lemma_boundary_is_seam(src: Seq<char>, from: int, at: int)
    requires
        boundary(src, from, at),
        0 <= from,
        at < src.len(),
    ensures
        seam(src, from, at, src[at]),
    decreases at - from,
{
    if from != at {
        let end: int = lex(src, from).end;
        lemma_boundary_is_seam(src, end, at);
        if end == at {
            if src[from] == '/' {
                if char_at(src, from + 1) == '/' {
                    lemma_run_end_maximal(src, from + 2, Run::Line);
                } else if char_at(src, from + 1) == '*' {
                    lemma_comment_closed(src, from + 2);
                }
            } else if src[from] == '"' {
                lemma_run_end_bounds(src, from + 1, Run::Quoted);
            }
        }
    }
}

/// Layout that is put between two lexemes changes no token. Let a lexeme of
/// `before + after` start where `before` ends, or the text end there, and
/// let the lexeme that ends there be closed for `layout`. If `layout`, put
/// in at that place, is read as blanks and comments, the scan gives the same
/// tokens as without it, each with the same category, lexeme and value, and
/// each on the line it had or as many lines further down as `layout` holds
/// newlines.
pub proof fn lemma_layout_insertion(before: Seq<char>, layout: Seq<char>, after: Seq<char>)
    requires
        seam(before + after, 0, before.len() as int, char_at(layout, 0)),
        skips(
            before + layout + after,
            before.len() as int,
            (before.len() + layout.len()) as int,
        ),
    ensures
        relined(
            tokens_of(before + after),
            tokens_of(before + layout + after),
            newlines_before(layout, layout.len() as int) as int,
        ),
{
    let base = before + after;
    let edited = before + layout + after;
    let at: int = before.len() as int;
    let by: int = layout.len() as int;
    let raised: int = newlines_before(layout, by) as int;
    if by == 0 {
        assert(edited =~= base);
    } else {
        assert(same_prefix(base, edited, at));
        assert(shifted(base, edited, at, by));
        assert(edited[at] == layout[0]);
        lemma_inserted_newlines(before, layout, after);
        lemma_skips_tokens(edited, at, at + by);
        lemma_shifted_tokens(base, edited, at, by, at);
        lemma_prefix_tokens(base, edited, at, 0, raised);
    }
}

/// Blanks and comments between two lexemes change no token. Let a lexeme of
/// `before + after` start where `before` ends, or the text end there, and
/// let the lexeme that ends there be closed for `layout`. If `layout` is
/// made of blanks and complete comments only, the scan of
/// `before + layout + after` gives the same tokens as the scan of
/// `before + after`, each with the same category, lexeme and value. Lines
/// change only where newlines come in: without a newline in `layout` the two
/// scans are the same.
pub proof fn lemma_blanks_and_comments_change_no_token(
    before: Seq<char>,
    layout: Seq<char>,
    after: Seq<char>,
)
    requires
        seam(before + after, 0, before.len() as int, char_at(layout, 0)),
        layout_only(layout, 0),
    ensures
        contents(tokens_of(before + layout + after)) == contents(tokens_of(before + after)),
        newlines_before(layout, layout.len() as int) == 0 ==> tokens_of(before + layout + after)
            == tokens_of(before + after),
{
    lemma_layout_skips(before, layout, after, 0);
    lemma_layout_insertion(before, layout, after);
    lemma_relined(
        tokens_of(before + after),
        tokens_of(before + layout + after),
        newlines_before(layout, layout.len() as int) as int,
    );
}

/// What a line comment holds does not matter. Text without a newline that
/// is put at the end of a line comment, before the newline that ends it or
/// before the end of the source, changes no token and no line.
pub proof fn lemma_line_comment_absorbs(
    before: Seq<char>,
    inserted: Seq<char>,
    after: Seq<char>,
    start: int,
)
    requires
        boundary(before + after, 0, start),
        0 <= start,
        start + 2 <= before.len(),
        before[start] == '/',
        before[start + 1] == '/',
        run_end(before + after, start + 2, Run::Line) == before.len(),
        forall|i: int| 0 <= i < inserted.len() ==> inserted[i] != '\n',
    ensures
        tokens_of(before + inserted + after) == tokens_of(before + after),
{
    let base = before + after;
    let edited = before + inserted + after;
    let at: int = before.len() as int;
    let by: int = inserted.len() as int;
    assert(same_prefix(base, edited, start));
    assert(shifted(base, edited, at, by));
    assert(base[start] == '/' && base[start + 1] == '/');
    assert(edited[start] == '/' && edited[start + 1] == '/');
    assert(run_end(edited, start + 2, Run::Line) == at + by) by {
        lemma_run_end_maximal(base, start + 2, Run::Line);
        assert forall|i: int| start + 2 <= i < at + by implies in_run(
            Run::Line,
            #[trigger] edited[i],
        ) by {
            if i < at {
                assert(edited[i] == base[i]);
            } else {
                assert(edited[i] == inserted[i - at]);
            }
        }
        if at < base.len() {
            assert(edited[at + by] == base[at]);
        }
        lemma_run_end_unique(edited, start + 2, at + by, Run::Line);
    }
    lemma_inserted_newlines(before, inserted, after);
    lemma_same_line(inserted, 0, by);
    lemma_shifted_tokens(base, edited, at, by, at);
    assert(tokens_from(base, start) == tokens_from(base, at));
    assert(tokens_from(edited, start) == tokens_from(edited, at + by));
    lemma_boundary_is_seam(base, 0, start);
    lemma_prefix_tokens(base, edited, start, 0, 0);
    lemma_relined(tokens_of(base), tokens_of(edited), 0);
}

/// What a step gives with the line left out: the content of its token, if it
/// gives one.
spec fn emitted_content(outcome: Outcome) -> Option<(TokenType, Seq<char>, LiteralSpec)> {
    match outcome {
        Outcome::Emitted(token) => Some(token.content()),
        _ => None,
    }
}

/// `edited` is `base` with `by` characters put in at position `at`: behind
/// them the two texts hold the same characters.
spec fn shifted(base: Seq<char>, edited: Seq<char>, at: int, by: int) -> bool {
    &&& 0 <= at <= base.len()
    &&& 0 <= by
    &&& edited.len() == base.len() + by
    &&& forall|i: int| at <= i < base.len() ==> #[trigger] edited[i + by] == base[i]
}

/// `edited` starts with the same `upto` characters as `base`.
spec fn same_prefix(base: Seq<char>, edited: Seq<char>, upto: int) -> bool {
    &&& 0 <= upto <= base.len()
    &&& upto <= edited.len()
    &&& forall|i: int| 0 <= i < upto ==> #[trigger] edited[i] == base[i]
}

/// A character that layout can start with: a blank, or the slash of a
/// comment.
spec fn inert(c: char) -> bool {
    is_blank(c) || c == '/'
}

proof fn lemma_relined_prepend(
    base_token: TokenSpec,
    base_rest: Seq<TokenSpec>,
    edited_token: TokenSpec,
    edited_rest: Seq<TokenSpec>,
    raised: int,
)
    requires
        relined(base_rest, edited_rest, raised),
        edited_token.content() == base_token.content(),
        edited_token.line == base_token.line || edited_token.line == base_token.line + raised,
    ensures
        relined(seq![base_token] + base_rest, seq![edited_token] + edited_rest, raised),
{
    let base = seq![base_token] + base_rest;
    let edited = seq![edited_token] + edited_rest;
    assert forall|i: int| 0 <= i < base.len() implies {
        &&& (#[trigger] edited[i]).content() == base[i].content()
        &&& edited[i].line == base[i].line || edited[i].line == base[i].line + raised
    } by {
        if i > 0 {
            assert(edited[i] == edited_rest[i - 1]);
            assert(base[i] == base_rest[i - 1]);
        }
    }
}

proof fn lemma_shifted_newlines(base: Seq<char>, edited: Seq<char>, at: int, by: int, pos: int)
    requires
        shifted(base, edited, at, by),
        at <= pos <= base.len(),
    ensures
        newlines_before(edited, pos + by) - newlines_before(edited, at + by) == newlines_before(
            base,
            pos,
        ) - newlines_before(base, at),
    decreases pos - at,
{
    if at < pos {
        lemma_shifted_newlines(base, edited, at, by, pos - 1);
        assert(edited[pos - 1 + by] == base[pos - 1]);
    }
}

proof fn lemma_prefix_newlines(base: Seq<char>, edited: Seq<char>, upto: int, pos: int)
    requires
        same_prefix(base, edited, upto),
        0 <= pos <= upto,
    ensures
        newlines_before(edited, pos) == newlines_before(base, pos),
    decreases pos,
{
    if 0 < pos {
        lemma_prefix_newlines(base, edited, upto, pos - 1);
        assert(edited[pos - 1] == base[pos - 1]);
    }
}

proof fn lemma_shifted_char(base: Seq<char>, edited: Seq<char>, at: int, by: int, pos: int)
    requires
        shifted(base, edited, at, by),
        at <= pos,
    ensures
        char_at(edited, pos + by) == char_at(base, pos),
{
    if pos < base.len() {
        assert(edited[pos + by] == base[pos]);
    }
}

proof fn lemma_shifted_slice(
    base: Seq<char>,
    edited: Seq<char>,
    at: int,
    by: int,
    from: int,
    to: int,
)
    requires
        shifted(base, edited, at, by),
        at <= from <= to <= base.len(),
    ensures
        edited.subrange(from + by, to + by) == base.subrange(from, to),
{
    assert forall|i: int| 0 <= i < to - from implies edited.subrange(from + by, to + by)[i]
        == base.subrange(from, to)[i] by {
        assert(edited[from + i + by] == base[from + i]);
    }
    assert(edited.subrange(from + by, to + by) =~= base.subrange(from, to));
}

proof fn lemma_shifted_run_end(
    base: Seq<char>,
    edited: Seq<char>,
    at: int,
    by: int,
    pos: int,
    kind: Run,
)
    requires
        shifted(base, edited, at, by),
        at <= pos,
    ensures
        run_end(edited, pos + by, kind) == run_end(base, pos, kind) + by,
    decreases base.len() - pos,
{
    if pos < base.len() {
        assert(edited[pos + by] == base[pos]);
        if in_run(kind, base[pos]) {
            lemma_shifted_run_end(base, edited, at, by, pos + 1, kind);
        }
    }
}

proof fn lemma_shifted_block_comment_end(
    base: Seq<char>,
    edited: Seq<char>,
    at: int,
    by: int,
    pos: int,
)
    requires
        shifted(base, edited, at, by),
        at <= pos,
    ensures
        block_comment_end(edited, pos + by) == block_comment_end(base, pos) + by,
    decreases base.len() - pos,
{
    if pos + 1 < base.len() {
        assert(edited[pos + by] == base[pos]);
        assert(edited[pos + 1 + by] == base[pos + 1]);
        if !(base[pos] == '*' && base[pos + 1] == '/') {
            lemma_shifted_block_comment_end(base, edited, at, by, pos + 1);
        }
    }
}

/// A lexeme behind the place where text was put in reads as before, only
/// further along.
proof fn lemma_shifted_lex(base: Seq<char>, edited: Seq<char>, at: int, by: int, pos: int)
    requires
        shifted(base, edited, at, by),
        at <= pos < base.len(),
    ensures
        lex(edited, pos + by).end == lex(base, pos).end + by,
        emitted_content(lex(edited, pos + by).outcome) == emitted_content(lex(base, pos).outcome),
        lex(base, pos).outcome matches Outcome::Emitted(token) ==> lex(
            edited,
            pos + by,
        ).outcome->Emitted_0.line == token.line + newlines_before(edited, at + by)
            - newlines_before(base, at),
{
    let end: int = lex(base, pos).end;
    lemma_lex_advances(base, pos);
    lemma_shifted_newlines(base, edited, at, by, pos);
    assert(edited[pos + by] == base[pos]);
    lemma_shifted_char(base, edited, at, by, pos + 1);
    lemma_shifted_slice(base, edited, at, by, pos, end);
    lemma_shifted_run_end(base, edited, at, by, pos, Run::Digits);
    lemma_shifted_run_end(base, edited, at, by, pos, Run::Word);
    lemma_shifted_run_end(base, edited, at, by, pos + 1, Run::Quoted);
    lemma_shifted_run_end(base, edited, at, by, pos + 2, Run::Line);
    lemma_shifted_block_comment_end(base, edited, at, by, pos + 2);
    let whole_end: int = run_end(base, pos, Run::Digits);
    lemma_run_end_bounds(base, pos, Run::Digits);
    lemma_shifted_char(base, edited, at, by, whole_end);
    lemma_shifted_char(base, edited, at, by, whole_end + 1);
    lemma_shifted_run_end(base, edited, at, by, whole_end + 1, Run::Digits);
    if base[pos] == '"' {
        let close: int = run_end(base, pos + 1, Run::Quoted);
        lemma_run_end_bounds(base, pos + 1, Run::Quoted);
        if close < base.len() {
            lemma_shifted_slice(base, edited, at, by, pos + 1, close);
        }
    }
}

/// The tokens behind the place where text was put in are the same, each as
/// many lines further down as newlines were put in.
proof fn lemma_shifted_tokens(base: Seq<char>, edited: Seq<char>, at: int, by: int, pos: int)
    requires
        shifted(base, edited, at, by),
        at <= pos <= base.len(),
    ensures
        relined(
            tokens_from(base, pos),
            tokens_from(edited, pos + by),
            newlines_before(edited, at + by) - newlines_before(base, at),
        ),
    decreases base.len() - pos,
{
    let raised = newlines_before(edited, at + by) - newlines_before(base, at);
    if pos < base.len() {
        lemma_lex_advances(base, pos);
        lemma_shifted_lex(base, edited, at, by, pos);
        let base_step = lex(base, pos);
        let edited_step = lex(edited, pos + by);
        lemma_shifted_tokens(base, edited, at, by, base_step.end);
        match base_step.outcome {
            Outcome::Emitted(token) => {
                lemma_relined_prepend(
                    token,
                    tokens_from(base, base_step.end),
                    edited_step.outcome->Emitted_0,
                    tokens_from(edited, edited_step.end),
                    raised,
                );
            },
            _ => {},
        }
    } else {
        lemma_shifted_newlines(base, edited, at, by, pos);
    }
}

proof fn lemma_prefix_slice(base: Seq<char>, edited: Seq<char>, upto: int, from: int, to: int)
    requires
        same_prefix(base, edited, upto),
        0 <= from <= to <= upto,
    ensures
        edited.subrange(from, to) == base.subrange(from, to),
{
    assert forall|i: int| 0 <= i < to - from implies edited.subrange(from, to)[i]
        == base.subrange(from, to)[i] by {
        assert(edited[from + i] == base[from + i]);
    }
    assert(edited.subrange(from, to) =~= base.subrange(from, to));
}

proof fn lemma_prefix_char(base: Seq<char>, edited: Seq<char>, upto: int, pos: int)
    requires
        same_prefix(base, edited, upto),
        0 <= pos < upto,
    ensures
        char_at(edited, pos) == char_at(base, pos),
        edited[pos] == base[pos],
{
}

/// A run that ends before `upto`, or at `upto` where the edited text has no
/// character of the run, ends at the same place in the edited text.
proof fn lemma_prefix_run_end(
    base: Seq<char>,
    edited: Seq<char>,
    upto: int,
    pos: int,
    kind: Run,
)
    requires
        same_prefix(base, edited, upto),
        0 <= pos <= upto,
        run_end(base, pos, kind) <= upto,
        run_end(base, pos, kind) == upto ==> upto == edited.len() || !in_run(kind, edited[upto]),
    ensures
        run_end(edited, pos, kind) == run_end(base, pos, kind),
    decreases upto - pos,
{
    lemma_run_end_bounds(base, pos, kind);
    if pos < upto {
        lemma_prefix_char(base, edited, upto, pos);
        if in_run(kind, base[pos]) {
            lemma_prefix_run_end(base, edited, upto, pos + 1, kind);
        }
    }
}

/// A block comment that is closed before `upto` ends at the same place in
/// the edited text.
proof fn lemma_prefix_block_comment_end(base: Seq<char>, edited: Seq<char>, upto: int, pos: int)
    requires
        same_prefix(base, edited, upto),
        0 <= pos,
        comment_closed(base, pos),
        block_comment_end(base, pos) <= upto,
    ensures
        block_comment_end(edited, pos) == block_comment_end(base, pos),
    decreases upto - pos,
{
    lemma_prefix_char(base, edited, upto, pos);
    lemma_prefix_char(base, edited, upto, pos + 1);
    if !(base[pos] == '*' && base[pos + 1] == '/') {
        lemma_prefix_block_comment_end(base, edited, upto, pos + 1);
    }
}

/// A lexeme before the seam reads the same in the edited text, if the text
/// behind the seam starts with layout and the lexeme, where it ends at the
/// seam, is closed for it.
proof fn lemma_prefix_lex(base: Seq<char>, edited: Seq<char>, upto: int, pos: int)
    requires
        same_prefix(base, edited, upto),
        0 <= pos < upto,
        lex(base, pos).end <= upto,
        upto < edited.len() ==> inert(edited[upto]),
        lex(base, pos).end == upto ==> closed(base, pos, char_at(edited, upto)),
    ensures
        lex(edited, pos).end == lex(base, pos).end,
        emitted_content(lex(edited, pos).outcome) == emitted_content(lex(base, pos).outcome),
        lex(base, pos).outcome matches Outcome::Emitted(token) ==> lex(
            edited,
            pos,
        ).outcome->Emitted_0.line == token.line,
{
    let end: int = lex(base, pos).end;
    let c: char = base[pos];
    lemma_lex_advances(base, pos);
    lemma_prefix_newlines(base, edited, upto, pos);
    lemma_prefix_char(base, edited, upto, pos);
    lemma_prefix_slice(base, edited, upto, pos, end);
    if pos + 1 < upto {
        lemma_prefix_char(base, edited, upto, pos + 1);
    }
    if c == '/' {
        if char_at(base, pos + 1) == '/' {
            lemma_run_end_bounds(base, pos + 2, Run::Line);
            lemma_prefix_run_end(base, edited, upto, pos + 2, Run::Line);
        } else if char_at(base, pos + 1) == '*' {
            lemma_block_comment_end_bounds(base, pos + 2);
            if end < upto {
                lemma_comment_closed(base, pos + 2);
            }
            lemma_prefix_block_comment_end(base, edited, upto, pos + 2);
        }
    } else if c == '"' {
        let close: int = run_end(base, pos + 1, Run::Quoted);
        lemma_run_end_bounds(base, pos + 1, Run::Quoted);
        lemma_prefix_run_end(base, edited, upto, pos + 1, Run::Quoted);
        lemma_prefix_slice(base, edited, upto, pos + 1, close);
    } else if is_digit(c) {
        let whole_end: int = run_end(base, pos, Run::Digits);
        lemma_run_end_bounds(base, pos, Run::Digits);
        if whole_end + 1 <= base.len() {
            lemma_run_end_bounds(base, whole_end + 1, Run::Digits);
        }
        if whole_end + 2 <= base.len() {
            lemma_run_end_bounds(base, whole_end + 2, Run::Digits);
        }
        lemma_prefix_run_end(base, edited, upto, pos, Run::Digits);
        if whole_end < upto {
            lemma_prefix_char(base, edited, upto, whole_end);
            if whole_end + 1 < upto {
                lemma_prefix_char(base, edited, upto, whole_end + 1);
                if number_end(base, pos) != whole_end {
                    lemma_prefix_run_end(base, edited, upto, whole_end + 1, Run::Digits);
                }
            }
        }
    } else if is_alpha(c) {
        lemma_prefix_run_end(base, edited, upto, pos, Run::Word);
    }
}

/// If the tokens from the seam on are the same, so are the tokens from any
/// lexeme before it on.
proof fn lemma_prefix_tokens(
    base: Seq<char>,
    edited: Seq<char>,
    upto: int,
    pos: int,
    raised: int,
)
    requires
        same_prefix(base, edited, upto),
        seam(base, pos, upto, char_at(edited, upto)),
        0 <= pos <= upto,
        upto < edited.len() ==> inert(edited[upto]),
        relined(tokens_from(base, upto), tokens_from(edited, upto), raised),
    ensures
        relined(tokens_from(base, pos), tokens_from(edited, pos), raised),
    decreases upto - pos,
{
    if pos < upto {
        lemma_prefix_lex(base, edited, upto, pos);
        let base_step = lex(base, pos);
        let edited_step = lex(edited, pos);
        lemma_prefix_tokens(base, edited, upto, base_step.end, raised);
        match base_step.outcome {
            Outcome::Emitted(token) => {
                lemma_relined_prepend(
                    token,
                    tokens_from(base, base_step.end),
                    edited_step.outcome->Emitted_0,
                    tokens_from(edited, edited_step.end),
                    raised,
                );
            },
            _ => {},
        }
    }
}

/// Text that is read as blanks and comments gives no token.
proof fn lemma_skips_tokens(src: Seq<char>, from: int, to: int)
    requires
        skips(src, from, to),
    ensures
        tokens_from(src, from) == tokens_from(src, to),
    decreases to - from,
{
    if from != to {
        lemma_skips_tokens(src, lex(src, from).end, to);
    }
}

/// The text behind what was put in lies as many lines further down as
/// newlines were put in.
proof fn lemma_inserted_newlines(before: Seq<char>, inserted: Seq<char>, after: Seq<char>)
    ensures
        newlines_before(before + inserted + after, (before.len() + inserted.len()) as int)
            - newlines_before(before + after, before.len() as int) == newlines_before(
            inserted,
            inserted.len() as int,
        ),
{
    let base = before + after;
    let edited = before + inserted + after;
    let tail = inserted + after;
    let at: int = before.len() as int;
    let by: int = inserted.len() as int;
    assert(same_prefix(base, edited, at));
    assert(same_prefix(inserted, tail, by));
    assert(shifted(tail, edited, 0, at)) by {
        assert forall|i: int| 0 <= i < tail.len() implies #[trigger] edited[i + at] == tail[i] by {}
    }
    lemma_shifted_newlines(tail, edited, 0, at, by);
    lemma_prefix_newlines(inserted, tail, by, by);
    lemma_prefix_newlines(base, edited, at, at);
}

/// Blanks and complete comments are read as such wherever they stand.
proof fn lemma_layout_skips(before: Seq<char>, layout: Seq<char>, after: Seq<char>, pos: int)
    requires
        layout_only(layout, pos),
        0 <= pos <= layout.len(),
    ensures
        skips(
            before + layout + after,
            before.len() + pos,
            (before.len() + layout.len()) as int,
        ),
    decreases layout.len() - pos,
{
    let tail = layout + after;
    let edited = before + layout + after;
    let at: int = before.len() as int;
    if pos < layout.len() {
        let end: int = lex(layout, pos).end;
        assert(same_prefix(layout, tail, layout.len() as int));
        assert(shifted(tail, edited, 0, at)) by {
            assert forall|i: int| 0 <= i < tail.len() implies #[trigger] edited[i + at]
                == tail[i] by {}
        }
        assert(edited[at + pos] == layout[pos]);
        if layout[pos] == '/' {
            assert(pos + 1 < layout.len());
            assert(edited[at + pos + 1] == layout[pos + 1]);
            if char_at(layout, pos + 1) == '/' {
                lemma_run_end_bounds(layout, pos + 2, Run::Line);
                lemma_prefix_run_end(layout, tail, layout.len() as int, pos + 2, Run::Line);
                lemma_shifted_run_end(tail, edited, 0, at, pos + 2, Run::Line);
            } else {
                lemma_prefix_block_comment_end(layout, tail, layout.len() as int, pos + 2);
                lemma_shifted_block_comment_end(tail, edited, 0, at, pos + 2);
            }
        }
        assert(lex(edited, at + pos).end == at + end);
        assert(lex(edited, at + pos).outcome is Skipped);
        lemma_layout_skips(before, layout, after, end);
    }
}

} // verus!
