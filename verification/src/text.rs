//! Source text as a sequence of characters: character classes, maximal runs
//! and line numbers.

use vstd::prelude::*;

verus! {

/// A decimal digit, `0` to `9`.
pub open spec fn is_digit(c: char) -> bool {
    '0' <= c && c <= '9'
}

/// A letter of the basic Latin alphabet, or an underscore.
pub open spec fn is_alpha(c: char) -> bool {
    ('a' <= c && c <= 'z') || ('A' <= c && c <= 'Z') || c == '_'
}

/// A character that may continue an identifier.
pub open spec fn is_alphanumeric(c: char) -> bool {
    is_alpha(c) || is_digit(c)
}

/// The character at `pos`, or NUL where `pos` lies outside the text.
pub open spec fn char_at(src: Seq<char>, pos: int) -> char {
    if 0 <= pos < src.len() {
        src[pos]
    } else {
        '\0'
    }
}

/// What a run of characters is made of.
#[derive(Clone, Copy, Debug, PartialEq, Eq, Structural)]
pub enum Run {
    /// Decimal digits.
    Digits,
    /// Letters, digits and underscores.
    Word,
    /// Anything but a newline.
    Line,
    /// Anything but a double quote.
    Quoted,
}

/// Whether `c` belongs to a run of the given kind.
pub open spec fn in_run(kind: Run, c: char) -> bool {
    match kind {
        Run::Digits => is_digit(c),
        Run::Word => is_alphanumeric(c),
        Run::Line => c != '\n',
        Run::Quoted => c != '"',
    }
}

/// The end of the longest run of the given kind that starts at `pos`: the
/// first position from `pos` on that holds no character of the run.
pub open spec fn run_end(src: Seq<char>, pos: int, kind: Run) -> int
    decreases src.len() - pos,
{
    if 0 <= pos < src.len() && in_run(kind, src[pos]) {
        run_end(src, pos + 1, kind)
    } else {
        pos
    }
}

/// The number of newlines among the first `pos` characters.
pub open spec fn newlines_before(src: Seq<char>, pos: int) -> nat
    decreases pos,
{
    if pos <= 0 {
        0
    } else if pos <= src.len() && src[pos - 1] == '\n' {
        newlines_before(src, pos - 1) + 1
    } else {
        newlines_before(src, pos - 1)
    }
}

/// The 1-based line on which position `pos` lies.
pub open spec fn line_at(src: Seq<char>, pos: int) -> nat {
    newlines_before(src, pos) + 1
}

/// A run ends at or after its start, and inside the text when it starts there.
pub proof fn lemma_run_end_bounds(src: Seq<char>, pos: int, kind: Run)
    ensures
        pos <= run_end(src, pos, kind),
        0 <= pos <= src.len() ==> run_end(src, pos, kind) <= src.len(),
    decreases src.len() - pos,
{
    if 0 <= pos < src.len() && in_run(kind, src[pos]) {
        lemma_run_end_bounds(src, pos + 1, kind);
    }
}

/// Maximal munch: every character of a run belongs to it, and the run stops
/// only at the end of the text or at a character that does not belong.
pub proof fn lemma_run_end_maximal(src: Seq<char>, pos: int, kind: Run)
    requires
        0 <= pos <= src.len(),
    ensures
        forall|i: int| pos <= i < run_end(src, pos, kind) ==> in_run(kind, #[trigger] src[i]),
        run_end(src, pos, kind) == src.len() || !in_run(kind, src[run_end(src, pos, kind)]),
    decreases src.len() - pos,
{
    if pos < src.len() && in_run(kind, src[pos]) {
        lemma_run_end_maximal(src, pos + 1, kind);
    }
}

/// A position is the end of the run from `pos` if all before it belongs to
/// the run and it does not.
pub proof fn lemma_run_end_unique(src: Seq<char>, pos: int, end: int, kind: Run)
    requires
        0 <= pos <= end <= src.len(),
        forall|i: int| pos <= i < end ==> in_run(kind, #[trigger] src[i]),
        end == src.len() || !in_run(kind, src[end]),
    ensures
        run_end(src, pos, kind) == end,
    decreases end - pos,
{
    if pos < end {
        assert(in_run(kind, src[pos]));
        lemma_run_end_unique(src, pos + 1, end, kind);
    }
}

/// Passing a newline starts the next line; passing any other character
/// stays on the line.
pub proof fn lemma_line_step(src: Seq<char>, pos: int)
    requires
        0 <= pos < src.len(),
    ensures
        line_at(src, pos + 1) == if src[pos] == '\n' {
            line_at(src, pos) + 1
        } else {
            line_at(src, pos)
        },
{
}

/// Line numbers never decrease along the text.
pub proof fn lemma_newlines_monotonic(src: Seq<char>, from: int, to: int)
    requires
        from <= to,
    ensures
        newlines_before(src, from) <= newlines_before(src, to),
    decreases to - from,
{
    if from < to {
        lemma_newlines_monotonic(src, from, to - 1);
    }
}

/// There are no more newlines before a position than characters.
pub proof fn lemma_newlines_bounded(src: Seq<char>, pos: int)
    requires
        0 <= pos,
    ensures
        newlines_before(src, pos) <= pos,
    decreases pos,
{
    if pos > 0 {
        lemma_newlines_bounded(src, pos - 1);
    }
}

/// A stretch of text without a newline lies on one line.
pub proof fn lemma_same_line(src: Seq<char>, from: int, to: int)
    requires
        0 <= from <= to <= src.len(),
        forall|i: int| from <= i < to ==> #[trigger] src[i] != '\n',
    ensures
        newlines_before(src, to) == newlines_before(src, from),
    decreases to - from,
{
    if from < to {
        lemma_same_line(src, from, to - 1);
    }
}

/// The characters of `text`, in order, as an indexable vector.
pub fn chars_of(text: &str) -> (chars: Vec<char>)
    ensures
        chars@ == text@,
{
    let mut chars: Vec<char> = Vec::new();
    for c in iter: text.chars()
        invariant
            iter.seq() == text@,
            chars@ == text@.take(iter.index()),
    {
        chars.push(c);
        assert(text@.take(iter.index() + 1) == text@.take(iter.index()).push(c));
    }
    assert(text@.take(text@.len() as int) == text@);
    chars
}

} // verus!
