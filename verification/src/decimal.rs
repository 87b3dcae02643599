//! Exact decimal numbers: the value of a number literal.
//!
//! A number literal is a run of digits, optionally followed by a dot and a
//! second run of digits. Its value is kept as written, digit by digit, so
//! that nothing is lost to rounding.

use crate::scanner::Scanner;
use crate::text::{chars_of, is_digit, lemma_run_end_bounds, lemma_run_end_maximal, run_end, Run};
use vstd::prelude::*;

verus! {

/// A non-negative decimal number: the digits before the decimal point and
/// the digits after it, most significant first, each between 0 and 9.
#[derive(Clone, Debug, PartialEq, Eq, Hash)]
pub struct Decimal {
    pub whole: Vec<u8>,
    pub fraction: Vec<u8>,
}

/// The mathematical model of a [`Decimal`].
pub struct DecimalSpec {
    pub whole: Seq<u8>,
    pub fraction: Seq<u8>,
}

impl DecimalSpec {
    /// At least one digit stands before the point, and every digit is
    /// between 0 and 9.
    pub open spec fn wf(self) -> bool {
        &&& self.whole.len() >= 1
        &&& forall|i: int| 0 <= i < self.whole.len() ==> #[trigger] self.whole[i] <= 9
        &&& forall|i: int| 0 <= i < self.fraction.len() ==> #[trigger] self.fraction[i] <= 9
    }
}

impl View for Decimal {
    type V = DecimalSpec;

    open spec fn view(&self) -> DecimalSpec {
        DecimalSpec { whole: self.whole@, fraction: self.fraction@ }
    }
}

/// The value of a digit character.
pub open spec fn digit_value(c: char) -> u8 {
    (c as u32 - '0' as u32) as u8
}

/// The values of a sequence of digit characters.
pub open spec fn digits_of(s: Seq<char>) -> Seq<u8> {
    Seq::new(s.len(), |i: int| digit_value(s[i]))
}

/// Whether `s` is a number literal: one or more digits, then nothing, or a
/// dot and one or more digits.
pub open spec fn is_decimal_text(s: Seq<char>) -> bool {
    let whole_end: int = run_end(s, 0, Run::Digits);
    &&& whole_end >= 1
    &&& whole_end == s.len() || {
        &&& s[whole_end] == '.'
        &&& whole_end + 1 < s.len()
        &&& run_end(s, whole_end + 1, Run::Digits) == s.len()
    }
}

/// The number that the literal `s` denotes.
pub open spec fn decimal_of(s: Seq<char>) -> DecimalSpec {
    let whole_end: int = run_end(s, 0, Run::Digits);
    DecimalSpec {
        whole: digits_of(s.subrange(0, whole_end)),
        fraction: if whole_end < s.len() {
            digits_of(s.subrange(whole_end + 1, s.len() as int))
        } else {
            Seq::empty()
        },
    }
}

/// The number that `s` denotes, if it is a number literal.
pub open spec fn parse_decimal(s: Seq<char>) -> Option<DecimalSpec> {
    if is_decimal_text(s) {
        Some(decimal_of(s))
    } else {
        None
    }
}

/// The number that a literal denotes is well formed.
pub proof fn lemma_decimal_of_wf(s: Seq<char>)
    requires
        is_decimal_text(s),
    ensures
        decimal_of(s).wf(),
{
    let whole_end: int = run_end(s, 0, Run::Digits);
    lemma_run_end_bounds(s, 0, Run::Digits);
    lemma_run_end_maximal(s, 0, Run::Digits);
    let d = decimal_of(s);
    assert forall|i: int| 0 <= i < d.whole.len() implies #[trigger] d.whole[i] <= 9 by {
        assert(is_digit(s[i]));
    }
    if whole_end < s.len() {
        lemma_run_end_maximal(s, whole_end + 1, Run::Digits);
        assert forall|i: int| 0 <= i < d.fraction.len() implies #[trigger] d.fraction[i] <= 9 by {
            assert(is_digit(s[whole_end + 1 + i]));
        }
    }
}

/// The end of the run of digits that starts at `pos`.
fn digits_end(chars: &Vec<char>, pos: usize) -> (end: usize)
    requires
        pos <= chars.len(),
    ensures
        end == run_end(chars@, pos as int, Run::Digits),
        pos <= end <= chars.len(),
{
    let mut end: usize = pos;
    while end < chars.len() && Scanner::is_digit(chars[end])
        invariant
            pos <= end <= chars.len(),
            run_end(chars@, end as int, Run::Digits) == run_end(chars@, pos as int, Run::Digits),
        decreases chars.len() - end,
    {
        end += 1;
    }
    end
}

/// The values of the digits at positions `from` up to `to`.
fn digit_values(chars: &Vec<char>, from: usize, to: usize) -> (values: Vec<u8>)
    requires
        from <= to <= chars.len(),
        forall|i: int| from <= i < to ==> is_digit(#[trigger] chars@[i]),
    ensures
        values@ == digits_of(chars@.subrange(from as int, to as int)),
{
    let mut values: Vec<u8> = Vec::new();
    let mut i: usize = from;
    while i < to
        invariant
            from <= i <= to <= chars.len(),
            forall|j: int| from <= j < to ==> is_digit(#[trigger] chars@[j]),
            values@ == digits_of(chars@.subrange(from as int, i as int)),
        decreases to - i,
    {
        let c: char = chars[i];
        assert(is_digit(chars@[i as int]));
        let value: u8 = (c as u32 - '0' as u32) as u8;
        values.push(value);
        i += 1;
        assert(values@ == digits_of(chars@.subrange(from as int, i as int)));
    }
    values
}

impl Decimal {
    /// Reads a number literal. Returns the number that `text` denotes if it
    /// is a run of digits, optionally followed by a dot and another run of
    /// digits, and `None` for any other text.
    pub fn parse(text: &str) -> (parsed: Option<Decimal>)
        ensures
            parsed is Some <==> is_decimal_text(text@),
            parsed matches Some(d) ==> d@ == decimal_of(text@) && d@.wf(),
    {
        let chars = chars_of(text);
        let len: usize = chars.len();
        let whole_end: usize = digits_end(&chars, 0);
        if whole_end == 0 {
            return None;
        }
        proof {
            lemma_run_end_maximal(chars@, 0, Run::Digits);
        }
        let whole = digit_values(&chars, 0, whole_end);
        if whole_end == len {
            let parsed = Decimal { whole, fraction: Vec::new() };
            proof {
                lemma_decimal_of_wf(text@);
            }
            return Some(parsed);
        }
        if chars[whole_end] != '.' || whole_end + 1 >= len {
            return None;
        }
        let end: usize = digits_end(&chars, whole_end + 1);
        if end != len {
            return None;
        }
        proof {
            lemma_run_end_maximal(chars@, whole_end + 1, Run::Digits);
            lemma_decimal_of_wf(text@);
        }
        let fraction = digit_values(&chars, whole_end + 1, len);
        Some(Decimal { whole, fraction })
    }
}

} // verus!
