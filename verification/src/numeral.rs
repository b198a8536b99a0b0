//! Reading a cell's value from one line of input.
//!
//! The line is taken without the white space at its two ends. What is left
//! counts where it is a decimal numeral, with or without a plus sign before
//! it, of a value that a cell can hold. Every other line counts as zero.

use vstd::prelude::*;
use vstd::std_specs::iter::IteratorSpec;

verus! {

/// White space: the characters that are dropped from the ends of a line.
pub open spec fn is_space(c: char) -> bool {
    let code = c as u32;
    ||| 0x09 <= code <= 0x0D
    ||| code == 0x20
    ||| code == 0x85
    ||| code == 0xA0
    ||| code == 0x1680
    ||| 0x2000 <= code <= 0x200A
    ||| code == 0x2028
    ||| code == 0x2029
    ||| code == 0x202F
    ||| code == 0x205F
    ||| code == 0x3000
}

/// A decimal digit.
pub open spec fn is_digit(c: char) -> bool {
    '0' <= c <= '9'
}

/// `text` without the white space at its start.
pub open spec fn trim_start(text: Seq<char>) -> Seq<char>
    decreases text.len(),
{
    if text.len() > 0 && is_space(text[0]) {
        trim_start(text.drop_first())
    } else {
        text
    }
}

/// `text` without the white space at its end.
pub open spec fn trim_end(text: Seq<char>) -> Seq<char>
    decreases text.len(),
{
    if text.len() > 0 && is_space(text.last()) {
        trim_end(text.drop_last())
    } else {
        text
    }
}

/// `text` without the white space at its two ends.
pub open spec fn trimmed(text: Seq<char>) -> Seq<char> {
    trim_end(trim_start(text))
}

/// The number that a sequence of decimal digits writes.
pub open spec fn decimal(digits: Seq<char>) -> nat
    decreases digits.len(),
{
    if digits.len() == 0 {
        0
    } else {
        (decimal(digits.drop_last()) * 10 + (digits.last() as u32 - '0' as u32)) as nat
    }
}

/// `text` without one plus sign at its start.
pub open spec fn unsigned_part(text: Seq<char>) -> Seq<char> {
    if text.len() > 0 && text[0] == '+' {
        text.drop_first()
    } else {
        text
    }
}

/// The number that `text` writes, where it is a numeral: at least one
/// decimal digit and nothing else, but for one plus sign that may stand
/// first.
pub open spec fn numeral(text: Seq<char>) -> Option<nat> {
    let digits = unsigned_part(text);
    if digits.len() > 0 && (forall|i: int| 0 <= i < digits.len() ==> is_digit(digits[i])) {
        Some(decimal(digits))
    } else {
        None
    }
}

/// The value that a line of input gives a cell.
pub open spec fn cell_of_line(line: Seq<char>) -> u8 {
    match numeral(trimmed(line)) {
        Some(value) => if value <= 255 {
            value as u8
        } else {
            0
        },
        None => 0,
    }
}

/// The number written grows with every digit that is appended.
pub proof fn lemma_decimal_grows(digits: Seq<char>, n: int)
    requires
        0 <= n <= digits.len(),
        forall|i: int| 0 <= i < digits.len() ==> is_digit(digits[i]),
    ensures
        decimal(digits.take(n)) <= decimal(digits),
    decreases digits.len() - n,
{
    if n < digits.len() {
        lemma_decimal_grows(digits, n + 1);
        assert(digits.take(n + 1).drop_last() == digits.take(n));
    } else {
        assert(digits.take(n) == digits);
    }
}

/// Dropping white space from the start of a text whose first `n` characters
/// are white space is the same as dropping those `n` first.
pub proof fn lemma_trim_start_skips(text: Seq<char>, n: int)
    requires
        0 <= n <= text.len(),
        forall|i: int| 0 <= i < n ==> is_space(text[i]),
    ensures
        trim_start(text) == trim_start(text.skip(n)),
    decreases n,
{
    if n > 0 {
        lemma_trim_start_skips(text, n - 1);
        assert(text.skip(n - 1).drop_first() == text.skip(n));
    } else {
        assert(text.skip(0) == text);
    }
}

/// Dropping white space from the end of a text that holds only white space
/// from position `n` on is the same as dropping all from `n` on first.
pub proof fn lemma_trim_end_takes(text: Seq<char>, n: int)
    requires
        0 <= n <= text.len(),
        forall|i: int| n <= i < text.len() ==> is_space(text[i]),
    ensures
        trim_end(text) == trim_end(text.take(n)),
    decreases text.len() - n,
{
    if n < text.len() {
        lemma_trim_end_takes(text.drop_last(), n);
        assert(text.drop_last().take(n) == text.take(n));
    } else {
        assert(text.take(n) == text);
    }
}

/// The characters of `text`, in order.
pub fn chars_of(text: &str) -> (chars: Vec<char>)
    ensures
        chars@ == text@,
{
    let mut chars: Vec<char> = Vec::new();
    let mut rest = text.chars();
    loop
        invariant_except_break
            rest.remaining() == text@.skip(chars@.len() as int),
        invariant
            chars@.len() <= text@.len(),
            chars@ == text@.take(chars@.len() as int),
        ensures
            chars@ == text@,
        decreases text@.len() - chars@.len(),
    {
        match rest.next() {
            None => {
                break ;
            },
            Some(c) => {
                chars.push(c);
            },
        }
    }
    chars
}

/// Whether `c` is white space.
pub fn is_space_char(c: char) -> (space: bool)
    ensures
        space == is_space(c),
{
    let code = c as u32;
    (0x09 <= code && code <= 0x0D) || code == 0x20 || code == 0x85 || code == 0xA0 || code
        == 0x1680 || (0x2000 <= code && code <= 0x200A) || code == 0x2028 || code == 0x2029
        || code == 0x202F || code == 0x205F || code == 0x3000
}

/// The value that one line of input gives a cell: the number it writes, or
/// zero where it writes none that a cell can hold.
pub fn parse_cell(line: &str) -> (value: u8)
    ensures
        value == cell_of_line(line@),
{
    let chars = chars_of(line);
    let mut from: usize = 0;
    while from < chars.len() && is_space_char(chars[from])
        invariant
            from <= chars.len(),
            forall|i: int| 0 <= i < from ==> is_space(chars@[i]),
        decreases chars.len() - from,
    {
        from += 1;
    }
    let mut to: usize = chars.len();
    while to > from && is_space_char(chars[to - 1])
        invariant
            from <= to <= chars.len(),
            forall|i: int| to <= i < chars.len() ==> is_space(chars@[i]),
        decreases to,
    {
        to -= 1;
    }
    let ghost text = chars@.subrange(from as int, to as int);
    proof {
        let tail = chars@.skip(from as int);
        lemma_trim_start_skips(chars@, from as int);
        assert(trim_start(tail) == tail);
        lemma_trim_end_takes(tail, to - from);
        assert(trim_end(text) == text);
    }
    let mut at: usize = from;
    if at < to && chars[at] == '+' {
        at += 1;
    }
    let first: usize = at;
    let ghost digits = chars@.subrange(first as int, to as int);
    assert(unsigned_part(text) == digits);
    if at == to {
        return 0;
    }
    let mut value: u32 = 0;
    while at < to
        invariant
            first <= at <= to <= chars.len(),
            first < to,
            digits == chars@.subrange(first as int, to as int),
            digits == unsigned_part(trimmed(line@)),
            forall|i: int| 0 <= i < at - first ==> is_digit(digits[i]),
            value == decimal(digits.take(at - first)),
            value <= 255,
        decreases to - at,
    {
        let c = chars[at];
        if !('0' <= c && c <= '9') {
            assert(!is_digit(digits[at - first]));
            return 0;
        }
        assert(digits.take(at - first + 1).drop_last() == digits.take(at - first));
        value = value * 10 + (c as u32 - '0' as u32);
        if value > 255 {
            proof {
                if forall|i: int| 0 <= i < digits.len() ==> is_digit(digits[i]) {
                    lemma_decimal_grows(digits, at - first + 1);
                }
            }
            return 0;
        }
        at += 1;
    }
    assert(digits.take(at - first) == digits);
    value as u8
}

/// Stores in a cell the value that one line of input gives it.
pub fn user_input(cell_value: &mut u8, line: &str)
    ensures
        *final(cell_value) == cell_of_line(line@),
{
    *cell_value = parse_cell(line);
}

} // verus!
