//! Which words are numbers.
//!
//! A number is an optional sign, then `inf`, `infinity` or `nan` in any case, or
//! decimal digits with an optional point among or round them and an optional exponent.

use vstd::prelude::*;
use vstd::slice::slice_subrange;

verus! {

/// Whether a character is a decimal digit.
pub open spec fn digit_char(c: char) -> bool {
    '0' <= c && c <= '9'
}

/// How many digits text starts with.
pub open spec fn digit_run(text: Seq<char>) -> nat
    decreases text.len(),
{
    if text.len() > 0 && digit_char(text[0]) {
        1 + digit_run(text.skip(1))
    } else {
        0
    }
}

/// Text without one sign at its start.
pub open spec fn unsigned(text: Seq<char>) -> Seq<char> {
    if text.len() > 0 && (text[0] == '+' || text[0] == '-') {
        text.skip(1)
    } else {
        text
    }
}

/// Whether text is one or more digits and nothing else.
pub open spec fn digits_only(text: Seq<char>) -> bool {
    text.len() > 0 && digit_run(text) == text.len()
}

/// Whether text is an exponent, or nothing.
pub open spec fn exponent_or_nothing(text: Seq<char>) -> bool {
    text.len() == 0 || ((text[0] == 'e' || text[0] == 'E') && digits_only(unsigned(text.skip(1))))
}

/// Whether text is digits with an optional point and an optional exponent.
pub open spec fn plain_number(text: Seq<char>) -> bool {
    let whole = digit_run(text);
    let rest = text.skip(whole as int);
    if rest.len() > 0 && rest[0] == '.' {
        let part = digit_run(rest.skip(1));
        whole + part > 0 && exponent_or_nothing(rest.skip(1 + part as int))
    } else {
        whole > 0 && exponent_or_nothing(rest)
    }
}

/// Whether a character is a letter, in either case. `low` and `high` are its two forms.
pub open spec fn letter(c: char, low: char, high: char) -> bool {
    c == low || c == high
}

/// Whether text is `inf`, `infinity` or `nan` in any case.
pub open spec fn named_number(text: Seq<char>) -> bool {
    ||| {
        &&& text.len() == 3
        &&& letter(text[0], 'n', 'N')
        &&& letter(text[1], 'a', 'A')
        &&& letter(text[2], 'n', 'N')
    }
    ||| {
        &&& text.len() == 3 || text.len() == 8
        &&& letter(text[0], 'i', 'I')
        &&& letter(text[1], 'n', 'N')
        &&& letter(text[2], 'f', 'F')
        &&& text.len() == 8 ==> {
            &&& letter(text[3], 'i', 'I')
            &&& letter(text[4], 'n', 'N')
            &&& letter(text[5], 'i', 'I')
            &&& letter(text[6], 't', 'T')
            &&& letter(text[7], 'y', 'Y')
        }
    }
}

/// Whether text is a number.
pub open spec fn number_text(text: Seq<char>) -> bool {
    named_number(unsigned(text)) || plain_number(unsigned(text))
}

fn is_digit(c: char) -> (answer: bool)
    ensures
        answer == digit_char(c),
{
    '0' <= c && c <= '9'
}

fn is_letter(c: char, low: char, high: char) -> (answer: bool)
    ensures
        answer == letter(c, low, high),
{
    c == low || c == high
}

proof fn lemma_run_fits(text: Seq<char>)
    ensures
        digit_run(text) <= text.len(),
    decreases text.len(),
{
    if text.len() > 0 && digit_char(text[0]) {
        lemma_run_fits(text.skip(1));
    }
}

/// How many digits text starts with.
fn count_digits(text: &[char]) -> (count: usize)
    ensures
        count == digit_run(text@),
        count <= text@.len(),
{
    let mut i: usize = 0;
    proof {
        assert(text@.skip(0) =~= text@);
        lemma_run_fits(text@);
    }
    while i < text.len() && is_digit(text[i])
        invariant
            i <= text@.len(),
            digit_run(text@) == i + digit_run(text@.skip(i as int)),
        decreases text@.len() - i,
    {
        proof {
            assert(text@.skip(i as int).skip(1) =~= text@.skip(i + 1));
        }
        i = i + 1;
    }
    i
}

fn rest_of<'a>(text: &'a [char], from: usize) -> (rest: &'a [char])
    requires
        from <= text@.len(),
    ensures
        rest@ == text@.skip(from as int),
{
    proof {
        assert(text@.subrange(from as int, text@.len() as int) =~= text@.skip(from as int));
    }
    slice_subrange(text, from, text.len())
}

fn strip_sign<'a>(text: &'a [char]) -> (rest: &'a [char])
    ensures
        rest@ == unsigned(text@),
{
    if text.len() > 0 && (text[0] == '+' || text[0] == '-') {
        rest_of(text, 1)
    } else {
        text
    }
}

fn is_exponent_or_nothing(text: &[char]) -> (answer: bool)
    ensures
        answer == exponent_or_nothing(text@),
{
    if text.len() == 0 {
        return true;
    }
    if !is_letter(text[0], 'e', 'E') {
        return false;
    }
    let power: &[char] = strip_sign(rest_of(text, 1));
    power.len() > 0 && count_digits(power) == power.len()
}

fn is_plain_number(text: &[char]) -> (answer: bool)
    ensures
        answer == plain_number(text@),
{
    let whole: usize = count_digits(text);
    let rest: &[char] = rest_of(text, whole);
    if rest.len() > 0 && rest[0] == '.' {
        let tail: &[char] = rest_of(rest, 1);
        let part: usize = count_digits(tail);
        let last: &[char] = rest_of(tail, part);
        proof {
            assert(rest@.skip(1).skip(part as int) =~= rest@.skip(1 + part as int));
        }
        (whole > 0 || part > 0) && is_exponent_or_nothing(last)
    } else {
        whole > 0 && is_exponent_or_nothing(rest)
    }
}

fn is_named_number(text: &[char]) -> (answer: bool)
    ensures
        answer == named_number(text@),
{
    let size: usize = text.len();
    if size != 3 && size != 8 {
        return false;
    }
    if size == 3 && is_letter(text[0], 'n', 'N') && is_letter(text[1], 'a', 'A') && is_letter(
        text[2],
        'n',
        'N',
    ) {
        return true;
    }
    let short: bool = is_letter(text[0], 'i', 'I') && is_letter(text[1], 'n', 'N') && is_letter(
        text[2],
        'f',
        'F',
    );
    short && (size == 3 || (is_letter(text[3], 'i', 'I') && is_letter(text[4], 'n', 'N')
        && is_letter(text[5], 'i', 'I') && is_letter(text[6], 't', 'T') && is_letter(
        text[7],
        'y',
        'Y',
    )))
}

/// Whether text is a number.
pub fn is_number(text: &[char]) -> (answer: bool)
    ensures
        answer == number_text(text@),
{
    let body: &[char] = strip_sign(text);
    is_named_number(body) || is_plain_number(body)
}

} // verus!
