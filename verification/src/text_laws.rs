//! What holds of every text that is trimmed, divided, cut into lines or written in decimal.

use vstd::prelude::*;
use crate::text::{
    after_start, decimal, digit, divided, found_from, lemma_found_fits, lines_of, stands_at, starts,
    trimmed, trimmed_end, trimmed_start, white, without_end, without_start,
};

verus! {

/// Whether text is white space alone.
pub open spec fn blank(text: Seq<char>) -> bool {
    forall|i: int| 0 <= i < text.len() ==> white(#[trigger] text[i])
}

/// Whether text neither starts nor ends with white space.
pub open spec fn bare(text: Seq<char>) -> bool {
    text.len() > 0 ==> !white(text[0]) && !white(text[text.len() - 1])
}

/// Whether a character stands nowhere in text.
pub open spec fn free_of(text: Seq<char>, c: char) -> bool {
    forall|i: int| 0 <= i < text.len() ==> #[trigger] text[i] != c
}

pub proof fn lemma_trimmed_start(before: Seq<char>, text: Seq<char>)
    requires
        blank(before),
        text.len() > 0 ==> !white(text[0]),
    ensures
        trimmed_start(before + text) == text,
    decreases before.len(),
{
    let all = before + text;
    if before.len() > 0 {
        assert(all[0] == before[0]);
        assert(white(before[0]));
        let rest = before.skip(1);
        assert(all.skip(1) =~= rest + text);
        assert(blank(rest)) by {
            assert forall|i: int| 0 <= i < rest.len() implies white(#[trigger] rest[i]) by {
                assert(rest[i] == before[i + 1]);
            }
        }
        lemma_trimmed_start(rest, text);
    } else {
        assert(all =~= text);
    }
}

pub proof fn lemma_trimmed_end(text: Seq<char>, after: Seq<char>)
    requires
        blank(after),
        text.len() > 0 ==> !white(text[text.len() - 1]),
    ensures
        trimmed_end(text + after) == text,
    decreases after.len(),
{
    let all = text + after;
    if after.len() > 0 {
        assert(all.last() == after[after.len() - 1]);
        let rest = after.drop_last();
        assert(all.drop_last() =~= text + rest);
        assert(blank(rest)) by {
            assert forall|i: int| 0 <= i < rest.len() implies white(#[trigger] rest[i]) by {
                assert(rest[i] == after[i]);
            }
        }
        lemma_trimmed_end(text, rest);
    } else {
        assert(all =~= text);
    }
}

/// Trimming takes off the white space at both ends of a text, and nothing else.
pub proof fn law_trimming_takes_off_what_is_round_a_text(
    before: Seq<char>,
    text: Seq<char>,
    after: Seq<char>,
)
    requires
        blank(before),
        bare(text),
        blank(after),
    ensures
        trimmed(before + text + after) == text,
{
    let all = before + text + after;
    if text.len() > 0 {
        assert(all =~= before + (text + after));
        assert((text + after)[0] == text[0]);
        lemma_trimmed_start(before, text + after);
        lemma_trimmed_end(text, after);
    } else {
        assert(blank(before + after)) by {
            assert forall|i: int| 0 <= i < (before + after).len() implies white(
                #[trigger] (before + after)[i],
            ) by {
                if i < before.len() {
                    assert((before + after)[i] == before[i]);
                } else {
                    assert((before + after)[i] == after[i - before.len()]);
                }
            }
        }
        assert(all =~= (before + after) + text);
        lemma_trimmed_start(before + after, text);
        assert(trimmed_end(text) == text);
    }
}

/// Text that is bare is not changed by trimming.
pub proof fn lemma_trimmed_bare(text: Seq<char>)
    requires
        bare(text),
    ensures
        trimmed(text) == text,
        trimmed_start(text) == text,
{
    law_trimming_takes_off_what_is_round_a_text(Seq::empty(), text, Seq::empty());
    assert(Seq::<char>::empty() + text + Seq::<char>::empty() =~= text);
    lemma_trimmed_start(Seq::empty(), text);
    assert(Seq::<char>::empty() + text =~= text);
}

proof fn lemma_found_first(text: Seq<char>, part: Seq<char>, from: int, place: int)
    requires
        0 <= from <= place,
        stands_at(text, part, place),
        forall|i: int| from <= i < place ==> !#[trigger] stands_at(text, part, i),
    ensures
        found_from(text, part, from) == Some(place),
    decreases place - from,
{
    if from < place {
        assert(!stands_at(text, part, from));
        lemma_found_first(text, part, from + 1, place);
    }
}

proof fn lemma_found_is_first(text: Seq<char>, part: Seq<char>, from: int)
    requires
        0 <= from,
    ensures
        match found_from(text, part, from) {
            Some(place) => {
                &&& from <= place
                &&& stands_at(text, part, place)
                &&& forall|i: int| from <= i < place ==> !#[trigger] stands_at(text, part, i)
            },
            None => forall|i: int| from <= i ==> !#[trigger] stands_at(text, part, i),
        },
    decreases text.len() + 1 - from,
{
    if from + part.len() > text.len() {
    } else if stands_at(text, part, from) {
    } else {
        lemma_found_is_first(text, part, from + 1);
    }
}

/// Dividing a text at a part gives what stands before the first such part and what stands
/// after it, and gives nothing exactly where the part stands nowhere in the text.
pub proof fn law_dividing_is_at_the_first_place(text: Seq<char>, part: Seq<char>)
    ensures
        match divided(text, part) {
            Some((before, after)) => {
                &&& text == before + part + after
                &&& forall|i: int|
                    0 <= i < before.len() ==> !#[trigger] stands_at(text, part, i)
            },
            None => forall|i: int| !#[trigger] stands_at(text, part, i),
        },
{
    lemma_found_is_first(text, part, 0);
    if let Some((before, after)) = divided(text, part) {
        lemma_found_fits(text, part, 0);
        let place = before.len() as int;
        assert forall|i: int| 0 <= i < text.len() implies #[trigger] text[i] == (before + part
            + after)[i] by {
            if place <= i < place + part.len() {
                assert(text.subrange(place, place + part.len())[i - place] == part[i - place]);
            }
        }
        assert(text =~= before + part + after);
    }
}

/// A text put together round a character is divided there, where the character does not
/// stand in the first half.
pub proof fn law_what_is_put_together_is_divided_again(
    before: Seq<char>,
    mark: char,
    after: Seq<char>,
)
    requires
        free_of(before, mark),
    ensures
        divided(before + seq![mark] + after, seq![mark]) == Some((before, after)),
{
    let text = before + seq![mark] + after;
    let place = before.len() as int;
    assert(text.subrange(place, place + 1) =~= seq![mark]);
    assert forall|i: int| 0 <= i < place implies !#[trigger] stands_at(text, seq![mark], i) by {
        if stands_at(text, seq![mark], i) {
            assert(text.subrange(i, i + 1)[0] == mark);
            assert(text[i] == before[i]);
        }
    }
    lemma_found_first(text, seq![mark], 0, place);
    assert(text.take(place) =~= before);
    assert(text.skip(place + 1) =~= after);
}

pub proof fn lemma_divided_at(before: Seq<char>, part: Seq<char>, after: Seq<char>)
    requires
        part.len() > 0,
        free_of(before, part[0]),
    ensures
        divided(before + part + after, part) == Some((before, after)),
{
    let text = before + part + after;
    let place = before.len() as int;
    assert(text.subrange(place, place + part.len()) =~= part);
    assert forall|i: int| 0 <= i < place implies !#[trigger] stands_at(text, part, i) by {
        if stands_at(text, part, i) {
            assert(text.subrange(i, i + part.len())[0] == part[0]);
            assert(text[i] == before[i]);
        }
    }
    lemma_found_first(text, part, 0, place);
    assert(text.take(place) =~= before);
    assert(text.skip(place + part.len()) =~= after);
}

pub proof fn lemma_not_divided(text: Seq<char>, mark: char)
    requires
        free_of(text, mark),
    ensures
        divided(text, seq![mark]) is None,
{
    lemma_found_is_first(text, seq![mark], 0);
    if let Some(place) = found_from(text, seq![mark], 0) {
        assert(text.subrange(place, place + 1)[0] == mark);
        assert(text[place] == mark);
    }
}

/// What follows a start that was put before a text is the text.
pub proof fn law_a_start_is_taken_off(start: Seq<char>, text: Seq<char>)
    ensures
        after_start(start + text, start) == Some(text),
{
    let all = start + text;
    assert(all.subrange(0, start.len() as int) =~= start);
    assert(all.skip(start.len() as int) =~= text);
}

pub proof fn lemma_starts_otherwise(text: Seq<char>, start: Seq<char>, place: int)
    requires
        0 <= place < start.len(),
        place < text.len() ==> text[place] != start[place],
    ensures
        !starts(text, start),
        after_start(text, start) is None,
        without_start(text, start) == text,
{
    if starts(text, start) {
        assert(text.subrange(0, start.len() as int)[place] == text[place]);
    }
}

/// The first line of a text is what stands before its first line feed, without a carriage
/// return right before that; the other lines are the lines of what stands after it.
pub proof fn law_the_first_line_ends_at_the_first_line_feed(line: Seq<char>, rest: Seq<char>)
    requires
        free_of(line, '\n'),
        line.len() > 0 ==> line[line.len() - 1] != '\r',
    ensures
        lines_of(line + seq!['\n'] + rest) == seq![line] + lines_of(rest),
        lines_of(line + seq!['\r'] + seq!['\n'] + rest) == seq![line] + lines_of(rest),
        line.len() > 0 ==> lines_of(line) == seq![line],
{
    law_what_is_put_together_is_divided_again(line, '\n', rest);
    let text = line + seq!['\n'] + rest;
    lemma_found_fits(text, seq!['\n'], 0);
    assert(text.take(line.len() as int) =~= line);
    assert(text.skip(line.len() as int + 1) =~= rest);
    let other = line + seq!['\r'];
    law_what_is_put_together_is_divided_again(other, '\n', rest);
    let longer = other + seq!['\n'] + rest;
    lemma_found_fits(longer, seq!['\n'], 0);
    assert(longer.take(other.len() as int) =~= other);
    assert(longer.skip(other.len() as int + 1) =~= rest);
    assert(other.drop_last() =~= line);
    if line.len() > 0 {
        lemma_not_divided(line, '\n');
    }
}

/// The number a decimal digit stands for.
pub open spec fn digit_value(c: char) -> int {
    c as int - '0' as int
}

/// The number that decimal digits stand for, the last counting ones.
pub open spec fn read_decimal(text: Seq<char>) -> int
    decreases text.len(),
{
    if text.len() == 0 {
        0
    } else {
        10 * read_decimal(text.drop_last()) + digit_value(text.last())
    }
}

/// A number in decimal is digits that stand for that number, the first not a zero unless it
/// is the only one.
pub proof fn law_a_number_in_decimal_reads_back(value: nat)
    ensures
        read_decimal(decimal(value)) == value,
        decimal(value).len() > 0,
        forall|i: int|
            0 <= i < decimal(value).len() ==> '0' <= #[trigger] decimal(value)[i] <= '9',
        value > 0 ==> decimal(value)[0] != '0',
    decreases value,
{
    let text = decimal(value);
    if value < 10 {
        assert(text.drop_last() =~= Seq::empty());
        assert(read_decimal(text.drop_last()) == 0);
        assert(digit_value(digit(value)) == value);
    } else {
        law_a_number_in_decimal_reads_back(value / 10);
        assert(text.drop_last() =~= decimal(value / 10));
        assert(digit_value(digit(value % 10)) == value % 10);
        assert forall|i: int| 0 <= i < text.len() implies '0' <= #[trigger] text[i] <= '9' by {
            if i < text.len() - 1 {
                assert(text[i] == decimal(value / 10)[i]);
            }
        }
    }
}

/// Numbers in decimal are told apart by their digits.
pub proof fn law_numbers_in_decimal_differ(value: nat, other: nat)
    requires
        decimal(value) == decimal(other),
    ensures
        value == other,
{
    law_a_number_in_decimal_reads_back(value);
    law_a_number_in_decimal_reads_back(other);
}

/// Spaces, tabs and line ends are white space; letters, digits and marks are not.
pub proof fn law_spaces_and_line_ends_are_white(c: char)
    ensures
        white(' ') && white('\t') && white('\n') && white('\r'),
        '!' <= c <= '~' ==> !white(c),
{
}

/// A start or an end that is taken off is taken off however often it stands there.
pub proof fn law_what_is_taken_off_is_taken_off_wholly(part: Seq<char>, text: Seq<char>, c: char)
    requires
        part.len() > 0,
    ensures
        without_start(part + text, part) == without_start(text, part),
        !starts(text, part) ==> without_start(text, part) == text,
        without_end(text.push(c), c) == without_end(text, c),
        text.len() == 0 || text[text.len() - 1] != c ==> without_end(text, c) == text,
{
    law_a_start_is_taken_off(part, text);
    assert(text.push(c).drop_last() =~= text);
}

} // verus!
