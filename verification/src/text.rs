//! Reading and writing text, character by character.

use vstd::prelude::*;
use vstd::slice::slice_subrange;

verus! {

/// `String::push` appends one character to the end of a string and changes nothing
/// before it.
pub assume_specification[ String::push ](text: &mut String, c: char)
    ensures
        final(text)@ == old(text)@.push(c),
;

/// Whether a character is white space, as Unicode lists it.
pub open spec fn white(c: char) -> bool {
    let code = c as u32;
    ||| 0x9 <= code <= 0xd
    ||| code == 0x20
    ||| code == 0x85
    ||| code == 0xa0
    ||| code == 0x1680
    ||| 0x2000 <= code <= 0x200a
    ||| code == 0x2028
    ||| code == 0x2029
    ||| code == 0x202f
    ||| code == 0x205f
    ||| code == 0x3000
}

/// Text without the white space it starts with.
pub open spec fn trimmed_start(text: Seq<char>) -> Seq<char>
    decreases text.len(),
{
    if text.len() > 0 && white(text[0]) {
        trimmed_start(text.skip(1))
    } else {
        text
    }
}

/// Text without the white space it ends with.
pub open spec fn trimmed_end(text: Seq<char>) -> Seq<char>
    decreases text.len(),
{
    if text.len() > 0 && white(text.last()) {
        trimmed_end(text.drop_last())
    } else {
        text
    }
}

/// Text without the white space round it.
pub open spec fn trimmed(text: Seq<char>) -> Seq<char> {
    trimmed_end(trimmed_start(text))
}

/// Whether `part` stands in `text` at `place`.
pub open spec fn stands_at(text: Seq<char>, part: Seq<char>, place: int) -> bool {
    &&& 0 <= place
    &&& place + part.len() <= text.len()
    &&& text.subrange(place, place + part.len()) == part
}

/// Whether text starts with `part`.
pub open spec fn starts(text: Seq<char>, part: Seq<char>) -> bool {
    stands_at(text, part, 0)
}

/// What follows `part` in text that starts with it.
pub open spec fn after_start(text: Seq<char>, part: Seq<char>) -> Option<Seq<char>> {
    if starts(text, part) {
        Some(text.skip(part.len() as int))
    } else {
        None
    }
}

/// Text without `part` at its start, however often that stands there.
pub open spec fn without_start(text: Seq<char>, part: Seq<char>) -> Seq<char>
    decreases text.len(),
{
    if part.len() > 0 && starts(text, part) {
        without_start(text.skip(part.len() as int), part)
    } else {
        text
    }
}

/// Text without `c` at its end, however often that stands there.
pub open spec fn without_end(text: Seq<char>, c: char) -> Seq<char>
    decreases text.len(),
{
    if text.len() > 0 && text.last() == c {
        without_end(text.drop_last(), c)
    } else {
        text
    }
}

/// Where `part` first stands in text at or after `place`.
pub open spec fn found_from(text: Seq<char>, part: Seq<char>, place: int) -> Option<int>
    decreases text.len() + 1 - place,
{
    if place < 0 || place + part.len() > text.len() {
        None
    } else if stands_at(text, part, place) {
        Some(place)
    } else {
        found_from(text, part, place + 1)
    }
}

/// Where `part` first stands in text.
pub open spec fn found(text: Seq<char>, part: Seq<char>) -> Option<int> {
    found_from(text, part, 0)
}

/// What stands before and after the first `part` in text.
pub open spec fn divided(text: Seq<char>, part: Seq<char>) -> Option<(Seq<char>, Seq<char>)> {
    match found(text, part) {
        Some(place) => Some((text.take(place), text.skip(place + part.len()))),
        None => None,
    }
}

/// A line without the carriage return it ends with.
pub open spec fn without_return(line: Seq<char>) -> Seq<char> {
    if line.len() > 0 && line.last() == '\r' {
        line.drop_last()
    } else {
        line
    }
}

/// The lines of text: what stands between line feeds, without a carriage return before
/// one. Text that ends with a line feed has no empty line after it.
pub open spec fn lines_of(text: Seq<char>) -> Seq<Seq<char>>
    decreases text.len(),
{
    if text.len() == 0 {
        Seq::empty()
    } else {
        match found(text, seq!['\n']) {
            Some(place) => if 0 <= place < text.len() {
                seq![without_return(text.take(place))] + lines_of(text.skip(place + 1))
            } else {
                Seq::empty()
            },
            None => seq![text],
        }
    }
}

/// The decimal digit for a number below ten.
pub open spec fn digit(value: nat) -> char {
    if value == 0 {
        '0'
    } else if value == 1 {
        '1'
    } else if value == 2 {
        '2'
    } else if value == 3 {
        '3'
    } else if value == 4 {
        '4'
    } else if value == 5 {
        '5'
    } else if value == 6 {
        '6'
    } else if value == 7 {
        '7'
    } else if value == 8 {
        '8'
    } else {
        '9'
    }
}

/// A number in decimal.
pub open spec fn decimal(value: nat) -> Seq<char>
    decreases value,
{
    if value < 10 {
        seq![digit(value)]
    } else {
        decimal(value / 10).push(digit(value % 10))
    }
}

/// The characters of a string.
pub fn chars_of(text: &str) -> (chars: Vec<char>)
    ensures
        chars@ == text@,
{
    let mut chars: Vec<char> = Vec::new();
    for c in iter: text.chars()
        invariant
            chars@ == iter.seq().take(iter.index()),
            iter.seq() == text@,
    {
        proof {
            assert(iter.seq().take(iter.index() + 1) =~= iter.seq().take(iter.index()).push(c));
        }
        chars.push(c);
    }
    chars
}

/// A string of characters.
pub fn string_of(chars: &[char]) -> (text: String)
    ensures
        text@ == chars@,
{
    let mut text: String = String::new();
    let mut i: usize = 0;
    while i < chars.len()
        invariant
            i <= chars@.len(),
            text@ == chars@.take(i as int),
        decreases chars@.len() - i,
    {
        proof {
            assert(chars@.take(i + 1) =~= chars@.take(i as int).push(chars@[i as int]));
        }
        text.push(chars[i]);
        i = i + 1;
    }
    proof {
        assert(chars@.take(i as int) =~= chars@);
    }
    text
}

/// Whether a character is white space.
pub fn is_white(c: char) -> (answer: bool)
    ensures
        answer == white(c),
{
    let code: u32 = c as u32;
    (0x9 <= code && code <= 0xd) || code == 0x20 || code == 0x85 || code == 0xa0 || code == 0x1680
        || (0x2000 <= code && code <= 0x200a) || code == 0x2028 || code == 0x2029 || code == 0x202f
        || code == 0x205f || code == 0x3000
}

/// Text without the white space it starts with.
pub fn trim_start<'a>(text: &'a [char]) -> (answer: &'a [char])
    ensures
        answer@ == trimmed_start(text@),
{
    let mut start: usize = 0;
    proof {
        assert(text@.skip(0) =~= text@);
    }
    while start < text.len() && is_white(text[start])
        invariant
            start <= text@.len(),
            trimmed_start(text@.skip(start as int)) == trimmed_start(text@),
        decreases text@.len() - start,
    {
        proof {
            assert(text@.skip(start as int).skip(1) =~= text@.skip(start + 1));
        }
        start = start + 1;
    }
    proof {
        assert(text@.subrange(start as int, text@.len() as int) =~= text@.skip(start as int));
    }
    slice_subrange(text, start, text.len())
}

/// Text without the white space it ends with.
pub fn trim_end<'a>(text: &'a [char]) -> (answer: &'a [char])
    ensures
        answer@ == trimmed_end(text@),
{
    let mut end: usize = text.len();
    proof {
        assert(text@.take(end as int) =~= text@);
    }
    while end > 0 && is_white(text[end - 1])
        invariant
            end <= text@.len(),
            trimmed_end(text@.take(end as int)) == trimmed_end(text@),
        decreases end,
    {
        proof {
            assert(text@.take(end as int).drop_last() =~= text@.take(end - 1));
        }
        end = end - 1;
    }
    proof {
        assert(text@.subrange(0, end as int) =~= text@.take(end as int));
    }
    slice_subrange(text, 0, end)
}

/// Text without the white space round it.
pub fn trim<'a>(text: &'a [char]) -> (answer: &'a [char])
    ensures
        answer@ == trimmed(text@),
{
    trim_end(trim_start(text))
}

/// Whether `part` stands in text at `place`.
fn is_at(text: &[char], part: &[char], place: usize) -> (answer: bool)
    ensures
        answer == stands_at(text@, part@, place as int),
{
    let size: usize = text.len();
    if size < part.len() || place > size - part.len() {
        return false;
    }
    let mut i: usize = 0;
    while i < part.len()
        invariant
            i <= part@.len(),
            size == text@.len(),
            place + part@.len() <= text@.len(),
            forall|j: int| 0 <= j < i ==> text@[place + j] == part@[j],
        decreases part@.len() - i,
    {
        if text[place + i] != part[i] {
            proof {
                assert(text@.subrange(place as int, place + part@.len())[i as int] != part@[i as int]);
            }
            return false;
        }
        i = i + 1;
    }
    proof {
        assert(text@.subrange(place as int, place + part@.len()) =~= part@);
    }
    true
}

/// Whether text starts with `part`.
pub fn starts_with(text: &[char], part: &str) -> (answer: bool)
    ensures
        answer == starts(text@, part@),
{
    let part: Vec<char> = chars_of(part);
    is_at(text, part.as_slice(), 0)
}

/// What follows `part` in text that starts with it, or `None`.
pub fn strip_prefix<'a>(text: &'a [char], part: &str) -> (answer: Option<&'a [char]>)
    ensures
        match answer {
            Some(rest) => after_start(text@, part@) == Some(rest@),
            None => after_start(text@, part@) is None,
        },
{
    let part: Vec<char> = chars_of(part);
    if is_at(text, part.as_slice(), 0) {
        proof {
            assert(text@.subrange(part@.len() as int, text@.len() as int) =~= text@.skip(
                part@.len() as int,
            ));
        }
        Some(slice_subrange(text, part.len(), text.len()))
    } else {
        None
    }
}

/// Text without `part` at its start, however often that stands there.
pub fn trim_start_matches<'a>(text: &'a [char], part: &str) -> (answer: &'a [char])
    ensures
        answer@ == without_start(text@, part@),
{
    let part: Vec<char> = chars_of(part);
    let size: usize = text.len();
    let mut start: usize = 0;
    proof {
        assert(text@.skip(0) =~= text@);
    }
    while part.len() > 0 && is_at(text, part.as_slice(), start)
        invariant
            start <= text@.len(),
            size == text@.len(),
            without_start(text@.skip(start as int), part@) == without_start(text@, part@),
        decreases text@.len() - start,
    {
        proof {
            let rest = text@.skip(start as int);
            assert(rest.subrange(0, part@.len() as int) =~= text@.subrange(
                start as int,
                start + part@.len(),
            ));
            assert(rest.skip(part@.len() as int) =~= text@.skip(start + part@.len()));
        }
        start = start + part.len();
    }
    proof {
        let rest = text@.skip(start as int);
        if part@.len() > 0 && starts(rest, part@) {
            assert(rest.subrange(0, part@.len() as int) =~= text@.subrange(
                start as int,
                start + part@.len(),
            ));
        }
        assert(text@.subrange(start as int, text@.len() as int) =~= rest);
    }
    slice_subrange(text, start, text.len())
}

/// Text without `c` at its end, however often that stands there.
pub fn trim_end_matches<'a>(text: &'a [char], c: char) -> (answer: &'a [char])
    ensures
        answer@ == without_end(text@, c),
{
    let mut end: usize = text.len();
    proof {
        assert(text@.take(end as int) =~= text@);
    }
    while end > 0 && text[end - 1] == c
        invariant
            end <= text@.len(),
            without_end(text@.take(end as int), c) == without_end(text@, c),
        decreases end,
    {
        proof {
            assert(text@.take(end as int).drop_last() =~= text@.take(end - 1));
        }
        end = end - 1;
    }
    proof {
        assert(text@.subrange(0, end as int) =~= text@.take(end as int));
    }
    slice_subrange(text, 0, end)
}

/// Where a part was found leaves room for it.
pub proof fn lemma_found_fits(text: Seq<char>, part: Seq<char>, place: int)
    ensures
        found_from(text, part, place) is Some ==> stands_at(
            text,
            part,
            found_from(text, part, place)->0,
        ),
    decreases text.len() + 1 - place,
{
    if 0 <= place && place + part.len() <= text.len() && !stands_at(text, part, place) {
        lemma_found_fits(text, part, place + 1);
    }
}

/// Where `part` first stands in text.
fn find(text: &[char], part: &[char]) -> (answer: Option<usize>)
    ensures
        match answer {
            Some(place) => found(text@, part@) == Some(place as int) && place + part@.len()
                <= text@.len(),
            None => found(text@, part@) is None,
        },
{
    let mut place: usize = 0;
    while text.len() >= part.len() && place <= text.len() - part.len()
        invariant
            place <= text@.len() + 1,
            found_from(text@, part@, place as int) == found(text@, part@),
        decreases text@.len() + 1 - place,
    {
        if is_at(text, part, place) {
            return Some(place);
        }
        if place == text.len() {
            assert(found_from(text@, part@, place + 1) is None);
            return None;
        }
        place = place + 1;
    }
    None
}

/// What stands before and after the first `part` in text, or `None`.
pub fn split_once<'a>(text: &'a [char], part: &str) -> (answer: Option<(&'a [char], &'a [char])>)
    ensures
        match answer {
            Some(halves) => divided(text@, part@) == Some((halves.0@, halves.1@)),
            None => divided(text@, part@) is None,
        },
{
    let part: Vec<char> = chars_of(part);
    let size: usize = text.len();
    match find(text, part.as_slice()) {
        Some(place) => {
            proof {
                assert(text@.subrange(0, place as int) =~= text@.take(place as int));
                assert(text@.subrange(place + part@.len(), text@.len() as int) =~= text@.skip(
                    place + part@.len(),
                ));
            }
            Some((slice_subrange(text, 0, place), slice_subrange(text, place + part.len(), size)))
        },
        None => None,
    }
}

/// Whether text is `word`.
pub fn is_word(text: &[char], word: &str) -> (answer: bool)
    ensures
        answer == (text@ == word@),
{
    let word: Vec<char> = chars_of(word);
    proof {
        assert(text@.subrange(0, text@.len() as int) =~= text@);
    }
    text.len() == word.len() && is_at(text, word.as_slice(), 0)
}

/// The lines of text.
pub fn split_lines<'a>(text: &'a [char]) -> (lines: Vec<&'a [char]>)
    ensures
        lines@.len() == lines_of(text@).len(),
        forall|i: int| 0 <= i < lines@.len() ==> (#[trigger] lines@[i])@ == lines_of(text@)[i],
{
    let mut lines: Vec<&'a [char]> = Vec::new();
    let mut rest: &'a [char] = text;
    while rest.len() > 0
        invariant
            lines@.len() + lines_of(rest@).len() == lines_of(text@).len(),
            forall|i: int| 0 <= i < lines@.len() ==> (#[trigger] lines@[i])@ == lines_of(text@)[i],
            forall|i: int|
                0 <= i < lines_of(rest@).len() ==> #[trigger] lines_of(rest@)[i] == lines_of(
                    text@,
                )[lines@.len() + i],
        decreases rest@.len(),
    {
        let ghost before = rest@;
        let ghost done = lines@.len();
        let feed: [char; 1] = ['\n'];
        proof {
            assert(feed@ =~= seq!['\n']);
        }
        let end: Option<usize> = find(rest, feed.as_slice());
        match end {
            Some(place) => {
                let line: &'a [char] = slice_subrange(rest, 0, place);
                proof {
                    assert(line@ =~= before.take(place as int));
                    assert(before.subrange(place + 1, before.len() as int) =~= before.skip(
                        place + 1,
                    ));
                }
                if line.len() > 0 && line[line.len() - 1] == '\r' {
                    proof {
                        assert(line@.subrange(0, line@.len() - 1) =~= line@.drop_last());
                    }
                    lines.push(slice_subrange(line, 0, line.len() - 1));
                } else {
                    lines.push(line);
                }
                rest = slice_subrange(rest, place + 1, rest.len());
                proof {
                    assert(lines_of(before) == seq![without_return(before.take(place as int))]
                        + lines_of(rest@));
                    assert(lines_of(before)[0] == lines_of(text@)[done as int]);
                    assert forall|i: int| 0 <= i < lines_of(rest@).len() implies #[trigger] lines_of(
                        rest@,
                    )[i] == lines_of(text@)[lines@.len() + i] by {
                        assert(lines_of(before)[i + 1] == lines_of(rest@)[i]);
                    }
                }
            },
            None => {
                lines.push(rest);
                proof {
                    assert(lines_of(before) == seq![before]);
                    assert(lines_of(before)[0] == lines_of(text@)[done as int]);
                }
                rest = slice_subrange(rest, rest.len(), rest.len());
            },
        }
    }
    lines
}

/// Text between two others.
pub fn between(before: &str, inside: &[char], after: &str) -> (text: String)
    ensures
        text@ == before@ + inside@ + after@,
{
    let mut text: String = String::from_str(before);
    text.append(string_of(inside).as_str());
    text.append(after);
    text
}

/// A number in decimal.
pub fn decimal_of(value: u128) -> (text: String)
    ensures
        text@ == decimal(value as nat),
    decreases value,
{
    let mut text: String = if value < 10 {
        String::new()
    } else {
        decimal_of(value / 10)
    };
    let last: u128 = value % 10;
    let c: char = if last == 0 {
        '0'
    } else if last == 1 {
        '1'
    } else if last == 2 {
        '2'
    } else if last == 3 {
        '3'
    } else if last == 4 {
        '4'
    } else if last == 5 {
        '5'
    } else if last == 6 {
        '6'
    } else if last == 7 {
        '7'
    } else if last == 8 {
        '8'
    } else {
        '9'
    };
    text.push(c);
    proof {
        assert(text@ =~= decimal(value as nat));
    }
    text
}

} // verus!
