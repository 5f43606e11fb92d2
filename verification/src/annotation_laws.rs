//! What holds of every annotation that is written out and read again.

use vstd::prelude::*;
use crate::annotation::{label_in, numbers_in, slider_in, tuple_in, widget_in, Words};
use crate::number::{
    digit_char, digit_run, exponent_or_nothing, named_number, number_text, plain_number, unsigned,
};
use crate::params::{LiteralView, ParamType, Widget};
use crate::text::{after_start, decimal, divided, trimmed, trimmed_start, white, without_start};
use crate::text_laws::{
    bare, blank, free_of, law_a_start_is_taken_off, law_trimming_takes_off_what_is_round_a_text,
    law_what_is_put_together_is_divided_again, lemma_not_divided, lemma_starts_otherwise,
    lemma_trimmed_bare,
};

verus! {

/// Whether a character is a digit, a letter, a sign or a point.
pub open spec fn number_char(c: char) -> bool {
    ||| '0' <= c && c <= '9'
    ||| 'a' <= c && c <= 'z'
    ||| 'A' <= c && c <= 'Z'
    ||| c == '+'
    ||| c == '-'
    ||| c == '.'
}

proof fn lemma_run(text: Seq<char>)
    ensures
        digit_run(text) <= text.len(),
        forall|i: int| 0 <= i < digit_run(text) ==> digit_char(#[trigger] text[i]),
    decreases text.len(),
{
    if text.len() > 0 && digit_char(text[0]) {
        let rest = text.skip(1);
        lemma_run(rest);
        assert forall|i: int| 0 <= i < digit_run(text) implies digit_char(#[trigger] text[i]) by {
            if i > 0 {
                assert(text[i] == rest[i - 1]);
            }
        }
    }
}

proof fn lemma_exponent_chars(text: Seq<char>)
    requires
        exponent_or_nothing(text),
    ensures
        forall|i: int| 0 <= i < text.len() ==> number_char(#[trigger] text[i]),
{
    if text.len() > 0 {
        let rest = text.skip(1);
        let digits = unsigned(rest);
        lemma_run(digits);
        let gap = text.len() - digits.len();
        assert forall|i: int| 0 <= i < text.len() implies number_char(#[trigger] text[i]) by {
            if i >= gap {
                assert(text[i] == digits[i - gap]);
            } else if i == 1 {
                assert(text[1] == rest[0]);
            }
        }
    }
}

/// A number is spelled with digits, letters, signs and points alone, at least one of them.
pub proof fn law_a_number_is_one_word(text: Seq<char>)
    requires
        number_text(text),
    ensures
        text.len() > 0,
        forall|i: int| 0 <= i < text.len() ==> number_char(#[trigger] text[i]),
{
    let body = unsigned(text);
    let gap = text.len() - body.len();
    if named_number(body) {
        assert forall|i: int| 0 <= i < body.len() implies number_char(#[trigger] body[i]) by {}
    } else {
        let whole = digit_run(body);
        lemma_run(body);
        let rest = body.skip(whole as int);
        if rest.len() > 0 && rest[0] == '.' {
            let after = rest.skip(1);
            let part = digit_run(after);
            lemma_run(after);
            let tail = rest.skip(1 + part as int);
            lemma_exponent_chars(tail);
            assert forall|i: int| 0 <= i < body.len() implies number_char(#[trigger] body[i]) by {
                if i == whole {
                    assert(body[i] == rest[0]);
                } else if whole < i <= whole + part {
                    assert(body[i] == after[i - whole - 1]);
                } else if i > whole + part {
                    assert(body[i] == tail[i - whole - part - 1]);
                }
            }
        } else {
            lemma_exponent_chars(rest);
            assert forall|i: int| 0 <= i < body.len() implies number_char(#[trigger] body[i]) by {
                if i >= whole {
                    assert(body[i] == rest[i - whole]);
                }
            }
        }
    }
    assert forall|i: int| 0 <= i < text.len() implies number_char(#[trigger] text[i]) by {
        if i >= gap {
            assert(text[i] == body[i - gap]);
        }
    }
}

/// Words put one after another, with a comma and a space between two of them.
pub open spec fn listed(words: Seq<Seq<char>>) -> Seq<char>
    decreases words.len(),
{
    if words.len() == 0 {
        Seq::empty()
    } else if words.len() == 1 {
        words[0]
    } else {
        words[0] + seq![',', ' '] + listed(words.skip(1))
    }
}

/// Whether each of some words is a number.
pub open spec fn all_numbers(words: Seq<Seq<char>>) -> bool {
    forall|i: int| 0 <= i < words.len() ==> number_text(#[trigger] words[i])
}

proof fn lemma_listed_chars(words: Seq<Seq<char>>)
    requires
        all_numbers(words),
    ensures
        words.len() > 0 ==> listed(words).len() > 0 && number_char(listed(words)[0])
            && number_char(listed(words)[listed(words).len() - 1]),
        forall|i: int|
            0 <= i < listed(words).len() ==> number_char(#[trigger] listed(words)[i]) || listed(
                words,
            )[i] == ',' || listed(words)[i] == ' ',
    decreases words.len(),
{
    if words.len() > 0 {
        law_a_number_is_one_word(words[0]);
    }
    if words.len() > 1 {
        let rest = words.skip(1);
        assert forall|i: int| 0 <= i < rest.len() implies number_text(#[trigger] rest[i]) by {
            assert(rest[i] == words[i + 1]);
        }
        lemma_listed_chars(rest);
        let text = listed(words);
        let first = words[0];
        assert forall|i: int| 0 <= i < text.len() implies number_char(#[trigger] text[i])
            || text[i] == ',' || text[i] == ' ' by {
            if i < first.len() {
                assert(text[i] == first[i]);
            } else if i >= first.len() + 2 {
                assert(text[i] == listed(rest)[i - first.len() - 2]);
            }
        }
        assert(text[0] == first[0]);
        assert(text[text.len() - 1] == listed(rest)[listed(rest).len() - 1]);
    }
}

proof fn lemma_numbers_listed(pad: Seq<char>, words: Seq<Seq<char>>)
    requires
        blank(pad),
        free_of(pad, ','),
        words.len() > 0,
        all_numbers(words),
    ensures
        numbers_in(pad + listed(words)) == Words::Ok(words),
    decreases words.len(),
{
    reveal_strlit(",");
    assert(","@ =~= seq![',']);
    let text = pad + listed(words);
    let first = words[0];
    law_a_number_is_one_word(first);
    assert(!white(first[0]) && !white(first[first.len() - 1]));
    let part = pad + first;
    law_trimming_takes_off_what_is_round_a_text(pad, first, Seq::empty());
    assert(pad + first + Seq::<char>::empty() =~= part);
    assert(trimmed(part) == first);
    assert(free_of(part, ',')) by {
        assert forall|i: int| 0 <= i < part.len() implies #[trigger] part[i] != ',' by {
            if i < pad.len() {
                assert(part[i] == pad[i]);
            } else {
                assert(part[i] == first[i - pad.len()]);
            }
        }
    }
    if words.len() == 1 {
        lemma_not_divided(part, ',');
        assert(seq![first] =~= words);
    } else {
        let rest = words.skip(1);
        assert forall|i: int| 0 <= i < rest.len() implies number_text(#[trigger] rest[i]) by {
            assert(rest[i] == words[i + 1]);
        }
        let after = seq![' '] + listed(rest);
        assert(text =~= part + seq![','] + after);
        law_what_is_put_together_is_divided_again(part, ',', after);
        assert(blank(seq![' ']));
        lemma_numbers_listed(seq![' '], rest);
        assert(seq![first] + rest =~= words);
        assert(after.len() < text.len());
    }
}

/// Numbers listed with commas between them are read back in their order.
pub proof fn law_listed_numbers_are_read_in_order(words: Seq<Seq<char>>)
    requires
        words.len() > 0,
        all_numbers(words),
    ensures
        numbers_in(listed(words)) == Words::Ok(words),
{
    lemma_numbers_listed(Seq::empty(), words);
    assert(Seq::<char>::empty() + listed(words) =~= listed(words));
}

/// Numbers listed in round brackets are read back in their order.
pub proof fn law_a_tuple_is_read_in_order(words: Seq<Seq<char>>)
    requires
        words.len() > 0,
        all_numbers(words),
    ensures
        tuple_in(seq!['('] + listed(words) + seq![')']) == Words::Ok(words),
        tuple_in(listed(words)) == Words::Ok(words),
{
    reveal_strlit("(");
    assert("("@ =~= seq!['(']);
    let inside = listed(words);
    let text = seq!['('] + inside + seq![')'];
    lemma_trimmed_bare(text);
    let rest = inside + seq![')'];
    assert(text =~= seq!['('] + rest);
    law_a_start_is_taken_off(seq!['('], rest);
    assert(rest.drop_last() =~= inside);
    law_listed_numbers_are_read_in_order(words);
    lemma_listed_chars(words);
    assert(bare(inside));
    lemma_trimmed_bare(inside);
    lemma_starts_otherwise(inside, seq!['('], 0);
}

/// A colour `color srgb(r, g, b)` gives a parameter of three components or four the default
/// whose components are the channels in the order they are written, and one for the fourth.
pub proof fn law_a_colour_is_read_channel_by_channel(ty: ParamType, words: Seq<Seq<char>>)
    requires
        ty == ParamType::Vec3 || ty == ParamType::Vec4,
        words.len() >= 3,
        all_numbers(words),
    ensures
        ({
            let text = "color srgb"@ + seq!['('] + listed(words) + seq![')'];
            widget_in(ty, text) matches Ok((widget, default)) && {
                &&& widget is Color
                &&& default.len() == (if ty == ParamType::Vec3 {
                    3int
                } else {
                    4int
                })
                &&& default[0] == LiteralView::Srgb(words[0])
                &&& default[1] == LiteralView::Srgb(words[1])
                &&& default[2] == LiteralView::Srgb(words[2])
                &&& ty == ParamType::Vec4 ==> default[3] == LiteralView::One
            }
        }),
{
    reveal_strlit("color srgb");
    reveal_strlit("color");
    reveal_strlit("srgb");
    reveal_strlit("hidden");
    reveal_strlit("toggle");
    let tuple = seq!['('] + listed(words) + seq![')'];
    let text = "color srgb"@ + seq!['('] + listed(words) + seq![')'];
    assert(text[0] == 'c');
    lemma_starts_otherwise(text, "toggle"@, 0);
    assert(text != "hidden"@) by {
        assert("hidden"@[0] == 'h');
    }
    let rest = seq![' '] + "srgb"@ + tuple;
    assert(text =~= "color"@ + rest);
    law_a_start_is_taken_off("color"@, rest);
    let named = "srgb"@ + tuple;
    assert(rest =~= seq![' '] + named + Seq::<char>::empty());
    assert(blank(seq![' ']));
    assert(bare(named)) by {
        assert(named[0] == 's');
        assert(named[named.len() - 1] == ')');
    }
    law_trimming_takes_off_what_is_round_a_text(seq![' '], named, Seq::empty());
    assert(trimmed(rest) == named);
    law_a_start_is_taken_off("srgb"@, tuple);
    lemma_starts_otherwise(tuple, "srgb"@, 0);
    assert(named.skip("srgb"@.len() as int) =~= tuple);
    assert(without_start(named, "srgb"@) == tuple);
    law_a_tuple_is_read_in_order(words);
}

/// What a range is written as: its ends in square brackets, the lower first.
pub open spec fn range_text(min: Seq<char>, max: Seq<char>) -> Seq<char> {
    seq!['['] + min + seq![',', ' '] + max + seq![']']
}

/// The first end written in a range is the least a slider goes to, the second the most, and
/// the number after `step` is its step.
pub proof fn law_a_slider_is_read_end_by_end(
    pad: Seq<char>,
    min: Seq<char>,
    max: Seq<char>,
    step: Seq<char>,
)
    requires
        blank(pad),
        number_text(min),
        number_text(max),
        number_text(step),
    ensures
        slider_in(pad + range_text(min, max)) == Ok::<Widget<LiteralView>, Seq<char>>(
            Widget::Slider {
                min: LiteralView::Number(min),
                max: LiteralView::Number(max),
                step: None,
            },
        ),
        slider_in(pad + range_text(min, max) + " step "@ + step) == Ok::<
            Widget<LiteralView>,
            Seq<char>,
        >(
            Widget::Slider {
                min: LiteralView::Number(min),
                max: LiteralView::Number(max),
                step: Some(LiteralView::Number(step)),
            },
        ),
{
    reveal_strlit(" step ");
    let range = range_text(min, max);
    let tail = " step "@ + step;
    let none = Seq::<char>::empty();
    law_a_number_is_one_word(step);
    assert(bare(range + none)) by {
        assert((range + none)[0] == '[');
        assert((range + none)[(range + none).len() - 1] == ']');
    }
    assert(bare(range + tail)) by {
        assert((range + tail)[0] == '[');
        assert((range + tail)[(range + tail).len() - 1] == step[step.len() - 1]);
    }
    lemma_slider_tail(pad, min, max, none);
    lemma_slider_tail(pad, min, max, tail);
    assert(pad + range_text(min, max) =~= pad + (range + none));
    assert(pad + range_text(min, max) + " step "@ + step =~= pad + (range + tail));
    reveal_strlit("step");
    lemma_trimmed_bare(none);
    lemma_starts_otherwise(none, "step"@, 0);
    let named = "step"@ + (seq![' '] + step);
    assert(tail =~= seq![' '] + named + none);
    assert(named[0] == 's');
    assert(named[named.len() - 1] == step[step.len() - 1]);
    law_trimming_takes_off_what_is_round_a_text(seq![' '], named, none);
    law_a_start_is_taken_off("step"@, seq![' '] + step);
    law_trimming_takes_off_what_is_round_a_text(seq![' '], step, none);
    assert(seq![' '] + step + none =~= seq![' '] + step);
}

proof fn lemma_slider_tail(pad: Seq<char>, min: Seq<char>, max: Seq<char>, tail: Seq<char>)
    requires
        blank(pad),
        number_text(min),
        number_text(max),
        bare(range_text(min, max) + tail),
    ensures
        ({
            let inside = min + seq![',', ' '] + max;
            let rest = inside + seq![']'] + tail;
            &&& after_start(trimmed(pad + (range_text(min, max) + tail)), "["@) == Some(rest)
            &&& divided(rest, "]"@) == Some((inside, tail))
            &&& numbers_in(inside) == Words::Ok(seq![min, max])
        }),
{
    reveal_strlit("[");
    reveal_strlit("]");
    assert("["@ =~= seq!['[']);
    assert("]"@ =~= seq![']']);
    let range = range_text(min, max);
    let inside = min + seq![',', ' '] + max;
    let rest = inside + seq![']'] + tail;
    law_trimming_takes_off_what_is_round_a_text(pad, range + tail, Seq::empty());
    assert(pad + (range + tail) + Seq::<char>::empty() =~= pad + (range + tail));
    assert(range + tail =~= seq!['['] + rest);
    law_a_start_is_taken_off(seq!['['], rest);
    let words = seq![min, max];
    assert(words.skip(1) =~= seq![max]);
    assert(listed(words.skip(1)) == max);
    assert(inside =~= listed(words));
    lemma_listed_chars(words);
    assert(free_of(inside, ']'));
    law_what_is_put_together_is_divided_again(inside, ']', tail);
    law_listed_numbers_are_read_in_order(words);
}

/// What a slider's annotation says: its default, its range and, where it has one, its step.
pub open spec fn slider_text(
    default: Seq<char>,
    min: Seq<char>,
    max: Seq<char>,
    step: Option<Seq<char>>,
) -> Seq<char> {
    default + seq![' '] + range_text(min, max) + match step {
        Some(step) => " step "@ + step,
        None => Seq::empty(),
    }
}

/// The slider that a range and a step in words describe.
pub open spec fn slider_of(min: Seq<char>, max: Seq<char>, step: Option<Seq<char>>) -> Widget<
    LiteralView,
> {
    Widget::Slider {
        min: LiteralView::Number(min),
        max: LiteralView::Number(max),
        step: match step {
            Some(step) => Some(LiteralView::Number(step)),
            None => None,
        },
    }
}

proof fn lemma_slider_read(
    min: Seq<char>,
    max: Seq<char>,
    step: Option<Seq<char>>,
)
    requires
        number_text(min),
        number_text(max),
        step matches Some(step) ==> number_text(step),
    ensures
        slider_in(slider_text(Seq::empty(), min, max, step)) == Ok::<Widget<LiteralView>, Seq<char>>(
            slider_of(min, max, step),
        ),
        slider_in(slider_text(Seq::empty(), min, max, step).skip(1)) == Ok::<
            Widget<LiteralView>,
            Seq<char>,
        >(slider_of(min, max, step)),
{
    let none = Seq::<char>::empty();
    let pad = seq![' '];
    assert(blank(pad));
    let range = range_text(min, max);
    match step {
        Some(step) => {
            law_a_slider_is_read_end_by_end(pad, min, max, step);
            law_a_slider_is_read_end_by_end(none, min, max, step);
            let text = slider_text(none, min, max, Some(step));
            assert(text =~= pad + range + " step "@ + step);
            assert(text.skip(1) =~= none + range + " step "@ + step);
        },
        None => {
            law_a_slider_is_read_end_by_end(pad, min, max, min);
            law_a_slider_is_read_end_by_end(none, min, max, min);
            let text = slider_text(none, min, max, None);
            assert(text =~= pad + range);
            assert(text.skip(1) =~= none + range);
        },
    }
}

/// A default in round brackets gives each component the number written at its place, with
/// `vec` before the brackets or without, and the range and the step after it are those of
/// the slider.
pub proof fn law_a_default_is_read_component_by_component(
    ty: ParamType,
    words: Seq<Seq<char>>,
    min: Seq<char>,
    max: Seq<char>,
    step: Option<Seq<char>>,
)
    requires
        words.len() == ty.count(),
        all_numbers(words),
        number_text(min),
        number_text(max),
        step matches Some(step) ==> number_text(step),
    ensures
        ({
            let tuple = seq!['('] + listed(words) + seq![')'];
            let read = widget_in(ty, slider_text(tuple, min, max, step));
            &&& read matches Ok((widget, default)) && {
                &&& widget == slider_of(min, max, step)
                &&& default.len() == words.len()
                &&& forall|k: int|
                    0 <= k < words.len() ==> #[trigger] default[k] == LiteralView::Number(words[k])
            }
            &&& widget_in(ty, slider_text("vec"@ + tuple, min, max, step)) == read
        }),
{
    reveal_strlit("color");
    reveal_strlit("hidden");
    reveal_strlit("toggle");
    reveal_strlit("vec");
    reveal_strlit("(");
    reveal_strlit(")");
    assert("("@ =~= seq!['(']);
    assert(")"@ =~= seq![')']);
    let inside = listed(words);
    let tuple = seq!['('] + inside + seq![')'];
    let text = slider_text(tuple, min, max, step);
    let tail = slider_text(Seq::empty(), min, max, step);
    assert(text =~= tuple + tail);
    assert(text[0] == '(');
    assert("hidden"@[0] == 'h');
    lemma_starts_otherwise(text, "toggle"@, 0);
    lemma_starts_otherwise(text, "color"@, 0);
    lemma_starts_otherwise(text, "vec"@, 0);
    assert(trimmed_start(text) == text);
    let rest = inside + seq![')'] + tail;
    assert(text =~= seq!['('] + rest);
    law_a_start_is_taken_off(seq!['('], rest);
    lemma_listed_chars(words);
    assert(free_of(inside, ')'));
    law_what_is_put_together_is_divided_again(inside, ')', tail);
    law_a_tuple_is_read_in_order(words);
    lemma_slider_read(min, max, step);
    let longer = slider_text("vec"@ + tuple, min, max, step);
    assert(longer =~= "vec"@ + text);
    assert(longer[0] == 'v');
    lemma_starts_otherwise(longer, "toggle"@, 0);
    lemma_starts_otherwise(longer, "color"@, 0);
    law_a_start_is_taken_off("vec"@, text);
    assert(longer.skip("vec"@.len() as int) =~= text);
    assert(without_start(longer, "vec"@) == text);
}

/// A default without brackets is the one number written before the range.
pub proof fn law_a_single_default_is_the_number_before_the_range(
    ty: ParamType,
    word: Seq<char>,
    min: Seq<char>,
    max: Seq<char>,
    step: Option<Seq<char>>,
)
    requires
        ty == ParamType::F32 || ty == ParamType::I32 || ty == ParamType::U32,
        number_text(word),
        number_text(min),
        number_text(max),
        step matches Some(step) ==> number_text(step),
    ensures
        widget_in(ty, slider_text(word, min, max, step)) == Ok::<
            (Widget<LiteralView>, Seq<LiteralView>),
            Seq<char>,
        >((slider_of(min, max, step), seq![LiteralView::Number(word)])),
{
    reveal_strlit("color");
    reveal_strlit("hidden");
    reveal_strlit("toggle");
    reveal_strlit("vec");
    reveal_strlit("(");
    reveal_strlit("[");
    assert("("@ =~= seq!['(']);
    assert("["@ =~= seq!['[']);
    let text = slider_text(word, min, max, step);
    let tail = slider_text(Seq::empty(), min, max, step);
    law_a_number_is_one_word(word);
    lemma_number_opens(word);
    assert(text[0] == word[0]);
    assert("hidden"@[0] == 'h');
    assert("color"@[0] == 'c');
    assert("toggle"@[0] == 't');
    assert("vec"@[0] == 'v');
    assert("("@[0] == '(');
    lemma_starts_otherwise(text, "toggle"@, 0);
    lemma_starts_otherwise(text, "color"@, 0);
    lemma_starts_otherwise(text, "vec"@, 0);
    lemma_starts_otherwise(text, "("@, 0);
    assert(trimmed_start(text) == text);
    let before = word + seq![' '];
    let after = tail.skip(2);
    assert(tail[1] == '[');
    assert(text =~= before + seq!['['] + after);
    assert(free_of(before, '['));
    law_what_is_put_together_is_divided_again(before, '[', after);
    assert("["@ + after =~= tail.skip(1));
    law_trimming_takes_off_what_is_round_a_text(Seq::empty(), word, seq![' ']);
    assert(Seq::<char>::empty() + word + seq![' '] =~= before);
    let words = seq![word];
    assert(listed(words) == word);
    law_a_tuple_is_read_in_order(words);
    lemma_trimmed_bare(word);
    assert(tuple_in(before) == tuple_in(word));
    lemma_slider_read(min, max, step);
    assert(crate::annotation::as_numbers(words) =~= seq![LiteralView::Number(word)]);
}

proof fn lemma_number_opens(word: Seq<char>)
    requires
        number_text(word),
    ensures
        word.len() > 0,
        word[0] != 'h' && word[0] != 'c' && word[0] != 't' && word[0] != 'v' && word[0] != '(',
{
    law_a_number_is_one_word(word);
    let body = unsigned(word);
    if plain_number(body) {
        lemma_run(body);
    }
}

/// A toggle takes its one number from the word after it: one for `true`, zero for `false`.
pub proof fn law_a_toggle_is_one_where_it_is_true(ty: ParamType, pad: Seq<char>)
    requires
        blank(pad),
    ensures
        widget_in(ty, "toggle"@ + pad + "true"@) == Ok::<
            (Widget<LiteralView>, Seq<LiteralView>),
            Seq<char>,
        >((Widget::Toggle, seq![LiteralView::One])),
        widget_in(ty, "toggle"@ + pad + "false"@) == Ok::<
            (Widget<LiteralView>, Seq<LiteralView>),
            Seq<char>,
        >((Widget::Toggle, seq![LiteralView::Zero])),
{
    reveal_strlit("hidden");
    reveal_strlit("toggle");
    reveal_strlit("true");
    reveal_strlit("false");
    let none = Seq::<char>::empty();
    assert("hidden"@[0] == 'h');
    let on = "toggle"@ + pad + "true"@;
    assert(on[0] == 't');
    assert(on =~= "toggle"@ + (pad + "true"@));
    law_a_start_is_taken_off("toggle"@, pad + "true"@);
    law_trimming_takes_off_what_is_round_a_text(pad, "true"@, none);
    assert(pad + "true"@ + none =~= pad + "true"@);
    let off = "toggle"@ + pad + "false"@;
    assert(off[0] == 't');
    assert(off =~= "toggle"@ + (pad + "false"@));
    law_a_start_is_taken_off("toggle"@, pad + "false"@);
    law_trimming_takes_off_what_is_round_a_text(pad, "false"@, none);
    assert(pad + "false"@ + none =~= pad + "false"@);
    assert("true"@[0] == 't' && "false"@[0] == 'f');
}

/// A hidden parameter has a zero for each of its components.
pub proof fn law_a_hidden_parameter_is_zero(ty: ParamType)
    ensures
        widget_in(ty, "hidden"@) matches Ok((widget, default)) && {
            &&& widget is Hidden
            &&& default.len() == ty.count()
            &&& forall|k: int| 0 <= k < default.len() ==> #[trigger] default[k] is Zero
        },
{
}

/// The label of an annotation is what stands in its quotes, and the rest of it is what
/// stands after them.
pub proof fn law_a_label_is_what_stands_in_quotes(label: Seq<char>, pad: Seq<char>, rest: Seq<char>)
    requires
        free_of(label, '"'),
        blank(pad),
        bare(rest),
    ensures
        label_in(seq!['"'] + label + seq!['"'] + pad + rest) == (Some(label), rest),
        rest.len() > 0 && rest[0] != '"' ==> label_in(rest) == (None::<Seq<char>>, rest),
{
    reveal_strlit("\"");
    assert("\""@ =~= seq!['"']);
    let tail = pad + rest;
    let text = seq!['"'] + label + seq!['"'] + pad + rest;
    let after = label + seq!['"'] + tail;
    assert(text =~= seq!['"'] + after);
    law_a_start_is_taken_off(seq!['"'], after);
    law_what_is_put_together_is_divided_again(label, '"', tail);
    law_trimming_takes_off_what_is_round_a_text(pad, rest, Seq::empty());
    assert(pad + rest + Seq::<char>::empty() =~= tail);
    if rest.len() > 0 && rest[0] != '"' {
        lemma_starts_otherwise(rest, seq!['"'], 0);
    }
}

/// Whether text is digits, at least one.
pub open spec fn all_digits(text: Seq<char>) -> bool {
    text.len() > 0 && forall|i: int| 0 <= i < text.len() ==> '0' <= #[trigger] text[i] <= '9'
}

proof fn lemma_run_of_digits(digits: Seq<char>, rest: Seq<char>)
    requires
        forall|i: int| 0 <= i < digits.len() ==> '0' <= #[trigger] digits[i] <= '9',
        rest.len() > 0 ==> !('0' <= rest[0] <= '9'),
    ensures
        digit_run(digits + rest) == digits.len(),
        (digits + rest).skip(digits.len() as int) == rest,
    decreases digits.len(),
{
    let text = digits + rest;
    assert(text.skip(digits.len() as int) =~= rest);
    if digits.len() > 0 {
        assert(text[0] == digits[0]);
        let fewer = digits.skip(1);
        assert(text.skip(1) =~= fewer + rest);
        assert forall|i: int| 0 <= i < fewer.len() implies '0' <= #[trigger] fewer[i] <= '9' by {
            assert(fewer[i] == digits[i + 1]);
        }
        lemma_run_of_digits(fewer, rest);
    } else {
        assert(text =~= rest);
    }
}

/// Digits are a number, and so are digits with a point and digits after it, with an exponent,
/// and each of these after a sign. Nothing is not, a sign alone is not, and digits with
/// anything but a point or an exponent after them are not.
pub proof fn law_digits_are_a_number(whole: Seq<char>, part: Seq<char>, power: Seq<char>, c: char)
    requires
        all_digits(whole),
        all_digits(part),
        all_digits(power),
    ensures
        number_text(whole),
        number_text(whole + seq!['.'] + part),
        number_text(whole + seq!['e'] + power),
        number_text(seq!['-'] + whole),
        number_text(seq!['+'] + whole),
        number_text(seq!['-'] + (whole + seq!['.'] + part)),
        !number_text(Seq::<char>::empty()),
        !number_text(seq!['-']),
        !('0' <= c <= '9') && c != '.' && c != 'e' && c != 'E' ==> !number_text(
            whole + (seq![c] + part),
        ),
{
    let none = Seq::<char>::empty();
    lemma_run_of_digits(whole, none);
    lemma_run_of_digits(part, none);
    lemma_run_of_digits(power, none);
    assert(whole + none =~= whole);
    assert(part + none =~= part);
    assert(power + none =~= power);
    let fraction = seq!['.'] + part;
    let pointed = whole + seq!['.'] + part;
    assert(pointed =~= whole + fraction);
    lemma_run_of_digits(whole, fraction);
    assert(fraction.skip(1) =~= part);
    assert(fraction.skip(1 + part.len() as int) =~= none);
    let exponent = seq!['e'] + power;
    let raised = whole + seq!['e'] + power;
    assert(raised =~= whole + exponent);
    lemma_run_of_digits(whole, exponent);
    assert(exponent.skip(1) =~= power);
    assert(power[0] != '+' && power[0] != '-');
    assert(whole[0] != '+' && whole[0] != '-');
    assert(unsigned(whole) == whole);
    assert(plain_number(whole));
    assert(pointed[0] == whole[0]);
    assert(plain_number(pointed));
    assert(raised[0] == whole[0]);
    assert(plain_number(raised));
    assert((seq!['-'] + whole).skip(1) =~= whole);
    assert((seq!['+'] + whole).skip(1) =~= whole);
    assert((seq!['-'] + pointed).skip(1) =~= pointed);
    assert(digit_run(none) == 0);
    assert(none.skip(0) =~= none);
    assert(seq!['-'].skip(1) =~= none);
    assert(!plain_number(none) && !named_number(none));
    if !('0' <= c <= '9') && c != '.' && c != 'e' && c != 'E' {
        let tail = seq![c] + part;
        let text = whole + tail;
        lemma_run_of_digits(whole, tail);
        assert(tail[0] == c);
        assert(text[0] == whole[0]);
        assert(!plain_number(text));
        assert(!named_number(text));
    }
}

/// A default of another number of components than the type has is refused, saying how many it
/// has and then how many it should.
pub proof fn law_a_default_of_another_length_is_refused(
    ty: ParamType,
    words: Seq<Seq<char>>,
    min: Seq<char>,
    max: Seq<char>,
)
    requires
        words.len() > 0,
        words.len() != ty.count(),
        all_numbers(words),
        number_text(min),
        number_text(max),
    ensures
        widget_in(ty, slider_text(seq!['('] + listed(words) + seq![')'], min, max, None)) == Err::<
            (Widget<LiteralView>, Seq<LiteralView>),
            Seq<char>,
        >(
            "the default has "@ + decimal(words.len()) + " components, where `"@ + ty.spelling()
                + "` has "@ + decimal(ty.count() as nat),
        ),
{
    reveal_strlit("color");
    reveal_strlit("hidden");
    reveal_strlit("toggle");
    reveal_strlit("vec");
    reveal_strlit("(");
    reveal_strlit(")");
    assert("("@ =~= seq!['(']);
    assert(")"@ =~= seq![')']);
    let inside = listed(words);
    let tuple = seq!['('] + inside + seq![')'];
    let text = slider_text(tuple, min, max, None);
    let tail = slider_text(Seq::empty(), min, max, None);
    assert(text =~= tuple + tail);
    assert(text[0] == '(');
    assert("hidden"@[0] == 'h');
    lemma_starts_otherwise(text, "toggle"@, 0);
    lemma_starts_otherwise(text, "color"@, 0);
    lemma_starts_otherwise(text, "vec"@, 0);
    assert(trimmed_start(text) == text);
    let rest = inside + seq![')'] + tail;
    assert(text =~= seq!['('] + rest);
    law_a_start_is_taken_off(seq!['('], rest);
    lemma_listed_chars(words);
    assert(free_of(inside, ')'));
    law_what_is_put_together_is_divided_again(inside, ')', tail);
    law_a_tuple_is_read_in_order(words);
}

/// A colour on a type of fewer than three components is refused, and so is one with fewer
/// than three channels.
pub proof fn law_a_colour_needs_three_components(ty: ParamType, words: Seq<Seq<char>>)
    requires
        words.len() > 0,
        all_numbers(words),
        ty.count() < 3 || words.len() < 3,
    ensures
        widget_in(ty, "color srgb"@ + seq!['('] + listed(words) + seq![')']) is Err,
{
    reveal_strlit("color srgb");
    reveal_strlit("color");
    reveal_strlit("srgb");
    reveal_strlit("hidden");
    reveal_strlit("toggle");
    let tuple = seq!['('] + listed(words) + seq![')'];
    let text = "color srgb"@ + seq!['('] + listed(words) + seq![')'];
    assert(text[0] == 'c');
    lemma_starts_otherwise(text, "toggle"@, 0);
    assert("hidden"@[0] == 'h');
    let named = "srgb"@ + tuple;
    let rest = seq![' '] + named;
    assert(text =~= "color"@ + rest);
    law_a_start_is_taken_off("color"@, rest);
    assert(rest =~= seq![' '] + named + Seq::<char>::empty());
    assert(named[0] == 's');
    assert(named[named.len() - 1] == ')');
    law_trimming_takes_off_what_is_round_a_text(seq![' '], named, Seq::empty());
    law_a_start_is_taken_off("srgb"@, tuple);
    lemma_starts_otherwise(tuple, "srgb"@, 0);
    assert(named.skip("srgb"@.len() as int) =~= tuple);
    assert(without_start(named, "srgb"@) == tuple);
    law_a_tuple_is_read_in_order(words);
}

} // verus!
