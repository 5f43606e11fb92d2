//! The `@ui` annotation of a parameter: its label, its widget and its default.

use vstd::prelude::*;
use vstd::slice::slice_subrange;
use crate::number::{is_number, number_text};
use crate::params::{
    fault, literals_view, widget_view, Literal, LiteralView, ParamError, ParamType, Widget,
};
use crate::text::{
    after_start, between, decimal, decimal_of, divided, is_word, lemma_found_fits, split_once,
    stands_at, string_of, strip_prefix, trim, trim_start, trim_start_matches, trimmed,
    trimmed_start, without_start,
};

verus! {

/// Some words of text, or why they could not be read.
pub type Words = Result<Seq<Seq<char>>, Seq<char>>;

/// The numbers in text, which stand between commas. A place with nothing but white space
/// in it is passed over; the first word that is no number is the fault.
pub open spec fn numbers_in(text: Seq<char>) -> Words
    decreases text.len(),
{
    let (part, rest) = match divided(text, ","@) {
        Some((part, rest)) => (part, Some(rest)),
        None => (text, None),
    };
    let word = trimmed(part);
    if word.len() > 0 && !number_text(word) {
        Err("`"@ + word + "` is not a number"@)
    } else {
        let here = if word.len() > 0 {
            seq![word]
        } else {
            Seq::empty()
        };
        match rest {
            None => Ok(here),
            Some(rest) => if rest.len() < text.len() {
                match numbers_in(rest) {
                    Ok(more) => Ok(here + more),
                    Err(reason) => Err(reason),
                }
            } else {
                Ok(here)
            },
        }
    }
}

/// The numbers in text that may stand in round brackets.
pub open spec fn tuple_in(text: Seq<char>) -> Words {
    let text = trimmed(text);
    match after_start(text, "("@) {
        Some(rest) => if rest.len() > 0 && rest.last() == ')' {
            numbers_in(rest.drop_last())
        } else {
            numbers_in(text)
        },
        None => numbers_in(text),
    }
}

/// The label an annotation opens with, in quotes, and what follows it. An annotation whose
/// quotes are not closed has no label.
pub open spec fn label_in(annotation: Seq<char>) -> (Option<Seq<char>>, Seq<char>) {
    match after_start(annotation, "\""@) {
        Some(rest) => match divided(rest, "\""@) {
            Some((label, tail)) => (Some(label), trimmed(tail)),
            None => (None, annotation),
        },
        None => (None, annotation),
    }
}

/// The default an annotation opens with and what follows it: what stands in round
/// brackets, or before the range.
pub open spec fn default_in(annotation: Seq<char>) -> Result<(Seq<char>, Seq<char>), Seq<char>> {
    match after_start(annotation, "("@) {
        Some(rest) => match divided(rest, ")"@) {
            Some((inside, tail)) => Ok((inside, tail)),
            None => Err("the default is never closed"@),
        },
        None => match divided(annotation, "["@) {
            Some((before, after)) => Ok((before, "["@ + after)),
            None => Err("no `[min, max]` range"@),
        },
    }
}

/// Words as the numbers they spell.
pub open spec fn as_numbers(words: Seq<Seq<char>>) -> Seq<LiteralView> {
    words.map_values(|word: Seq<char>| LiteralView::Number(word))
}

/// The default of a colour: the first three channels, and one for every component past
/// them.
pub open spec fn colour_default(channels: Seq<Seq<char>>, ty: ParamType) -> Seq<LiteralView> {
    Seq::new(
        ty.count() as nat,
        |i: int|
            if i < 3 {
                LiteralView::Srgb(channels[i])
            } else {
                LiteralView::One
            },
    )
}

/// What a slider's annotation says after its default: the range, and the step where there
/// is one.
pub open spec fn slider_in(rest: Seq<char>) -> Result<Widget<LiteralView>, Seq<char>> {
    match after_start(trimmed(rest), "["@) {
        None => Err("no `[min, max]` range"@),
        Some(inside) => match divided(inside, "]"@) {
            None => Err("no `[min, max]` range"@),
            Some((range, tail)) => match numbers_in(range) {
                Err(reason) => Err(reason),
                Ok(bounds) => if bounds.len() != 2 {
                    Err("a range is written as `[min, max]`"@)
                } else {
                    let min = LiteralView::Number(bounds[0]);
                    let max = LiteralView::Number(bounds[1]);
                    match after_start(trimmed(tail), "step"@) {
                        None => Ok(Widget::Slider { min, max, step: None }),
                        Some(step) => if number_text(trimmed(step)) {
                            Ok(
                                Widget::Slider {
                                    min,
                                    max,
                                    step: Some(LiteralView::Number(trimmed(step))),
                                },
                            )
                        } else {
                            Err("`"@ + trimmed(step) + "` is not a step"@)
                        },
                    }
                },
            },
        },
    }
}

/// The widget and the default an annotation gives a parameter of a type, or why it gives
/// none.
pub open spec fn widget_in(ty: ParamType, annotation: Seq<char>) -> Result<
    (Widget<LiteralView>, Seq<LiteralView>),
    Seq<char>,
> {
    if annotation == "hidden"@ {
        Ok((Widget::Hidden, Seq::new(ty.count() as nat, |i: int| LiteralView::Zero)))
    } else if let Some(rest) = after_start(annotation, "toggle"@) {
        if trimmed(rest) == "true"@ {
            Ok((Widget::Toggle, seq![LiteralView::One]))
        } else if trimmed(rest) == "false"@ {
            Ok((Widget::Toggle, seq![LiteralView::Zero]))
        } else {
            Err("`"@ + trimmed(rest) + "` is not `true` or `false`"@)
        }
    } else if let Some(rest) = after_start(annotation, "color"@) {
        if ty.count() < 3 {
            Err("a colour needs three components or four"@)
        } else {
            match tuple_in(without_start(trimmed(rest), "srgb"@)) {
                Err(reason) => Err(reason),
                Ok(channels) => if channels.len() < 3 {
                    Err("a colour is written as `srgb(r, g, b)`"@)
                } else {
                    Ok((Widget::Color, colour_default(channels, ty)))
                },
            }
        }
    } else {
        match default_in(trimmed_start(without_start(annotation, "vec"@))) {
            Err(reason) => Err(reason),
            Ok((text, rest)) => match tuple_in(text) {
                Err(reason) => Err(reason),
                Ok(words) => if words.len() != ty.count() {
                    Err(
                        "the default has "@ + decimal(words.len()) + " components, where `"@
                            + ty.spelling() + "` has "@ + decimal(ty.count() as nat),
                    )
                } else {
                    match slider_in(rest) {
                        Err(reason) => Err(reason),
                        Ok(widget) => Ok((widget, as_numbers(words))),
                    }
                },
            },
        }
    }
}

/// What the words of a list are.
pub open spec fn words_view(words: Seq<String>) -> Seq<Seq<char>> {
    words.map_values(|word: String| word@)
}

proof fn lemma_divided_shrinks(text: Seq<char>, part: Seq<char>)
    requires
        part.len() > 0,
        divided(text, part) is Some,
    ensures
        (divided(text, part)->0).1.len() < text.len(),
{
    lemma_found_fits(text, part, 0);
}

/// The numbers in text between commas, as they are spelled, or the first word that is
/// none.
pub fn parse_numbers(line: usize, text: &[char]) -> (answer: Result<Vec<String>, ParamError>)
    ensures
        match answer {
            Ok(words) => numbers_in(text@) == Words::Ok(words_view(words@)),
            Err(error) => error.line == line && numbers_in(text@) == Words::Err(error.reason@),
        },
{
    let mut words: Vec<String> = Vec::new();
    let mut rest: &[char] = text;
    let mut more: bool = true;
    proof {
        reveal_strlit(",");
        assert(words_view(words@) =~= Seq::<Seq<char>>::empty());
        if let Ok(all) = numbers_in(rest@) {
            assert(Seq::<Seq<char>>::empty() + all =~= all);
        }
    }
    while more
        invariant
            ","@.len() == 1,
            more ==> numbers_in(text@) == (match numbers_in(rest@) {
                Ok(left) => Words::Ok(words_view(words@) + left),
                Err(reason) => Words::Err(reason),
            }),
            !more ==> numbers_in(text@) == Words::Ok(words_view(words@)),
        decreases
            rest@.len(),
            (if more {
                1int
            } else {
                0int
            }),
    {
        let halves: Option<(&[char], &[char])> = split_once(rest, ",");
        let part: &[char] = match halves {
            Some(halves) => halves.0,
            None => rest,
        };
        let word: &[char] = trim(part);
        let ghost before = words_view(words@);
        if word.len() > 0 {
            if !is_number(word) {
                return Err(fault(line, between("`", word, "` is not a number")));
            }
            words.push(string_of(word));
            proof {
                assert(words_view(words@) =~= before.push(word@));
                assert(before.push(word@) =~= before + seq![word@]);
            }
        } else {
            proof {
                assert(words_view(words@) =~= before + Seq::<Seq<char>>::empty());
            }
        }
        match halves {
            Some(halves) => {
                proof {
                    lemma_divided_shrinks(rest@, ","@);
                    let here = if word@.len() > 0 {
                        seq![word@]
                    } else {
                        Seq::empty()
                    };
                    if let Ok(left) = numbers_in(halves.1@) {
                        assert(before + (here + left) =~= words_view(words@) + left);
                    }
                }
                rest = halves.1;
            },
            None => {
                more = false;
            },
        }
    }
    Ok(words)
}

/// The numbers in text that may stand in round brackets.
pub fn parse_tuple(line: usize, text: &[char]) -> (answer: Result<Vec<String>, ParamError>)
    ensures
        match answer {
            Ok(words) => tuple_in(text@) == Words::Ok(words_view(words@)),
            Err(error) => error.line == line && tuple_in(text@) == Words::Err(error.reason@),
        },
{
    let text: &[char] = trim(text);
    match strip_prefix(text, "(") {
        Some(rest) => {
            let size: usize = rest.len();
            if size > 0 && rest[size - 1] == ')' {
                let inside: &[char] = slice_subrange(rest, 0, size - 1);
                proof {
                    assert(inside@ =~= rest@.drop_last());
                }
                parse_numbers(line, inside)
            } else {
                parse_numbers(line, text)
            }
        },
        None => parse_numbers(line, text),
    }
}

/// The label an annotation opens with, and what follows it.
pub fn split_label<'a>(annotation: &'a [char]) -> (answer: (Option<String>, &'a [char]))
    ensures
        label_in(annotation@) == (match answer.0 {
            Some(label) => (Some(label@), answer.1@),
            None => (None, answer.1@),
        }),
{
    match strip_prefix(annotation, "\"") {
        Some(rest) => match split_once(rest, "\"") {
            Some((label, tail)) => (Some(string_of(label)), trim(tail)),
            None => (None, annotation),
        },
        None => (None, annotation),
    }
}

/// The default an annotation opens with, and what follows it.
pub fn split_default<'a>(line: usize, annotation: &'a [char]) -> (answer: Result<
    (&'a [char], &'a [char]),
    ParamError,
>)
    ensures
        match answer {
            Ok(halves) => default_in(annotation@) == Ok::<(Seq<char>, Seq<char>), Seq<char>>(
                (halves.0@, halves.1@),
            ),
            Err(error) => error.line == line && default_in(annotation@) == Err::<
                (Seq<char>, Seq<char>),
                Seq<char>,
            >(error.reason@),
        },
{
    match strip_prefix(annotation, "(") {
        Some(rest) => match split_once(rest, ")") {
            Some((inside, tail)) => Ok((inside, tail)),
            None => Err(fault(line, String::from_str("the default is never closed"))),
        },
        None => match split_once(annotation, "[") {
            Some((before, after)) => {
                proof {
                    reveal_strlit("[");
                    lemma_found_fits(annotation@, "["@, 0);
                    let place = before@.len() as int;
                    assert(stands_at(annotation@, "["@, place));
                    assert(annotation@.subrange(place, place + 1)[0] == "["@[0]);
                    assert(annotation@.subrange(place, annotation@.len() as int) =~= "["@ + after@);
                }
                let size: usize = annotation.len();
                Ok((before, slice_subrange(annotation, before.len(), size)))
            },
            None => Err(fault(line, String::from_str("no `[min, max]` range"))),
        },
    }
}

/// Words as literals.
fn literals_of(words: Vec<String>) -> (literals: Vec<Literal>)
    ensures
        literals_view(literals@) == as_numbers(words_view(words@)),
{
    let mut literals: Vec<Literal> = Vec::new();
    let mut i: usize = 0;
    while i < words.len()
        invariant
            i <= words@.len(),
            literals@.len() == i,
            forall|j: int|
                0 <= j < i ==> (#[trigger] literals@[j])@ == LiteralView::Number(words@[j]@),
        decreases words@.len() - i,
    {
        literals.push(Literal::Number(words[i].clone()));
        i = i + 1;
    }
    proof {
        assert(literals_view(literals@) =~= as_numbers(words_view(words@)));
    }
    literals
}

fn parse_slider(line: usize, rest: &[char]) -> (answer: Result<Widget<Literal>, ParamError>)
    ensures
        match answer {
            Ok(widget) => slider_in(rest@) == Ok::<Widget<LiteralView>, Seq<char>>(
                widget_view(widget),
            ),
            Err(error) => error.line == line && slider_in(rest@) == Err::<
                Widget<LiteralView>,
                Seq<char>,
            >(error.reason@),
        },
{
    let inside: &[char] = match strip_prefix(trim(rest), "[") {
        Some(inside) => inside,
        None => {
            return Err(fault(line, String::from_str("no `[min, max]` range")));
        },
    };
    let (range, tail): (&[char], &[char]) = match split_once(inside, "]") {
        Some(halves) => halves,
        None => {
            return Err(fault(line, String::from_str("no `[min, max]` range")));
        },
    };
    let bounds: Vec<String> = match parse_numbers(line, range) {
        Ok(bounds) => bounds,
        Err(error) => {
            return Err(error);
        },
    };
    if bounds.len() != 2 {
        return Err(fault(line, String::from_str("a range is written as `[min, max]`")));
    }
    let min: Literal = Literal::Number(bounds[0].clone());
    let max: Literal = Literal::Number(bounds[1].clone());
    match strip_prefix(trim(tail), "step") {
        None => Ok(Widget::Slider { min, max, step: None }),
        Some(step) => {
            let word: &[char] = trim(step);
            if is_number(word) {
                Ok(Widget::Slider { min, max, step: Some(Literal::Number(string_of(word))) })
            } else {
                Err(fault(line, between("`", word, "` is not a step")))
            }
        },
    }
}

fn parse_toggle(line: usize, rest: &[char]) -> (answer: Result<Vec<Literal>, ParamError>)
    ensures
        match answer {
            Ok(default) => if trimmed(rest@) == "true"@ {
                literals_view(default@) == seq![LiteralView::One]
            } else {
                trimmed(rest@) == "false"@ && literals_view(default@) == seq![LiteralView::Zero]
            },
            Err(error) => error.line == line && trimmed(rest@) != "true"@ && trimmed(rest@)
                != "false"@ && error.reason@ == "`"@ + trimmed(rest@)
                + "` is not `true` or `false`"@,
        },
{
    let word: &[char] = trim(rest);
    let mut default: Vec<Literal> = Vec::new();
    if is_word(word, "true") {
        default.push(Literal::One);
        proof {
            assert(literals_view(default@) =~= seq![LiteralView::One]);
        }
        Ok(default)
    } else if is_word(word, "false") {
        default.push(Literal::Zero);
        proof {
            assert(literals_view(default@) =~= seq![LiteralView::Zero]);
        }
        Ok(default)
    } else {
        Err(fault(line, between("`", word, "` is not `true` or `false`")))
    }
}

fn colour_literals(channels: &Vec<String>, ty: ParamType) -> (default: Vec<Literal>)
    requires
        channels@.len() >= 3,
        ty.count() >= 3,
    ensures
        literals_view(default@) == colour_default(words_view(channels@), ty),
{
    let mut default: Vec<Literal> = Vec::new();
    default.push(Literal::Srgb(channels[0].clone()));
    default.push(Literal::Srgb(channels[1].clone()));
    default.push(Literal::Srgb(channels[2].clone()));
    if ty.components() > 3 {
        default.push(Literal::One);
    }
    proof {
        assert(literals_view(default@) =~= colour_default(words_view(channels@), ty));
    }
    default
}

/// The widget and the default an annotation gives a parameter of a type.
pub fn parse_widget(line: usize, ty: ParamType, annotation: &[char]) -> (answer: Result<
    (Widget<Literal>, Vec<Literal>),
    ParamError,
>)
    ensures
        match answer {
            Ok(parts) => widget_in(ty, annotation@) == Ok::<
                (Widget<LiteralView>, Seq<LiteralView>),
                Seq<char>,
            >((widget_view(parts.0), literals_view(parts.1@))),
            Err(error) => error.line == line && widget_in(ty, annotation@) == Err::<
                (Widget<LiteralView>, Seq<LiteralView>),
                Seq<char>,
            >(error.reason@),
        },
{
    if is_word(annotation, "hidden") {
        let mut default: Vec<Literal> = Vec::new();
        let count: usize = ty.components();
        while default.len() < count
            invariant
                default@.len() <= count,
                forall|i: int| 0 <= i < default@.len() ==> (#[trigger] default@[i])@ == LiteralView::Zero,
            decreases count - default@.len(),
        {
            default.push(Literal::Zero);
        }
        proof {
            assert(literals_view(default@) =~= Seq::new(
                ty.count() as nat,
                |i: int| LiteralView::Zero,
            ));
        }
        return Ok((Widget::Hidden, default));
    }
    if let Some(rest) = strip_prefix(annotation, "toggle") {
        return match parse_toggle(line, rest) {
            Ok(default) => Ok((Widget::Toggle, default)),
            Err(error) => Err(error),
        };
    }
    if let Some(rest) = strip_prefix(annotation, "color") {
        if ty.components() < 3 {
            return Err(fault(line, String::from_str("a colour needs three components or four")));
        }
        let channels: Vec<String> = match parse_tuple(
            line,
            trim_start_matches(trim(rest), "srgb"),
        ) {
            Ok(channels) => channels,
            Err(error) => {
                return Err(error);
            },
        };
        if channels.len() < 3 {
            return Err(fault(line, String::from_str("a colour is written as `srgb(r, g, b)`")));
        }
        return Ok((Widget::Color, colour_literals(&channels, ty)));
    }
    let (text, rest): (&[char], &[char]) = match split_default(
        line,
        trim_start(trim_start_matches(annotation, "vec")),
    ) {
        Ok(halves) => halves,
        Err(error) => {
            return Err(error);
        },
    };
    let words: Vec<String> = match parse_tuple(line, text) {
        Ok(words) => words,
        Err(error) => {
            return Err(error);
        },
    };
    if words.len() != ty.components() {
        let mut reason: String = String::from_str("the default has ");
        reason.append(decimal_of(words.len() as u128).as_str());
        reason.append(" components, where `");
        reason.append(ty.as_str());
        reason.append("` has ");
        reason.append(decimal_of(ty.components() as u128).as_str());
        return Err(fault(line, reason));
    }
    match parse_slider(line, rest) {
        Ok(widget) => Ok((widget, literals_of(words))),
        Err(error) => Err(error),
    }
}

} // verus!
