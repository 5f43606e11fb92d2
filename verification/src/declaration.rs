//! The `Params` struct of a shader, read out of its source.

use vstd::prelude::*;
use crate::annotation::{label_in, parse_widget, split_label, widget_in};
use crate::params::{
    fault, field_view, fields_view, packed_end, packed_size, parse_type, rounded_up, type_named,
    FieldView, Literal, LiteralView, ParamError, ParamField, ParamType, ParamsLayout, Widget,
    MAX_PARAM_BYTES, PARAMS_STRUCT,
};
use crate::text::{
    after_start, between, chars_of, decimal, decimal_of, divided, is_white, is_word, lines_of, split_lines,
    split_once, starts, starts_with, string_of, strip_prefix, trim, trim_end_matches, trim_start,
    trim_start_matches, trimmed, trimmed_start, white, without_end, without_start,
};

verus! {

/// Whether a character can stand in the name of a struct: a letter, a digit, an underscore,
/// or anything beyond ASCII that is not white space.
pub open spec fn name_char(c: char) -> bool {
    ||| 'a' <= c && c <= 'z'
    ||| 'A' <= c && c <= 'Z'
    ||| '0' <= c && c <= '9'
    ||| c == '_'
    ||| c > '\u{7f}' && !white(c)
}

/// Whether text starts with the name `Params`, and not with a longer one.
pub open spec fn names_params(text: Seq<char>) -> bool {
    match after_start(text, PARAMS_STRUCT@) {
        Some(rest) => rest.len() == 0 || !name_char(rest[0]),
        None => false,
    }
}

/// Whether a line opens the `Params` struct.
pub open spec fn opens_params(line: Seq<char>) -> bool {
    let text = trimmed_start(line);
    starts(text, "struct "@) && names_params(trimmed_start(without_start(text, "struct "@)))
}

/// Whether a line closes a struct.
pub open spec fn closes(line: Seq<char>) -> bool {
    trimmed(line) == "}"@
}

/// The first line at or after `from` that opens the `Params` struct.
pub open spec fn first_open(lines: Seq<Seq<char>>, from: int) -> Option<int>
    decreases lines.len() - from,
{
    if from < 0 || from >= lines.len() {
        None
    } else if opens_params(lines[from]) {
        Some(from)
    } else {
        first_open(lines, from + 1)
    }
}

/// The first line at or after `from` that closes a struct.
pub open spec fn first_close(lines: Seq<Seq<char>>, from: int) -> Option<int>
    decreases lines.len() - from,
{
    if from < 0 || from >= lines.len() {
        None
    } else if closes(lines[from]) {
        Some(from)
    } else {
        first_close(lines, from + 1)
    }
}

/// The parameter a line declares under `group` after the parameters `before` it, or why it
/// declares none.
pub open spec fn field_in(
    text: Seq<char>,
    group: Seq<char>,
    before: Seq<FieldView<LiteralView>>,
) -> Result<FieldView<LiteralView>, Seq<char>> {
    match divided(text, "//"@) {
        None => Err("no `@ui` annotation"@),
        Some((declaration, comment)) => match after_start(trimmed(comment), "@ui"@) {
            None => Err("no `@ui` annotation"@),
            Some(annotation) => match divided(
                trimmed(without_end(trimmed(declaration), ',')),
                ":"@,
            ) {
                None => Err("not a `name: type` declaration"@),
                Some((name, ty)) => match type_named(trimmed(ty)) {
                    None => Err("`"@ + trimmed(ty) + "` is not a parameter type"@),
                    Some(kind) => if exists|i: int|
                        0 <= i < before.len() && (#[trigger] before[i]).name == trimmed(name) {
                        Err("`"@ + trimmed(name) + "` is declared twice"@)
                    } else {
                        let (label, rest) = label_in(trimmed(annotation));
                        match widget_in(kind, rest) {
                            Err(reason) => Err(reason),
                            Ok((widget, default)) => Ok(
                                FieldView {
                                    name: trimmed(name),
                                    label: match label {
                                        Some(label) => label,
                                        None => trimmed(name),
                                    },
                                    group,
                                    ty: kind,
                                    widget,
                                    default,
                                    offset: rounded_up(packed_end(before), kind.grain()),
                                },
                            ),
                        }
                    },
                },
            },
        },
    }
}

/// A fault: the line it is on, counting from one, or zero, and what is wrong.
pub type FaultView = (int, Seq<char>);

/// The parameters that the lines from `index` up to `end` declare after those `before`
/// them, or the first fault.
pub open spec fn fields_in(
    lines: Seq<Seq<char>>,
    index: int,
    end: int,
    group: Seq<char>,
    before: Seq<FieldView<LiteralView>>,
) -> Result<Seq<FieldView<LiteralView>>, FaultView>
    decreases end - index,
{
    if index >= end {
        Ok(before)
    } else {
        let text = trimmed(lines[index]);
        match after_start(text, "// @group "@) {
            Some(name) => fields_in(lines, index + 1, end, trimmed(name), before),
            None => if text.len() == 0 || starts(text, "//"@) {
                fields_in(lines, index + 1, end, group, before)
            } else {
                match field_in(text, group, before) {
                    Ok(field) => fields_in(lines, index + 1, end, group, before.push(field)),
                    Err(reason) => Err((index + 1, reason)),
                }
            },
        }
    }
}

/// The parameters a shader declares, or the first fault in them. A source with no `Params`
/// struct declares none.
pub open spec fn declared(source: Seq<char>) -> Result<Seq<FieldView<LiteralView>>, FaultView> {
    let lines = lines_of(source);
    match first_open(lines, 0) {
        None => Ok(Seq::empty()),
        Some(open) => match first_close(lines, open) {
            None => Err((open + 1, "`"@ + PARAMS_STRUCT@ + "` is never closed"@)),
            Some(close) => match fields_in(lines, open + 1, close, Seq::empty(), Seq::empty()) {
                Err(fault) => Err(fault),
                Ok(fields) => if packed_size(fields) > MAX_PARAM_BYTES {
                    Err(
                        (
                            0,
                            "the parameters pack into "@ + decimal(packed_size(fields) as nat)
                                + " bytes, over the "@ + decimal(MAX_PARAM_BYTES as nat)
                                + " limit"@,
                        ),
                    )
                } else {
                    Ok(fields)
                },
            },
        },
    }
}

/// Whether `fields` holds what was read so far. An offset past the largest uniform is held
/// at that.
spec fn holds(
    fields: Seq<ParamField<Literal>>,
    seen: Seq<FieldView<LiteralView>>,
    end: int,
) -> bool {
    &&& fields.len() == seen.len()
    &&& end == packed_end(seen)
    &&& 0 <= end <= 32 * seen.len()
    &&& forall|i: int|
        0 <= i < seen.len() ==> 0 <= (#[trigger] seen[i]).offset <= end && field_view(fields[i])
            == (FieldView { offset: fields[i].offset as int, ..seen[i] }) && fields[i].offset == (
        if seen[i].offset <= MAX_PARAM_BYTES {
            seen[i].offset
        } else {
            MAX_PARAM_BYTES as int
        })
}

proof fn lemma_rounded_up(bytes: int, ty: ParamType)
    requires
        0 <= bytes,
    ensures
        bytes <= rounded_up(bytes, ty.grain()) < bytes + ty.grain(),
        bytes <= rounded_up(bytes, 16) < bytes + 16,
{
    let grain = ty.grain();
    if grain == 4 {
        assert(rounded_up(bytes, 4) == (bytes + 3) / 4 * 4);
    } else if grain == 8 {
        assert(rounded_up(bytes, 8) == (bytes + 7) / 8 * 8);
    } else {
        assert(rounded_up(bytes, 16) == (bytes + 15) / 16 * 16);
    }
}

fn round_up(bytes: u128, grain: usize) -> (answer: u128)
    requires
        grain == 4 || grain == 8 || grain == 16,
        bytes <= 0xffff_ffff_ffff_ffff_ffff_ffff,
    ensures
        answer == rounded_up(bytes as int, grain as int),
{
    if grain == 4 {
        (bytes + 3) / 4 * 4
    } else if grain == 8 {
        (bytes + 7) / 8 * 8
    } else {
        (bytes + 15) / 16 * 16
    }
}

/// Whether a parameter of that name was declared.
fn is_declared(fields: &Vec<ParamField<Literal>>, name: &[char], Ghost(seen): Ghost<
    Seq<FieldView<LiteralView>>,
>, Ghost(end): Ghost<int>) -> (answer: bool)
    requires
        holds(fields@, seen, end),
    ensures
        answer == exists|i: int| 0 <= i < seen.len() && (#[trigger] seen[i]).name == name@,
{
    let mut i: usize = 0;
    while i < fields.len()
        invariant
            i <= fields@.len(),
            holds(fields@, seen, end),
            forall|j: int| 0 <= j < i ==> (#[trigger] seen[j]).name != name@,
        decreases fields@.len() - i,
    {
        assert(field_view(fields@[i as int]) == (FieldView {
            offset: fields@[i as int].offset as int,
            ..seen[i as int]
        }));
        if is_word(name, fields[i].name.as_str()) {
            return true;
        }
        i = i + 1;
    }
    false
}

/// The parameter a line declares.
fn parse_field(
    number: usize,
    text: &[char],
    group: &String,
    fields: &Vec<ParamField<Literal>>,
    end: u128,
    Ghost(seen): Ghost<Seq<FieldView<LiteralView>>>,
) -> (answer: Result<(ParamField<Literal>, u128), ParamError>)
    requires
        holds(fields@, seen, end as int),
        end <= 0xffff_ffff_ffff_ffff_ffff_ffff,
    ensures
        match answer {
            Ok(parts) => {
                let goal = field_in(text@, group@, seen);
                &&& goal is Ok
                &&& goal->Ok_0.offset == parts.1
                &&& field_view(parts.0) == (FieldView {
                    offset: parts.0.offset as int,
                    ..goal->Ok_0
                })
                &&& parts.0.offset == (if parts.1 <= MAX_PARAM_BYTES {
                    parts.1 as int
                } else {
                    MAX_PARAM_BYTES as int
                })
            },
            Err(error) => error.line == number && field_in(text@, group@, seen) == Err::<
                FieldView<LiteralView>,
                Seq<char>,
            >(error.reason@),
        },
{
    let (declaration, comment): (&[char], &[char]) = match split_once(text, "//") {
        Some(halves) => halves,
        None => {
            return Err(fault(number, String::from_str("no `@ui` annotation")));
        },
    };
    let annotation: &[char] = match strip_prefix(trim(comment), "@ui") {
        Some(rest) => trim(rest),
        None => {
            return Err(fault(number, String::from_str("no `@ui` annotation")));
        },
    };
    let (name, ty): (&[char], &[char]) = match split_once(
        trim(trim_end_matches(trim(declaration), ',')),
        ":",
    ) {
        Some(halves) => (trim(halves.0), trim(halves.1)),
        None => {
            return Err(fault(number, String::from_str("not a `name: type` declaration")));
        },
    };
    let kind: ParamType = match parse_type(ty) {
        Some(kind) => kind,
        None => {
            return Err(fault(number, between("`", ty, "` is not a parameter type")));
        },
    };
    if is_declared(fields, name, Ghost(seen), Ghost(end as int)) {
        return Err(fault(number, between("`", name, "` is declared twice")));
    }
    let (label, rest): (Option<String>, &[char]) = split_label(annotation);
    let (widget, default): (Widget<Literal>, Vec<Literal>) = match parse_widget(
        number,
        kind,
        rest,
    ) {
        Ok(parts) => parts,
        Err(error) => {
            return Err(error);
        },
    };
    let offset: u128 = round_up(end, kind.alignment());
    let field = ParamField {
        name: string_of(name),
        label: match label {
            Some(label) => label,
            None => string_of(name),
        },
        group: group.clone(),
        ty: kind,
        widget,
        default,
        offset: if offset <= MAX_PARAM_BYTES as u128 {
            offset as usize
        } else {
            MAX_PARAM_BYTES
        },
    };
    Ok((field, offset))
}

/// Whether a character can stand in the name of a struct.
fn is_name_char(c: char) -> (answer: bool)
    ensures
        answer == name_char(c),
{
    ('a' <= c && c <= 'z') || ('A' <= c && c <= 'Z') || ('0' <= c && c <= '9') || c == '_' || (c
        > '\u{7f}' && !is_white(c))
}

/// Whether text starts with the name `Params`, and not with a longer one.
fn is_params(text: &[char]) -> (answer: bool)
    ensures
        answer == names_params(text@),
{
    match strip_prefix(text, PARAMS_STRUCT) {
        Some(rest) => rest.len() == 0 || !is_name_char(rest[0]),
        None => false,
    }
}

fn find_open(lines: &Vec<&[char]>, Ghost(texts): Ghost<Seq<Seq<char>>>) -> (answer: Option<usize>)
    requires
        lines@.len() == texts.len(),
        forall|i: int| 0 <= i < texts.len() ==> (#[trigger] lines@[i])@ == texts[i],
    ensures
        match answer {
            Some(open) => first_open(texts, 0) == Some(open as int) && open < lines@.len(),
            None => first_open(texts, 0) is None,
        },
{
    let mut i: usize = 0;
    while i < lines.len()
        invariant
            i <= lines@.len(),
            lines@.len() == texts.len(),
            forall|j: int| 0 <= j < texts.len() ==> (#[trigger] lines@[j])@ == texts[j],
            first_open(texts, 0) == first_open(texts, i as int),
        decreases lines@.len() - i,
    {
        let text: &[char] = trim_start(lines[i]);
        if starts_with(text, "struct ") && is_params(
            trim_start(trim_start_matches(text, "struct ")),
        ) {
            return Some(i);
        }
        i = i + 1;
    }
    None
}

fn find_close(
    lines: &Vec<&[char]>,
    open: usize,
    Ghost(texts): Ghost<Seq<Seq<char>>>,
) -> (answer: Option<usize>)
    requires
        lines@.len() == texts.len(),
        open < lines@.len(),
        forall|i: int| 0 <= i < texts.len() ==> (#[trigger] lines@[i])@ == texts[i],
    ensures
        match answer {
            Some(close) => first_close(texts, open as int) == Some(close as int) && close
                < lines@.len(),
            None => first_close(texts, open as int) is None,
        },
{
    let mut i: usize = open;
    while i < lines.len()
        invariant
            i <= lines@.len(),
            lines@.len() == texts.len(),
            forall|j: int| 0 <= j < texts.len() ==> (#[trigger] lines@[j])@ == texts[j],
            first_close(texts, open as int) == first_close(texts, i as int),
        decreases lines@.len() - i,
    {
        if is_word(trim(lines[i]), "}") {
            return Some(i);
        }
        i = i + 1;
    }
    None
}

/// The parameters a shader declares, read out of its source.
///
/// Reads the `Params` struct and nothing else: a field without a `@ui` annotation is a
/// fault rather than a parameter with a guessed widget, because a shader whose panel is
/// guessed at is one whose uniform the editor and the GPU disagree about. A source with no
/// `Params` struct declares no parameters and is not a fault.
///
/// Fails on the first fault and reports the line it is on.
pub fn parse_params(source: &str) -> (answer: Result<ParamsLayout<Literal>, ParamError>)
    ensures
        match answer {
            Ok(layout) => declared(source@) == Ok::<Seq<FieldView<LiteralView>>, FaultView>(
                fields_view(layout.fields@),
            ) && layout.byte_size == packed_size(fields_view(layout.fields@)),
            Err(error) => declared(source@) == Err::<Seq<FieldView<LiteralView>>, FaultView>(
                (error.line as int, error.reason@),
            ),
        },
{
    let chars: Vec<char> = chars_of(source);
    let lines: Vec<&[char]> = split_lines(chars.as_slice());
    let count: usize = lines.len();
    let ghost texts = lines_of(source@);
    let open: usize = match find_open(&lines, Ghost(texts)) {
        Some(open) => open,
        None => {
            let fields: Vec<ParamField<Literal>> = Vec::new();
            proof {
                assert(fields_view(fields@) =~= Seq::<FieldView<LiteralView>>::empty());
            }
            return Ok(ParamsLayout { fields, byte_size: 0 });
        },
    };
    let close: usize = match find_close(&lines, open, Ghost(texts)) {
        Some(close) => close,
        None => {
            let name: Vec<char> = chars_of(PARAMS_STRUCT);
            return Err(fault(open + 1, between("`", name.as_slice(), "` is never closed")));
        },
    };

    let mut group: String = String::new();
    let mut fields: Vec<ParamField<Literal>> = Vec::new();
    let mut end: u128 = 0;
    let ghost mut seen: Seq<FieldView<LiteralView>> = Seq::empty();
    let ghost goal = fields_in(texts, open + 1, close as int, Seq::empty(), Seq::empty());
    let mut index: usize = open + 1;
    while index < close
        invariant
            open < index,
            close < count,
            count == lines@.len(),
            lines@.len() == texts.len(),
            forall|i: int| 0 <= i < texts.len() ==> (#[trigger] lines@[i])@ == texts[i],
            texts == lines_of(source@),
            first_open(texts, 0) == Some(open as int),
            first_close(texts, open as int) == Some(close as int),
            goal == fields_in(texts, open + 1, close as int, Seq::empty(), Seq::empty()),
            goal == fields_in(texts, index as int, close as int, group@, seen),
            holds(fields@, seen, end as int),
            seen.len() <= index,
        decreases close - index,
    {
        let number: usize = index + 1;
        let text: &[char] = trim(lines[index]);
        if let Some(name) = strip_prefix(text, "// @group ") {
            group = string_of(trim(name));
        } else if text.len() > 0 && !starts_with(text, "//") {
            match parse_field(number, text, &group, &fields, end, Ghost(seen)) {
                Ok((field, offset)) => {
                    proof {
                        let view = field_in(text@, group@, seen)->Ok_0;
                        lemma_rounded_up(end as int, view.ty);
                        let more = seen.push(view);
                        assert forall|i: int| 0 <= i < more.len() implies 0 <= (
                        #[trigger] more[i]).offset <= packed_end(more) by {
                            if i < seen.len() {
                                assert(more[i] == seen[i]);
                            }
                        }
                        seen = more;
                    }
                    end = offset + field.ty.size() as u128;
                    fields.push(field);
                },
                Err(error) => {
                    return Err(error);
                },
            }
        }
        index = index + 1;
    }

    let byte_size: u128 = if fields.len() == 0 {
        0
    } else {
        round_up(end, 16)
    };
    proof {
        assert(byte_size == packed_size(seen));
        lemma_rounded_up(end as int, ParamType::F32);
    }
    if byte_size > MAX_PARAM_BYTES as u128 {
        let mut reason: String = String::from_str("the parameters pack into ");
        reason.append(decimal_of(byte_size).as_str());
        reason.append(" bytes, over the ");
        reason.append(decimal_of(MAX_PARAM_BYTES as u128).as_str());
        reason.append(" limit");
        return Err(fault(0, reason));
    }
    proof {
        assert forall|i: int| 0 <= i < seen.len() implies fields_view(fields@)[i] == seen[i] by {
            assert(seen[i].offset <= end);
        }
        assert(fields_view(fields@) =~= seen);
    }
    Ok(ParamsLayout { fields, byte_size: byte_size as usize })
}

} // verus!
