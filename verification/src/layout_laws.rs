//! What holds of every uniform a shader's parameters pack into.

use vstd::arithmetic::power2::{lemma_pow2_pos, pow2};
use vstd::prelude::*;
use crate::declaration::{declared, field_in, fields_in};
use crate::layout::{
    as_word, component_of, named_from, overwritten, resolved_to, widget_literals, with_components,
    with_fields, word_of,
};
use crate::params::{
    packed_end, packed_size, rounded_up, FieldView, Literal, LiteralView, ParamField, ParamType,
    Widget, MAX_PARAM_BYTES,
};
use crate::single::{held_between, le_bytes, Single};
use crate::single_laws::{law_rounding_gives_the_nearest_integer, law_the_bytes_of_a_word_spell_it};
use crate::text::{after_start, starts, trimmed};

verus! {

/// Whether each parameter starts on its alignment and after the one before it ends, no two
/// share a name, and each default has the components of its type. A toggle's default is one
/// number.
pub open spec fn laid_out(fields: Seq<FieldView<LiteralView>>) -> bool {
    &&& forall|i: int|
        0 <= i < fields.len() ==> 0 <= (#[trigger] fields[i]).offset && fields[i].offset
            % fields[i].ty.grain() == 0
    &&& forall|i: int, j: int|
        0 <= i < j < fields.len() ==> (#[trigger] fields[i]).offset + 4 * fields[i].ty.count() <= (
        #[trigger] fields[j]).offset && fields[i].name != fields[j].name
    &&& forall|i: int|
        0 <= i < fields.len() ==> (#[trigger] fields[i]).default.len() == (
        if fields[i].widget == Widget::<LiteralView>::Toggle {
            1
        } else {
            fields[i].ty.count()
        })
}

/// The parameters a shader declares are laid out: in declaration order, each on its own
/// alignment, none over another, no name twice, and all of them inside a uniform that is a
/// multiple of sixteen bytes and no larger than the limit.
pub proof fn law_declared_parameters_are_laid_out(source: Seq<char>)
    ensures
        declared(source) matches Ok(fields) ==> {
            &&& laid_out(fields)
            &&& packed_size(fields) <= MAX_PARAM_BYTES
            &&& packed_size(fields) % 16 == 0
            &&& forall|i: int|
                0 <= i < fields.len() ==> (#[trigger] fields[i]).offset + 4 * fields[i].ty.count()
                    <= packed_size(fields)
        },
{
    let lines = crate::text::lines_of(source);
    if let Some(open) = crate::declaration::first_open(lines, 0) {
        if let Some(close) = crate::declaration::first_close(lines, open) {
            lemma_fields_laid_out(lines, open + 1, close, Seq::empty(), Seq::empty());
        }
    }
    if let Ok(fields) = declared(source) {
        if fields.len() > 0 {
            let end = packed_end(fields);
            assert forall|i: int| 0 <= i < fields.len() implies (#[trigger] fields[i]).offset + 4
                * fields[i].ty.count() <= end by {
                if i < fields.len() - 1 {
                    assert(fields[i].offset + 4 * fields[i].ty.count() <= fields[fields.len()
                        - 1].offset);
                }
            }
            assert(0 <= fields[0].offset);
            assert(end <= rounded_up(end, 16));
        }
    }
}

proof fn lemma_fields_laid_out(
    lines: Seq<Seq<char>>,
    index: int,
    end: int,
    group: Seq<char>,
    before: Seq<FieldView<LiteralView>>,
)
    requires
        laid_out(before),
    ensures
        fields_in(lines, index, end, group, before) matches Ok(fields) ==> laid_out(fields),
    decreases end - index,
{
    if index < end {
        let text = trimmed(lines[index]);
        match after_start(text, "// @group "@) {
            Some(name) => {
                lemma_fields_laid_out(lines, index + 1, end, trimmed(name), before);
            },
            None => {
                if text.len() == 0 || starts(text, "//"@) {
                    lemma_fields_laid_out(lines, index + 1, end, group, before);
                } else {
                    if let Ok(field) = field_in(text, group, before) {
                        lemma_one_more(text, group, before);
                        lemma_fields_laid_out(lines, index + 1, end, group, before.push(field));
                    }
                }
            },
        }
    }
}

proof fn lemma_one_more(
    text: Seq<char>,
    group: Seq<char>,
    before: Seq<FieldView<LiteralView>>,
)
    requires
        laid_out(before),
        field_in(text, group, before) is Ok,
    ensures
        laid_out(before.push(field_in(text, group, before)->Ok_0)),
{
    let field = field_in(text, group, before)->Ok_0;
    let more = before.push(field);
    let end = packed_end(before);
    assert(0 <= end) by {
        if before.len() > 0 {
            assert(0 <= before[before.len() - 1].offset);
        }
    }
    lemma_aligned(end, field.ty);
    assert forall|i: int, j: int| 0 <= i < j < more.len() implies (#[trigger] more[i]).offset + 4
        * more[i].ty.count() <= (#[trigger] more[j]).offset && more[i].name != more[j].name by {
        assert(more[i] == before[i]);
        if j < before.len() {
            assert(more[j] == before[j]);
        } else {
            assert(before[i].name != field.name);
            if i < before.len() - 1 {
                assert(before[i].offset + 4 * before[i].ty.count() <= before[before.len()
                    - 1].offset);
            }
        }
    }
    assert forall|i: int| 0 <= i < more.len() implies 0 <= (#[trigger] more[i]).offset
        && more[i].offset % more[i].ty.grain() == 0 by {
        if i < before.len() {
            assert(more[i] == before[i]);
        }
    }
    assert forall|i: int| 0 <= i < more.len() implies (#[trigger] more[i]).default.len() == (
    if more[i].widget == Widget::<LiteralView>::Toggle {
        1
    } else {
        more[i].ty.count()
    }) by {
        if i < before.len() {
            assert(more[i] == before[i]);
        }
    }
}

proof fn lemma_aligned(bytes: int, ty: ParamType)
    requires
        0 <= bytes,
    ensures
        bytes <= rounded_up(bytes, ty.grain()),
        rounded_up(bytes, ty.grain()) % ty.grain() == 0,
{
    let grain = ty.grain();
    if grain == 4 {
        assert(rounded_up(bytes, 4) == (bytes + 3) / 4 * 4);
    } else if grain == 8 {
        assert(rounded_up(bytes, 8) == (bytes + 7) / 8 * 8);
    } else {
        assert(rounded_up(bytes, 16) == (bytes + 15) / 16 * 16);
    }
}

/// Whether no parameter of a layout lies over another and all lie inside `size` bytes.
pub open spec fn apart(fields: Seq<ParamField<Single>>, size: int) -> bool {
    &&& forall|i: int|
        0 <= i < fields.len() ==> (#[trigger] fields[i]).offset + 4 * fields[i].ty.count() <= size
    &&& forall|i: int, j: int|
        0 <= i < j < fields.len() ==> (#[trigger] fields[i]).offset + 4 * fields[i].ty.count() <= (
        #[trigger] fields[j]).offset
}

/// Whether a byte belongs to a component of one of the first `count` parameters.
pub open spec fn owned(fields: Seq<ParamField<Single>>, count: int, at: int) -> bool {
    exists|i: int|
        0 <= i < count && (#[trigger] fields[i]).offset <= at < fields[i].offset + 4
            * fields[i].ty.count()
}

/// Packing writes each component of each parameter at its place and nothing anywhere else:
/// its four bytes are its word, and a byte between parameters is zero.
pub proof fn law_packing_puts_each_component_in_its_place(
    fields: Seq<ParamField<Single>>,
    size: int,
    values: Map<Seq<char>, Seq<Single>>,
    index: int,
    component: int,
)
    requires
        apart(fields, size),
        0 <= size,
        0 <= index < fields.len(),
        0 <= component < fields[index].ty.count(),
    ensures
        ({
            let bytes = with_fields(size, fields, values, fields.len() as int);
            let at = fields[index].offset + 4 * component;
            &&& bytes.len() == size
            &&& bytes.subrange(at, at + 4) == word_of(
                fields[index].ty,
                component_of(fields[index], values, component),
            )
            &&& forall|i: int|
                0 <= i < size && !owned(fields, fields.len() as int, i) ==> #[trigger] bytes[i] == 0
        }),
{
    lemma_fields_written(fields, size, values, fields.len() as int, index, component);
    lemma_gaps_are_zero(fields, size, values, fields.len() as int);
}

/// The number that four bytes at a place stand for, the least significant first.
pub open spec fn word_at(bytes: Seq<u8>, at: int) -> int {
    bytes[at] + 0x100 * bytes[at + 1] + 0x1_0000 * bytes[at + 2] + 0x100_0000 * bytes[at + 3]
}

/// A component of a parameter that is not an integer is written as its pattern, least
/// significant byte first, four bytes per component from the parameter's offset on: the
/// `k`th number the document carries for the parameter, or the `k`th of the default where
/// the document does not carry it, and zero past the end of either.
pub proof fn law_a_component_is_the_number_of_the_same_place(
    fields: Seq<ParamField<Single>>,
    size: int,
    values: Map<Seq<char>, Seq<Single>>,
    index: int,
    k: int,
)
    requires
        apart(fields, size),
        0 <= size,
        0 <= index < fields.len(),
        0 <= k < fields[index].ty.count(),
        fields[index].ty != ParamType::I32,
        fields[index].ty != ParamType::U32,
    ensures
        ({
            let bytes = with_fields(size, fields, values, fields.len() as int);
            let field = fields[index];
            let held = values.dom().contains(field.name@);
            let word = word_at(bytes, field.offset + 4 * k);
            &&& bytes.len() == size
            &&& held && k < values[field.name@].len() ==> word == values[field.name@][k].0
            &&& held && k >= values[field.name@].len() ==> word == 0
            &&& !held && k < field.default@.len() ==> word == field.default@[k].0
            &&& !held && k >= field.default@.len() ==> word == 0
        }),
{
    law_packing_puts_each_component_in_its_place(fields, size, values, index, k);
    assert(fields[index].offset + 4 * fields[index].ty.count() <= size);
    lemma_word_at(
        with_fields(size, fields, values, fields.len() as int),
        fields[index].offset + 4 * k,
        component_of(fields[index], values, k).0,
    );
}

proof fn lemma_word_at(bytes: Seq<u8>, at: int, word: u32)
    requires
        0 <= at,
        at + 4 <= bytes.len(),
        bytes.subrange(at, at + 4) == le_bytes(word),
    ensures
        word_at(bytes, at) == word,
{
    let four = bytes.subrange(at, at + 4);
    assert(four[0] == bytes[at] && four[1] == bytes[at + 1] && four[2] == bytes[at + 2] && four[3]
        == bytes[at + 3]);
    law_the_bytes_of_a_word_spell_it(word);
}

proof fn lemma_held_is_nearest(value: Single, least: int, most: int, whole: int)
    requires
        !value.nan(),
        least <= most,
        whole == held_between(value.nearest(), least, most),
    ensures
        least <= whole <= most,
        whole > least ==> 2 * (whole * pow2(149) - value.units()) <= pow2(149),
        whole < most ==> 2 * (whole * pow2(149) - value.units()) >= -pow2(149),
{
    law_rounding_gives_the_nearest_integer(value);
    let nearest = value.nearest();
    let unit = pow2(149) as int;
    lemma_pow2_pos(149);
    assert(nearest < least ==> nearest * unit <= least * unit) by (nonlinear_arith)
        requires
            unit > 0,
    ;
    assert(nearest > most ==> nearest * unit >= most * unit) by (nonlinear_arith)
        requires
            unit > 0,
    ;
}

/// An integer parameter is written as the integer nearest to its number, the document's first
/// where it carries the parameter and the default's otherwise, held at the ends of the
/// integer's range: a signed one counted round from the top where it is negative.
pub proof fn law_an_integer_is_the_nearest_to_its_number(
    fields: Seq<ParamField<Single>>,
    size: int,
    values: Map<Seq<char>, Seq<Single>>,
    index: int,
    row: Seq<Single>,
)
    requires
        apart(fields, size),
        0 <= size,
        0 <= index < fields.len(),
        fields[index].ty == ParamType::I32 || fields[index].ty == ParamType::U32,
        values.dom().contains(fields[index].name@) ==> row == values[fields[index].name@],
        !values.dom().contains(fields[index].name@) ==> row == fields[index].default@,
        row.len() > 0,
        !row[0].nan(),
    ensures
        ({
            let bytes = with_fields(size, fields, values, fields.len() as int);
            let signed = fields[index].ty == ParamType::I32;
            let word = word_at(bytes, fields[index].offset as int);
            let whole = if signed && word >= 0x8000_0000 {
                word - 0x1_0000_0000
            } else {
                word
            };
            let units = row[0].units();
            let least = if signed {
                i32::MIN as int
            } else {
                0
            };
            let most = if signed {
                i32::MAX as int
            } else {
                u32::MAX as int
            };
            &&& least <= whole <= most
            &&& whole > least ==> 2 * (whole * pow2(149) - units) <= pow2(149)
            &&& whole < most ==> 2 * (whole * pow2(149) - units) >= -pow2(149)
        }),
{
    law_packing_puts_each_component_in_its_place(fields, size, values, index, 0);
    assert(fields[index].offset + 4 * fields[index].ty.count() <= size);
    let value = row[0];
    let least: int = if fields[index].ty == ParamType::I32 {
        i32::MIN as int
    } else {
        0
    };
    let most: int = if fields[index].ty == ParamType::I32 {
        i32::MAX as int
    } else {
        u32::MAX as int
    };
    let whole = held_between(value.nearest(), least, most);
    lemma_held_is_nearest(value, least, most, whole);
    lemma_word_at(
        with_fields(size, fields, values, fields.len() as int),
        fields[index].offset as int,
        as_word(whole),
    );
}

/// The numbers a parameter's literals stand for end up where its literals stood: the `k`th
/// of the default at the `k`th place, the ends and the step of a slider at its ends and its
/// step.
pub proof fn law_each_literal_gets_its_own_number(
    read: ParamField<Literal>,
    numbers: Seq<Single>,
    field: ParamField<Single>,
    number: spec_fn(Literal) -> Single,
)
    requires
        resolved_to(read, numbers, field),
        numbers.len() == read.all_literals().len(),
        forall|i: int|
            0 <= i < numbers.len() ==> #[trigger] numbers[i] == number(read.all_literals()[i]),
    ensures
        field.name == read.name && field.label == read.label && field.group == read.group,
        field.ty == read.ty && field.offset == read.offset,
        field.default@.len() == read.default@.len(),
        forall|k: int|
            0 <= k < read.default@.len() ==> #[trigger] field.default@[k] == number(
                read.default@[k],
            ),
        read.widget is Color <==> field.widget is Color,
        read.widget is Toggle <==> field.widget is Toggle,
        read.widget is Hidden <==> field.widget is Hidden,
        read.widget matches Widget::Slider { min, max, step } ==> {
            &&& field.widget is Slider
            &&& field.widget->min == number(min)
            &&& field.widget->max == number(max)
            &&& step is Some <==> field.widget->step is Some
            &&& step matches Some(step) ==> field.widget->step == Some(number(step))
        },
{
    let rest = numbers.skip(read.default@.len() as int);
    let n = read.default@.len() as int;
    assert forall|k: int| 0 <= k < n implies #[trigger] field.default@[k] == number(
        read.default@[k],
    ) by {
        assert(field.default@[k] == numbers[k]);
        assert(read.all_literals()[k] == read.default@[k]);
    }
    if let Widget::Slider { min, max, step } = read.widget {
        let shown = widget_literals(read.widget);
        assert(read.all_literals()[n] == shown[0]);
        assert(read.all_literals()[n + 1] == shown[1]);
        assert(rest[0] == numbers[n] && rest[1] == numbers[n + 1]);
        if let Some(step) = step {
            assert(read.all_literals()[n + 2] == shown[2]);
            assert(rest[2] == numbers[n + 2]);
        }
    }
}

proof fn lemma_components_written(
    bytes: Seq<u8>,
    field: ParamField<Single>,
    values: Map<Seq<char>, Seq<Single>>,
    components: int,
)
    requires
        0 <= components <= 4,
        field.offset + 4 * components <= bytes.len(),
    ensures
        with_components(bytes, field, values, components).len() == bytes.len(),
        forall|i: int|
            0 <= i < bytes.len() && !(field.offset <= i < field.offset + 4 * components)
                ==> #[trigger] with_components(bytes, field, values, components)[i] == bytes[i],
        forall|c: int|
            0 <= c < components ==> #[trigger] with_components(
                bytes,
                field,
                values,
                components,
            ).subrange(field.offset + 4 * c, field.offset + 4 * c + 4) == word_of(
                field.ty,
                component_of(field, values, c),
            ),
    decreases components,
{
    if components > 0 {
        lemma_components_written(bytes, field, values, components - 1);
        let before = with_components(bytes, field, values, components - 1);
        let word = word_of(field.ty, component_of(field, values, components - 1));
        let at = field.offset + (components - 1) * 4;
        let after = overwritten(before, at, word);
        assert(word.len() == 4);
        assert forall|c: int| 0 <= c < components implies #[trigger] after.subrange(
            field.offset + 4 * c,
            field.offset + 4 * c + 4,
        ) == word_of(field.ty, component_of(field, values, c)) by {
            if c < components - 1 {
                assert(after.subrange(field.offset + 4 * c, field.offset + 4 * c + 4)
                    =~= before.subrange(field.offset + 4 * c, field.offset + 4 * c + 4));
            } else {
                assert(after.subrange(field.offset + 4 * c, field.offset + 4 * c + 4) =~= word);
            }
        }
    }
}

proof fn lemma_fields_written(
    fields: Seq<ParamField<Single>>,
    size: int,
    values: Map<Seq<char>, Seq<Single>>,
    count: int,
    index: int,
    component: int,
)
    requires
        apart(fields, size),
        0 <= size,
        0 <= index < count <= fields.len(),
        0 <= component < fields[index].ty.count(),
    ensures
        with_fields(size, fields, values, count).len() == size,
        ({
            let at = fields[index].offset + 4 * component;
            with_fields(size, fields, values, count).subrange(at, at + 4) == word_of(
                fields[index].ty,
                component_of(fields[index], values, component),
            )
        }),
    decreases count,
{
    let last = fields[count - 1];
    let before = with_fields(size, fields, values, count - 1);
    lemma_gaps_are_zero(fields, size, values, count - 1);
    lemma_components_written(before, last, values, last.ty.count());
    let after = with_fields(size, fields, values, count);
    let at = fields[index].offset + 4 * component;
    if index < count - 1 {
        lemma_fields_written(fields, size, values, count - 1, index, component);
        assert(fields[index].offset + 4 * fields[index].ty.count() <= last.offset);
        assert(after.subrange(at, at + 4) =~= before.subrange(at, at + 4));
    }
}

proof fn lemma_gaps_are_zero(
    fields: Seq<ParamField<Single>>,
    size: int,
    values: Map<Seq<char>, Seq<Single>>,
    count: int,
)
    requires
        apart(fields, size),
        0 <= size,
        0 <= count <= fields.len(),
    ensures
        with_fields(size, fields, values, count).len() == size,
        forall|i: int|
            0 <= i < size && !owned(fields, count, i) ==> #[trigger] with_fields(
                size,
                fields,
                values,
                count,
            )[i] == 0,
    decreases count,
{
    if count > 0 {
        lemma_gaps_are_zero(fields, size, values, count - 1);
        let before = with_fields(size, fields, values, count - 1);
        let last = fields[count - 1];
        lemma_components_written(before, last, values, last.ty.count());
        assert forall|i: int| 0 <= i < size && !owned(fields, count, i) implies #[trigger] with_fields(
            size,
            fields,
            values,
            count,
        )[i] == 0 by {
            assert(!(fields[count - 1].offset <= i < fields[count - 1].offset + 4 * fields[count
                - 1].ty.count()));
            if owned(fields, count - 1, i) {
                let k = choose|k: int|
                    0 <= k < count - 1 && (#[trigger] fields[k]).offset <= i < fields[k].offset + 4
                        * fields[k].ty.count();
                assert(fields[k].offset <= i);
            }
        }
    }
}

/// A parameter is found by its exact name, the first of that name, and none is found where no
/// parameter has it.
pub proof fn law_a_parameter_is_found_by_its_name(
    fields: Seq<ParamField<Single>>,
    name: Seq<char>,
    from: int,
)
    requires
        0 <= from <= fields.len(),
    ensures
        match named_from(fields, name, from) {
            Some(at) => from <= at < fields.len() && fields[at].name@ == name && forall|i: int|
                from <= i < at ==> (#[trigger] fields[i]).name@ != name,
            None => forall|i: int|
                from <= i < fields.len() ==> (#[trigger] fields[i]).name@ != name,
        },
    decreases fields.len() - from,
{
    if from < fields.len() {
        law_a_parameter_is_found_by_its_name(fields, name, from + 1);
    }
}

} // verus!
