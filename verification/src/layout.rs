//! A shader's parameters with the numbers their literals stand for, and the uniform they
//! pack into.

use vstd::prelude::*;
use crate::params::{Literal, ParamField, ParamType, ParamsLayout, Widget};
use crate::single::{held_between, le4, le_bytes, Single};
use crate::values::Values;

verus! {

/// The literals of a widget: the ends of its range and its step.
pub open spec fn widget_literals(widget: Widget<Literal>) -> Seq<Literal> {
    match widget {
        Widget::Slider { min, max, step } => match step {
            Some(step) => seq![min, max, step],
            None => seq![min, max],
        },
        _ => Seq::empty(),
    }
}

/// A widget with the numbers its literals stand for.
pub open spec fn widget_with(widget: Widget<Literal>, numbers: Seq<Single>) -> Widget<Single> {
    match widget {
        Widget::Slider { min, max, step } => Widget::Slider {
            min: numbers[0],
            max: numbers[1],
            step: match step {
                Some(_) => Some(numbers[2]),
                None => None,
            },
        },
        Widget::Color => Widget::Color,
        Widget::Toggle => Widget::Toggle,
        Widget::Hidden => Widget::Hidden,
    }
}

/// Whether `field` is `read` with the numbers its literals stand for: those of the default
/// first, then those of the widget.
pub open spec fn resolved_to(
    read: ParamField<Literal>,
    numbers: Seq<Single>,
    field: ParamField<Single>,
) -> bool {
    &&& field.name == read.name
    &&& field.label == read.label
    &&& field.group == read.group
    &&& field.ty == read.ty
    &&& field.offset == read.offset
    &&& field.default@ == numbers.take(read.default@.len() as int)
    &&& field.widget == widget_with(read.widget, numbers.skip(read.default@.len() as int))
}

impl ParamField<Literal> {
    /// The literals of a parameter: those of its default, then those of its widget.
    pub open spec fn all_literals(&self) -> Seq<Literal> {
        self.default@ + widget_literals(self.widget)
    }

    /// The literals a parameter needs numbers for, in order.
    pub fn literals(&self) -> (list: Vec<&Literal>)
        ensures
            list@.len() == self.all_literals().len(),
            forall|i: int|
                0 <= i < list@.len() ==> *(#[trigger] list@[i]) == self.all_literals()[i],
    {
        let mut list: Vec<&Literal> = Vec::new();
        let mut i: usize = 0;
        while i < self.default.len()
            invariant
                i <= self.default@.len(),
                list@.len() == i,
                forall|j: int| 0 <= j < i ==> *(#[trigger] list@[j]) == self.default@[j],
            decreases self.default@.len() - i,
        {
            list.push(&self.default[i]);
            i = i + 1;
        }
        if let Widget::Slider { min, max, step } = &self.widget {
            list.push(min);
            list.push(max);
            if let Some(step) = step {
                list.push(step);
            }
        }
        list
    }

    /// The parameter with the numbers its literals stand for, or `None` where there is not
    /// one number per literal.
    pub fn resolve(&self, numbers: &Vec<Single>) -> (answer: Option<ParamField<Single>>)
        ensures
            match answer {
                Some(field) => numbers@.len() == self.all_literals().len() && resolved_to(
                    *self,
                    numbers@,
                    field,
                ),
                None => numbers@.len() != self.all_literals().len(),
            },
    {
        let count: usize = self.default.len();
        let extra: usize = match &self.widget {
            Widget::Slider { step, .. } => if step.is_some() {
                3
            } else {
                2
            },
            _ => 0,
        };
        if numbers.len() < count || numbers.len() - count != extra {
            return None;
        }
        let mut default: Vec<Single> = Vec::new();
        let mut i: usize = 0;
        while i < count
            invariant
                i <= count,
                count <= numbers@.len(),
                default@ == numbers@.take(i as int),
            decreases count - i,
        {
            proof {
                assert(numbers@.take(i + 1) =~= numbers@.take(i as int).push(numbers@[i as int]));
            }
            default.push(numbers[i]);
            i = i + 1;
        }
        let widget: Widget<Single> = match &self.widget {
            Widget::Slider { step, .. } => Widget::Slider {
                min: numbers[count],
                max: numbers[count + 1],
                step: match step {
                    Some(_) => Some(numbers[count + 2]),
                    None => None,
                },
            },
            Widget::Color => Widget::Color,
            Widget::Toggle => Widget::Toggle,
            Widget::Hidden => Widget::Hidden,
        };
        Some(
            ParamField {
                name: self.name.clone(),
                label: self.label.clone(),
                group: self.group.clone(),
                ty: self.ty,
                widget,
                default,
                offset: self.offset,
            },
        )
    }
}

impl ParamsLayout<Literal> {
    /// The layout with the numbers its literals stand for, one row of them per parameter,
    /// or `None` where a row does not fit its parameter.
    pub fn resolve(&self, numbers: &Vec<Vec<Single>>) -> (answer: Option<ParamsLayout<Single>>)
        ensures
            match answer {
                Some(layout) => {
                    &&& numbers@.len() == self.fields@.len()
                    &&& layout.fields@.len() == self.fields@.len()
                    &&& layout.byte_size == self.byte_size
                    &&& forall|i: int|
                        0 <= i < self.fields@.len() ==> (#[trigger] numbers@[i])@.len()
                            == self.fields@[i].all_literals().len()
                    &&& forall|i: int|
                        0 <= i < self.fields@.len() ==> resolved_to(
                            self.fields@[i],
                            numbers@[i]@,
                            #[trigger] layout.fields@[i],
                        )
                },
                None => numbers@.len() != self.fields@.len() || exists|i: int|
                    0 <= i < self.fields@.len() && (#[trigger] numbers@[i])@.len()
                        != self.fields@[i].all_literals().len(),
            },
    {
        if numbers.len() != self.fields.len() {
            return None;
        }
        let mut fields: Vec<ParamField<Single>> = Vec::new();
        let mut i: usize = 0;
        while i < self.fields.len()
            invariant
                i <= self.fields@.len(),
                numbers@.len() == self.fields@.len(),
                fields@.len() == i,
                forall|j: int|
                    0 <= j < i ==> (#[trigger] numbers@[j])@.len()
                        == self.fields@[j].all_literals().len(),
                forall|j: int|
                    0 <= j < i ==> resolved_to(
                        self.fields@[j],
                        numbers@[j]@,
                        #[trigger] fields@[j],
                    ),
            decreases self.fields@.len() - i,
        {
            match self.fields[i].resolve(&numbers[i]) {
                Some(field) => {
                    fields.push(field);
                },
                None => {
                    assert(numbers@[i as int]@.len() != self.fields@[i as int].all_literals().len());
                    return None;
                },
            }
            i = i + 1;
        }
        Some(ParamsLayout { fields, byte_size: self.byte_size })
    }
}

/// An integer as the word that holds it.
pub open spec fn as_word(value: int) -> u32 {
    (if value < 0 {
        value + 0x1_0000_0000
    } else {
        value
    }) as u32
}

/// The four bytes a number of a type is written as: an integer where the type is one, the
/// number's own pattern otherwise.
pub open spec fn word_of(ty: ParamType, raw: Single) -> Seq<u8> {
    match ty {
        ParamType::I32 => le_bytes(
            as_word(held_between(raw.nearest(), i32::MIN as int, i32::MAX as int)),
        ),
        ParamType::U32 => le_bytes(as_word(held_between(raw.nearest(), 0, u32::MAX as int))),
        _ => le_bytes(raw.0),
    }
}

/// The number a component of a parameter has: the document's where it carries the
/// parameter, the default's otherwise, and zero past the end of either.
pub open spec fn component_of(
    field: ParamField<Single>,
    values: Map<Seq<char>, Seq<Single>>,
    component: int,
) -> Single {
    let row = if values.dom().contains(field.name@) {
        values[field.name@]
    } else {
        field.default@
    };
    if component < row.len() {
        row[component]
    } else {
        Single(0)
    }
}

/// Four bytes written at a place.
pub open spec fn overwritten(bytes: Seq<u8>, at: int, word: Seq<u8>) -> Seq<u8> {
    bytes.take(at) + word + bytes.skip(at + word.len())
}

/// The uniform after the first `components` components of a parameter have been written.
pub open spec fn with_components(
    bytes: Seq<u8>,
    field: ParamField<Single>,
    values: Map<Seq<char>, Seq<Single>>,
    components: int,
) -> Seq<u8>
    decreases components,
{
    if components <= 0 {
        bytes
    } else {
        overwritten(
            with_components(bytes, field, values, components - 1),
            field.offset + (components - 1) * 4,
            word_of(field.ty, component_of(field, values, components - 1)),
        )
    }
}

/// The uniform after the first `count` parameters have been written.
pub open spec fn with_fields(
    size: int,
    fields: Seq<ParamField<Single>>,
    values: Map<Seq<char>, Seq<Single>>,
    count: int,
) -> Seq<u8>
    decreases count,
{
    if count <= 0 {
        Seq::new(size as nat, |i: int| 0u8)
    } else {
        with_components(
            with_fields(size, fields, values, count - 1),
            fields[count - 1],
            values,
            fields[count - 1].ty.count(),
        )
    }
}

/// The place of the first parameter of a name.
pub open spec fn named_from<N>(fields: Seq<ParamField<N>>, name: Seq<char>, from: int) -> Option<
    int,
>
    decreases fields.len() - from,
{
    if from < 0 || from >= fields.len() {
        None
    } else if fields[from].name@ == name {
        Some(from)
    } else {
        named_from(fields, name, from + 1)
    }
}

/// The four bytes a number of a type is written as.
fn word_for(ty: ParamType, raw: Single) -> (word: [u8; 4])
    ensures
        word@ == word_of(ty, raw),
{
    match ty {
        ParamType::I32 => {
            let value: i32 = raw.round_i32();
            if value < 0 {
                le4((value as i64 + 0x1_0000_0000) as u32)
            } else {
                le4(value as u32)
            }
        },
        ParamType::U32 => le4(raw.round_u32()),
        _ => raw.to_le_bytes(),
    }
}

/// Writes four bytes at a place.
fn write_word(bytes: &mut Vec<u8>, at: usize, word: [u8; 4])
    requires
        at + 4 <= old(bytes)@.len(),
    ensures
        final(bytes)@ == overwritten(old(bytes)@, at as int, word@),
        final(bytes)@.len() == old(bytes)@.len(),
{
    assert(bytes@.len() == bytes.len());
    bytes.set(at, word[0]);
    bytes.set(at + 1, word[1]);
    bytes.set(at + 2, word[2]);
    bytes.set(at + 3, word[3]);
    proof {
        assert(bytes@ =~= overwritten(old(bytes)@, at as int, word@));
    }
}

impl<N> ParamsLayout<N> {
    /// Whether every parameter lies inside the uniform.
    pub open spec fn fits(&self) -> bool {
        forall|i: int|
            0 <= i < self.fields@.len() ==> (#[trigger] self.fields@[i]).offset + 4
                * self.fields@[i].ty.count() <= self.byte_size
    }

    /// The parameter of that exact name, or `None`.
    pub fn field(&self, name: &str) -> (answer: Option<&ParamField<N>>)
        ensures
            match answer {
                Some(field) => named_from(self.fields@, name@, 0) is Some && *field
                    == self.fields@[named_from(self.fields@, name@, 0)->0],
                None => named_from(self.fields@, name@, 0) is None,
            },
    {
        let mut i: usize = 0;
        while i < self.fields.len()
            invariant
                i <= self.fields@.len(),
                named_from(self.fields@, name@, 0) == named_from(self.fields@, name@, i as int),
            decreases self.fields@.len() - i,
        {
            if same_text(self.fields[i].name.as_str(), name) {
                return Some(&self.fields[i]);
            }
            i = i + 1;
        }
        None
    }
}

/// Whether two strings are the same.
pub fn same_text(a: &str, b: &str) -> (answer: bool)
    ensures
        answer == (a@ == b@),
{
    let a: String = String::from_str(a);
    let b: String = String::from_str(b);
    a == b
}

impl ParamsLayout<Single> {
    /// `values` packed into the uniform this layout describes.
    ///
    /// A parameter `values` does not carry takes its default, and one it carries with the
    /// wrong number of components is padded with zeroes or truncated: a shader edited under
    /// a document must not be able to produce a short uniform.
    pub fn pack(&self, values: &Values) -> (bytes: Vec<u8>)
        requires
            self.fits(),
            values.wf(),
        ensures
            bytes@ == with_fields(
                self.byte_size as int,
                self.fields@,
                values@,
                self.fields@.len() as int,
            ),
            bytes@.len() == self.byte_size,
    {
        let mut bytes: Vec<u8> = Vec::new();
        while bytes.len() < self.byte_size
            invariant
                bytes@.len() <= self.byte_size,
                forall|i: int| 0 <= i < bytes@.len() ==> bytes@[i] == 0,
            decreases self.byte_size - bytes@.len(),
        {
            bytes.push(0);
        }
        proof {
            assert(bytes@ =~= Seq::new(self.byte_size as nat, |i: int| 0u8));
        }
        let mut k: usize = 0;
        while k < self.fields.len()
            invariant
                k <= self.fields@.len(),
                self.fits(),
                values.wf(),
                bytes@ == with_fields(self.byte_size as int, self.fields@, values@, k as int),
                bytes@.len() == self.byte_size,
            decreases self.fields@.len() - k,
        {
            let field: &ParamField<Single> = &self.fields[k];
            let row: &Vec<Single> = match values.get(field.name.as_str()) {
                Some(row) => row,
                None => &field.default,
            };
            let count: usize = field.ty.components();
            let ghost before = bytes@;
            let mut component: usize = 0;
            while component < count
                invariant
                    component <= count,
                    count == field.ty.count(),
                    count <= 4,
                    field.offset + 4 * count <= self.byte_size,
                    row@ == (if values@.dom().contains(field.name@) {
                        values@[field.name@]
                    } else {
                        field.default@
                    }),
                    bytes@ == with_components(before, *field, values@, component as int),
                    bytes@.len() == self.byte_size,
                decreases count - component,
            {
                let raw: Single = if component < row.len() {
                    row[component]
                } else {
                    Single(0)
                };
                let word: [u8; 4] = word_for(field.ty, raw);
                write_word(&mut bytes, field.offset + component * 4, word);
                component = component + 1;
            }
            k = k + 1;
        }
        bytes
    }
}

} // verus!
