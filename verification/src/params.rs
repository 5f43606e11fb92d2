//! The parameters a shader declares: what each is, how it is offered, and the uniform
//! they pack into.

use vstd::prelude::*;
use crate::text::{
    after_start, chars_of, decimal, decimal_of, is_white, is_word, strip_prefix, white,
};
use vstd::slice::slice_subrange;

verus! {

/// The struct a shader declares its parameters in, and the only one this grammar reads.
pub const PARAMS_STRUCT: &'static str = "Params";

/// The largest uniform a shader's parameters may pack into.
pub const MAX_PARAM_BYTES: usize = 1024;

/// What a parameter is, which decides how many components it has and how it packs.
#[derive(Clone, Copy, Debug, PartialEq, Eq, Structural)]
pub enum ParamType {
    /// A single-precision number.
    F32,
    /// A signed integer, carried as a number and rounded on the way into the uniform.
    I32,
    /// An unsigned integer, carried as a number and rounded on the way into the uniform.
    U32,
    /// Two numbers.
    Vec2,
    /// Three numbers.
    Vec3,
    /// Four numbers.
    Vec4,
}

/// The text between two places without its white space.
pub open spec fn unspaced(text: Seq<char>) -> Seq<char>
    decreases text.len(),
{
    if text.len() == 0 {
        text
    } else if white(text.last()) {
        unspaced(text.drop_last())
    } else {
        unspaced(text.drop_last()).push(text.last())
    }
}

/// Whether a word is `head`, then the element type with white space anywhere in it, then
/// the closing bracket.
pub open spec fn names_vector(word: Seq<char>, head: Seq<char>) -> bool {
    match after_start(word, head) {
        Some(rest) => rest.len() > 0 && rest.last() == '>' && unspaced(rest.drop_last()) == "f32"@,
        None => false,
    }
}

/// The type a word spells.
pub open spec fn type_named(word: Seq<char>) -> Option<ParamType> {
    if word == "f32"@ {
        Some(ParamType::F32)
    } else if word == "i32"@ {
        Some(ParamType::I32)
    } else if word == "u32"@ {
        Some(ParamType::U32)
    } else if names_vector(word, "vec2<"@) {
        Some(ParamType::Vec2)
    } else if names_vector(word, "vec3<"@) {
        Some(ParamType::Vec3)
    } else if names_vector(word, "vec4<"@) {
        Some(ParamType::Vec4)
    } else {
        None
    }
}

impl ParamType {
    /// The spelling of the type.
    pub open spec fn spelling(self) -> Seq<char> {
        match self {
            ParamType::F32 => "f32"@,
            ParamType::I32 => "i32"@,
            ParamType::U32 => "u32"@,
            ParamType::Vec2 => "vec2<f32>"@,
            ParamType::Vec3 => "vec3<f32>"@,
            ParamType::Vec4 => "vec4<f32>"@,
        }
    }

    /// How many numbers a value of the type carries.
    pub open spec fn count(self) -> int {
        match self {
            ParamType::F32 | ParamType::I32 | ParamType::U32 => 1,
            ParamType::Vec2 => 2,
            ParamType::Vec3 => 3,
            ParamType::Vec4 => 4,
        }
    }

    /// The multiple of bytes the type starts on in a uniform.
    pub open spec fn grain(self) -> int {
        match self {
            ParamType::F32 | ParamType::I32 | ParamType::U32 => 4,
            ParamType::Vec2 => 8,
            ParamType::Vec3 | ParamType::Vec4 => 16,
        }
    }

    /// The spelling this type is written as, and the only one [`ParamType::parse`] accepts
    /// but for white space inside a vector's brackets.
    pub fn as_str(self) -> (word: &'static str)
        ensures
            word@ == self.spelling(),
    {
        match self {
            ParamType::F32 => "f32",
            ParamType::I32 => "i32",
            ParamType::U32 => "u32",
            ParamType::Vec2 => "vec2<f32>",
            ParamType::Vec3 => "vec3<f32>",
            ParamType::Vec4 => "vec4<f32>",
        }
    }

    /// The type spelled exactly as [`ParamType::as_str`] writes it, with white space inside
    /// a vector's angle brackets tolerated, or `None`.
    pub fn parse(word: &str) -> (answer: Option<ParamType>)
        ensures
            answer == type_named(word@),
    {
        let chars: Vec<char> = chars_of(word);
        parse_type(chars.as_slice())
    }

    /// How many numbers a value of this type carries. Never zero, never over four.
    pub fn components(self) -> (count: usize)
        ensures
            count == self.count(),
            1 <= count <= 4,
    {
        match self {
            ParamType::F32 | ParamType::I32 | ParamType::U32 => 1,
            ParamType::Vec2 => 2,
            ParamType::Vec3 => 3,
            ParamType::Vec4 => 4,
        }
    }

    /// Whether the uniform holds this as an integer, which is what decides that a value is
    /// rounded rather than written through.
    pub fn is_integer(self) -> (answer: bool)
        ensures
            answer == (self == ParamType::I32 || self == ParamType::U32),
    {
        matches!(self, ParamType::I32 | ParamType::U32)
    }

    /// The alignment of this type in a uniform, in bytes.
    pub fn alignment(self) -> (bytes: usize)
        ensures
            bytes == self.grain(),
    {
        match self {
            ParamType::F32 | ParamType::I32 | ParamType::U32 => 4,
            ParamType::Vec2 => 8,
            ParamType::Vec3 | ParamType::Vec4 => 16,
        }
    }

    /// The bytes this type occupies, which for three components is those rather than its
    /// alignment.
    pub fn size(self) -> (bytes: usize)
        ensures
            bytes == 4 * self.count(),
    {
        self.components() * 4
    }
}

fn names_vector_of(word: &[char], head: &str) -> (answer: bool)
    ensures
        answer == names_vector(word@, head@),
{
    match strip_prefix(word, head) {
        Some(rest) => {
            let size: usize = rest.len();
            if size == 0 || rest[size - 1] != '>' {
                return false;
            }
            let inside: &[char] = slice_subrange(rest, 0, size - 1);
            proof {
                assert(inside@ =~= rest@.drop_last());
                assert(inside@.take(0) =~= Seq::<char>::empty());
            }
            let mut compact: Vec<char> = Vec::new();
            let mut i: usize = 0;
            while i < inside.len()
                invariant
                    i <= inside@.len(),
                    compact@ == unspaced(inside@.take(i as int)),
                decreases inside@.len() - i,
            {
                proof {
                    assert(inside@.take(i + 1).drop_last() =~= inside@.take(i as int));
                }
                if !is_white(inside[i]) {
                    compact.push(inside[i]);
                }
                i = i + 1;
            }
            proof {
                assert(inside@.take(i as int) =~= inside@);
            }
            is_word(compact.as_slice(), "f32")
        },
        None => false,
    }
}

/// The type a word spells, or `None`.
pub fn parse_type(word: &[char]) -> (answer: Option<ParamType>)
    ensures
        answer == type_named(word@),
{
    if is_word(word, "f32") {
        Some(ParamType::F32)
    } else if is_word(word, "i32") {
        Some(ParamType::I32)
    } else if is_word(word, "u32") {
        Some(ParamType::U32)
    } else if names_vector_of(word, "vec2<") {
        Some(ParamType::Vec2)
    } else if names_vector_of(word, "vec3<") {
        Some(ParamType::Vec3)
    } else if names_vector_of(word, "vec4<") {
        Some(ParamType::Vec4)
    } else {
        None
    }
}

/// A number as an annotation writes it.
#[derive(Debug)]
pub enum Literal {
    /// A number in decimal, as it is spelled.
    Number(String),
    /// A colour channel in decimal, as it is spelled. What it stands for is the channel in
    /// linear terms.
    Srgb(String),
    /// Zero.
    Zero,
    /// One.
    One,
}

/// What a [`Literal`] says.
pub enum LiteralView {
    /// A number in decimal.
    Number(Seq<char>),
    /// A colour channel in decimal.
    Srgb(Seq<char>),
    /// Zero.
    Zero,
    /// One.
    One,
}

impl View for Literal {
    type V = LiteralView;

    open spec fn view(&self) -> LiteralView {
        match self {
            Literal::Number(text) => LiteralView::Number(text@),
            Literal::Srgb(text) => LiteralView::Srgb(text@),
            Literal::Zero => LiteralView::Zero,
            Literal::One => LiteralView::One,
        }
    }
}

/// How a parameter is offered in the panel.
#[derive(Debug, PartialEq, Eq, Structural)]
pub enum Widget<N> {
    /// One slider per component, over `min..=max`.
    Slider {
        /// Low end of the slider.
        min: N,
        /// High end of the slider.
        max: N,
        /// The increment a drag snaps to, or `None` for a continuous slider.
        step: Option<N>,
    },
    /// Three or four sliders over zero to one, written in sRGB and stored linear.
    Color,
    /// A checkbox, written into the uniform as zero or one.
    Toggle,
    /// No widget at all. The declared default is what the shader is handed.
    Hidden,
}

/// What a widget read from an annotation says.
pub open spec fn widget_view(widget: Widget<Literal>) -> Widget<LiteralView> {
    match widget {
        Widget::Slider { min, max, step } => Widget::Slider {
            min: min@,
            max: max@,
            step: match step {
                Some(step) => Some(step@),
                None => None,
            },
        },
        Widget::Color => Widget::Color,
        Widget::Toggle => Widget::Toggle,
        Widget::Hidden => Widget::Hidden,
    }
}

/// What a list of literals says.
pub open spec fn literals_view(literals: Seq<Literal>) -> Seq<LiteralView> {
    literals.map_values(|literal: Literal| literal@)
}

/// One parameter of a shader: what it is called, what it is, and how it is offered.
#[derive(Debug)]
pub struct ParamField<N> {
    /// The field name as the struct spells it, and the key a document stores its value
    /// under.
    pub name: String,
    /// What the panel prints. The field name unless the annotation overrode it.
    pub label: String,
    /// The section this parameter was declared under, empty for one declared before any
    /// `@group`.
    pub group: String,
    /// What the uniform holds.
    pub ty: ParamType,
    /// How it is offered.
    pub widget: Widget<N>,
    /// The value a document takes when it does not carry one, in the shader's own terms.
    pub default: Vec<N>,
    /// Byte offset into the packed uniform.
    pub offset: usize,
}

/// Every parameter one shader declares, in declaration order, and the uniform they pack
/// into.
#[derive(Debug)]
pub struct ParamsLayout<N> {
    /// In declaration order, which is the order the panel draws them.
    pub fields: Vec<ParamField<N>>,
    /// The size of the packed uniform, rounded up to sixteen bytes.
    pub byte_size: usize,
}

/// What a parameter says.
pub struct FieldView<N> {
    /// The field name.
    pub name: Seq<char>,
    /// What the panel prints.
    pub label: Seq<char>,
    /// The section.
    pub group: Seq<char>,
    /// What the uniform holds.
    pub ty: ParamType,
    /// How it is offered.
    pub widget: Widget<N>,
    /// The value a document takes when it does not carry one.
    pub default: Seq<N>,
    /// Byte offset into the packed uniform.
    pub offset: int,
}

/// What a parameter read from a shader says.
pub open spec fn field_view(field: ParamField<Literal>) -> FieldView<LiteralView> {
    FieldView {
        name: field.name@,
        label: field.label@,
        group: field.group@,
        ty: field.ty,
        widget: widget_view(field.widget),
        default: literals_view(field.default@),
        offset: field.offset as int,
    }
}

/// What the parameters read from a shader say.
pub open spec fn fields_view(fields: Seq<ParamField<Literal>>) -> Seq<FieldView<LiteralView>> {
    fields.map_values(|field: ParamField<Literal>| field_view(field))
}

/// The least multiple of `grain` that is at least `bytes`.
pub open spec fn rounded_up(bytes: int, grain: int) -> int {
    (bytes + grain - 1) / grain * grain
}

/// The byte after the last parameter.
pub open spec fn packed_end(fields: Seq<FieldView<LiteralView>>) -> int {
    if fields.len() == 0 {
        0
    } else {
        fields.last().offset + 4 * fields.last().ty.count()
    }
}

/// The size of the uniform the parameters pack into.
pub open spec fn packed_size(fields: Seq<FieldView<LiteralView>>) -> int {
    if fields.len() == 0 {
        0
    } else {
        rounded_up(packed_end(fields), 16)
    }
}

/// Why a shader's parameters could not be read.
///
/// A parse failure is not fatal to a document: the layer keeps the values it had and the
/// reason is shown, because a shader is edited in place and is expected to be broken for
/// as long as it takes to type the next line.
#[derive(Debug)]
pub struct ParamError {
    /// Which line of the file, counting from one, or zero for a fault about the file as a
    /// whole.
    pub line: usize,
    /// What is wrong, in the words shown in the status bar.
    pub reason: String,
}

impl ParamError {
    /// The fault as the status bar prints it.
    pub open spec fn shown(&self) -> Seq<char> {
        if self.line == 0 {
            self.reason@
        } else {
            "line "@ + decimal(self.line as nat) + ": "@ + self.reason@
        }
    }

    /// The fault as the status bar prints it: the reason, after the line it is on.
    pub fn message(&self) -> (text: String)
        ensures
            text@ == self.shown(),
    {
        if self.line == 0 {
            self.reason.clone()
        } else {
            let mut text: String = String::from_str("line ");
            text.append(decimal_of(self.line as u128).as_str());
            text.append(": ");
            text.append(self.reason.as_str());
            text
        }
    }
}

/// A fault on a line.
pub fn fault(line: usize, reason: String) -> (error: ParamError)
    ensures
        error.line == line,
        error.reason == reason,
{
    ParamError { line, reason }
}

/// Every type is read back from its own spelling.
pub proof fn law_a_type_is_read_back(ty: ParamType)
    ensures
        type_named(ty.spelling()) == Some(ty),
{
    reveal_strlit("f32");
    reveal_strlit("i32");
    reveal_strlit("u32");
    reveal_strlit("vec2<f32>");
    reveal_strlit("vec3<f32>");
    reveal_strlit("vec4<f32>");
    reveal_strlit("vec2<");
    reveal_strlit("vec3<");
    reveal_strlit("vec4<");
    let word = ty.spelling();
    assert("f32"@[0] != "i32"@[0]);
    assert("f32"@[0] != "u32"@[0]);
    assert("i32"@[0] != "u32"@[0]);
    if ty == ParamType::Vec2 || ty == ParamType::Vec3 || ty == ParamType::Vec4 {
        let head = word.take(5);
        let rest = word.skip(5);
        assert(word.subrange(0, 5) =~= head);
        assert(ty == ParamType::Vec2 ==> head =~= "vec2<"@);
        assert(ty == ParamType::Vec3 ==> head =~= "vec3<"@);
        assert(ty == ParamType::Vec4 ==> head =~= "vec4<"@);
        assert(ty != ParamType::Vec2 ==> head[3] != "vec2<"@[3]);
        assert(ty != ParamType::Vec3 ==> head[3] != "vec3<"@[3]);
        assert(ty != ParamType::Vec4 ==> head[3] != "vec4<"@[3]);
        let inside = rest.drop_last();
        assert(inside =~= seq!['f', '3', '2']);
        assert(inside.drop_last() =~= seq!['f', '3']);
        assert(inside.drop_last().drop_last() =~= seq!['f']);
        assert(inside.drop_last().drop_last().drop_last() =~= Seq::<char>::empty());
        reveal_with_fuel(unspaced, 5);
        assert(unspaced(inside) =~= "f32"@);
    }
}

} // verus!
